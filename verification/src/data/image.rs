//! Decoded images: interleaved RGB channel values, row by row.
use vstd::prelude::*;
use image::imageops::FilterType;
use image::{DynamicImage, ImageFormat, RgbImage};

verus! {

/// The side length, in pixels, every image is resized to.
pub const IMAGE_SIZE: u32 = 32;

/// An image of `width x height` pixels; pixel `(x, y)` occupies
/// `pixels[3 * (y * width + x) .. 3 * (y * width + x) + 3]` as red, green, blue.
pub struct LoadedImage<T> {
    pub pixels: Vec<T>,
    pub width: u32,
    pub height: u32,
}

impl<T: Copy> LoadedImage<T> {
    /// The red, green and blue values of pixel `(x, y)`.
    pub fn get_pixel(&self, x: u32, y: u32) -> (rgb: (T, T, T))
        requires
            (y * self.width + x) * 3 <= u32::MAX,
            (y * self.width + x) * 3 + 2 < self.pixels@.len(),
        ensures
            rgb.0 == self.pixels@[(y * self.width + x) * 3],
            rgb.1 == self.pixels@[(y * self.width + x) * 3 + 1],
            rgb.2 == self.pixels@[(y * self.width + x) * 3 + 2],
    {
        proof {
            assert(0 <= y * self.width) by (nonlinear_arith);
        }
        let index = ((y * self.width + x) * 3) as usize;
        let len = self.pixels.len();
        assert(index + 2 < len);
        (self.pixels[index], self.pixels[index + 1], self.pixels[index + 2])
    }
}

/// The resampling filter of a resize.
#[derive(Debug, Clone, Copy, PartialEq, Eq, Structural)]
pub enum ResizeFilter {
    /// Each output pixel copies the nearest input pixel.
    Nearest,
    /// Each output pixel is a linear (tent) blend of the input pixels around it.
    Triangle,
}

/// The interleaved RGB values of an image of `width x height` pixels resized to
/// `new_width x new_height` with `filter`, as the `image` crate computes them.
pub uninterp spec fn resized_pixels(
    pixels: Seq<u8>,
    width: u32,
    height: u32,
    new_width: u32,
    new_height: u32,
    filter: ResizeFilter,
) -> Seq<u8>;

/// `DynamicImage::resize_exact` (image) with `FilterType::Nearest` or
/// `FilterType::Triangle`, on an RGB image built by `RgbImage::from_raw` from
/// `pixels`. Stated: the result is the named resampling of the arguments,
/// holds `new_width * new_height` pixels, and is the input itself when the
/// size does not change (the crate copies the image then). The sampled values
/// are left to the name. `requires` keeps the buffers the crate allocates
/// within `usize`.
#[verifier::external_body]
fn resize_exact(
    pixels: &Vec<u8>,
    width: u32,
    height: u32,
    new_width: u32,
    new_height: u32,
    filter: ResizeFilter,
) -> (out: Vec<u8>)
    requires
        pixels@.len() == width * height * 3,
        width * new_height * 4 <= usize::MAX,
        new_width * new_height * 3 <= usize::MAX,
    ensures
        out@ == resized_pixels(pixels@, width, height, new_width, new_height, filter),
        out@.len() == new_width * new_height * 3,
        width > 0 && height > 0 && new_width == width && new_height == height ==> out@ == pixels@,
{
    let filter_type = match filter {
        ResizeFilter::Nearest => FilterType::Nearest,
        ResizeFilter::Triangle => FilterType::Triangle,
    };
    match RgbImage::from_raw(width, height, pixels.clone()) {
        Some(img) => DynamicImage::ImageRgb8(img).resize_exact(new_width, new_height, filter_type).into_rgb8().into_raw(),
        None => Vec::new(),
    }
}

/// The image resized to `new_width x new_height` pixels with `filter`.
pub fn resize_image(image: &LoadedImage<u8>, new_width: u32, new_height: u32, filter: ResizeFilter) -> (resized: LoadedImage<u8>)
    requires
        image.pixels@.len() == image.width * image.height * 3,
        image.width * new_height * 4 <= usize::MAX,
        new_width * new_height * 3 <= usize::MAX,
    ensures
        resized.width == new_width,
        resized.height == new_height,
        resized.pixels@ == resized_pixels(image.pixels@, image.width, image.height, new_width, new_height, filter),
        resized.pixels@.len() == new_width * new_height * 3,
        image.width > 0 && image.height > 0 && new_width == image.width && new_height == image.height
            ==> resized.pixels@ == image.pixels@,
{
    let pixels = resize_exact(&image.pixels, image.width, image.height, new_width, new_height, filter);
    LoadedImage { pixels, width: new_width, height: new_height }
}

/// What the `image` crate decodes from the file contents `bytes`, in the
/// format that the file extension `extension` names, resized to `width x
/// height` with `filter` in the image's own colour type and converted to 8-bit
/// RGB; `None` when the extension names no format the crate knows or the
/// bytes do not decode in it.
pub uninterp spec fn decoded_resized_rgb8(
    bytes: Seq<u8>,
    extension: Seq<char>,
    width: u32,
    height: u32,
    filter: ResizeFilter,
) -> Option<Seq<u8>>;

/// `ImageFormat::from_extension` (image), then `image::load_from_memory_with_format`,
/// then `DynamicImage::resize_exact` with `FilterType::Nearest` or
/// `FilterType::Triangle`, then `into_rgb8`: what `image::open` does with a
/// file of that extension. Stated: the result is `None` exactly when the name
/// says so, and otherwise the named pixels, `width * height` RGB triples. The
/// decoded and sampled values are left to the name. Buffers larger than any
/// address space holds (a decoded image is limited to 512 MiB) are the
/// machine's.
#[verifier::external_body]
fn decode_resize_rgb8(bytes: &[u8], extension: &str, width: u32, height: u32, filter: ResizeFilter) -> (r: Option<
    Vec<u8>,
>)
    ensures
        r is Some <==> decoded_resized_rgb8(bytes@, extension@, width, height, filter) is Some,
        r matches Some(p) ==> decoded_resized_rgb8(bytes@, extension@, width, height, filter) == Some(p@)
            && p@.len() == width * height * 3,
{
    let filter_type = match filter {
        ResizeFilter::Nearest => FilterType::Nearest,
        ResizeFilter::Triangle => FilterType::Triangle,
    };
    let format = ImageFormat::from_extension(extension)?;
    match image::load_from_memory_with_format(bytes, format) {
        Ok(img) => Some(img.resize_exact(width, height, filter_type).into_rgb8().into_raw()),
        Err(_) => None,
    }
}

/// The image whose file contents are `bytes` and whose file name ends in
/// `extension`, resized to `size_width x size_height` pixels by
/// nearest-neighbour sampling; `None` when it is not an image the `image`
/// crate decodes. Reading the file is the caller's.
pub fn load_resize_image(bytes: &[u8], extension: &str, size_width: u32, size_height: u32) -> (r: Option<
    LoadedImage<u8>,
>)
    ensures
        r is Some <==> decoded_resized_rgb8(bytes@, extension@, size_width, size_height, ResizeFilter::Nearest) is Some,
        r matches Some(img) ==> {
            &&& img.width == size_width
            &&& img.height == size_height
            &&& decoded_resized_rgb8(bytes@, extension@, size_width, size_height, ResizeFilter::Nearest) == Some(
                img.pixels@,
            )
            &&& img.pixels@.len() == size_width * size_height * 3
        },
{
    match decode_resize_rgb8(bytes, extension, size_width, size_height, ResizeFilter::Nearest) {
        Some(pixels) => Some(LoadedImage { pixels, width: size_width, height: size_height }),
        None => None,
    }
}

/// The image whose file contents are `bytes` and whose file name ends in
/// `extension`, resized to `IMAGE_SIZE x IMAGE_SIZE` pixels with a triangle
/// filter; `None` when it is not an image the `image` crate decodes. Reading
/// the file is the caller's.
pub fn load_image_bytes(bytes: &[u8], extension: &str) -> (r: Option<LoadedImage<u8>>)
    ensures
        r is Some <==> decoded_resized_rgb8(bytes@, extension@, IMAGE_SIZE, IMAGE_SIZE, ResizeFilter::Triangle) is Some,
        r matches Some(img) ==> {
            &&& img.width == IMAGE_SIZE
            &&& img.height == IMAGE_SIZE
            &&& decoded_resized_rgb8(bytes@, extension@, IMAGE_SIZE, IMAGE_SIZE, ResizeFilter::Triangle) == Some(
                img.pixels@,
            )
            &&& img.pixels@.len() == IMAGE_SIZE * IMAGE_SIZE * 3
        },
{
    match decode_resize_rgb8(bytes, extension, IMAGE_SIZE, IMAGE_SIZE, ResizeFilter::Triangle) {
        Some(pixels) => Some(LoadedImage { pixels, width: IMAGE_SIZE, height: IMAGE_SIZE }),
        None => None,
    }
}

} // verus!
