use felidae_classifier::codec::DecodeError;
use felidae_classifier::data::builder::SampleCollector;
use felidae_classifier::data::classes::{discover_classes, sort_names};
use felidae_classifier::data::one_hot_encode;
use felidae_classifier::data::image::{load_image_bytes, load_resize_image, resize_image, LoadedImage, ResizeFilter, IMAGE_SIZE};
use felidae_classifier::data::loader::DatasetLoader;
use felidae_classifier::data::Dataset;
use felidae_classifier::data::species::{arrange_species, shuffle_species};
use felidae_classifier::tensor::Matrix;

fn make_dummy_dataset(n_samples: usize, n_features: usize, n_classes: usize) -> Dataset<f32> {
    let mut data = Vec::new();
    let mut labels = Vec::new();
    let mut class_names = Vec::new();
    for c in 0..n_classes {
        class_names.push(format!("class_{}", c));
    }
    for i in 0..n_samples {
        for _ in 0..n_features {
            data.push(i as f32);
        }
        labels.push(i % n_classes);
    }
    Dataset {
        x: Matrix::from_vec(data, n_samples, n_features),
        labels,
        class_names,
    }
}

/// Stratified split with a test share of `test_ratio` of each class.
fn split(ds: &Dataset<f32>, test_ratio: f32, seed: u64) -> (Dataset<f32>, Dataset<f32>) {
    let counts: Vec<usize> = ds
        .class_sizes()
        .iter()
        .map(|&m| ((m as f32) * test_ratio).round() as usize)
        .collect();
    ds.train_test_split_counts(&counts, seed)
}

#[test]
fn test_dataset_len() {
    let ds = make_dummy_dataset(10, 5, 3);
    assert_eq!(ds.len(), 10);
}

#[test]
fn test_num_classes() {
    let ds = make_dummy_dataset(10, 5, 4);
    assert_eq!(ds.num_classes(), 4);
}

#[test]
fn test_split_sizes() {
    let dataset = make_dummy_dataset(100, 3, 3);
    let (train, test) = split(&dataset, 0.2, 42);

    let n = dataset.len();
    let expected_test = (n as f32 * 0.2).round() as usize;

    assert_eq!(train.len() + test.len(), n, "no examples should be lost or duplicated");
    assert!(
        (test.len() as i64 - expected_test as i64).abs() <= 3,
        "test size {} should be close to expected {}",
        test.len(),
        expected_test
    );
}

#[test]
fn test_split_different_seeds_differ() {
    let dataset = make_dummy_dataset(100, 3, 3);
    let (_, test_a) = split(&dataset, 0.2, 42);
    let (_, test_b) = split(&dataset, 0.2, 43);

    assert_ne!(test_a.x.data, test_b.x.data, "different seeds should select different examples");
}

#[test]
fn test_split_is_stratified() {
    let dataset = make_dummy_dataset(90, 3, 3);
    let (train, test) = split(&dataset, 0.2, 42);

    let n_classes = dataset.num_classes();
    for class in 0..n_classes {
        let in_train = train.labels.iter().any(|&l| l == class);
        let in_test = test.labels.iter().any(|&l| l == class);
        assert!(in_train, "class {} missing from train split", class);
        assert!(in_test, "class {} missing from test split", class);
    }
}

#[test]
fn test_split_is_reproducible() {
    let ds = make_dummy_dataset(50, 3, 3);
    let (train_a, test_a) = split(&ds, 0.2, 42);
    let (train_b, test_b) = split(&ds, 0.2, 42);
    assert_eq!(train_a.labels, train_b.labels);
    assert_eq!(test_a.labels, test_b.labels);
}

#[test]
fn test_split_preserves_all_samples() {
    let ds = make_dummy_dataset(20, 2, 3);
    let (train, test) = split(&ds, 0.3, 42);
    assert_eq!(train.len() + test.len(), 20);
}

#[test]
fn test_split_carries_class_names() {
    let ds = make_dummy_dataset(20, 2, 3);
    let (train, test) = split(&ds, 0.3, 42);
    assert_eq!(train.class_names, vec!["class_0", "class_1", "class_2"]);
    assert_eq!(test.class_names, vec!["class_0", "class_1", "class_2"]);
}

#[test]
fn class_sizes_counts_each_label() {
    let ds = make_dummy_dataset(10, 1, 3);
    assert_eq!(ds.class_sizes(), vec![4, 3, 3]);
}

#[test]
fn split_groups_classes_in_order_with_requested_counts() {
    let ds = make_dummy_dataset(12, 2, 3);
    let (train, test) = ds.train_test_split_counts(&vec![1, 2, 0], 7);
    assert_eq!(test.labels, vec![0, 1, 1]);
    assert_eq!(train.labels, vec![0, 0, 0, 1, 1, 2, 2, 2, 2]);
    assert_eq!(test.x.rows, 3);
    assert_eq!(test.x.cols, 2);
    assert_eq!(train.x.rows, 9);
    assert_eq!(train.x.data.len(), 18);
}

#[test]
fn split_rows_travel_with_their_labels() {
    // Every sample's features equal its index, and its label is index % 3.
    let ds = make_dummy_dataset(30, 2, 3);
    let (train, test) = split(&ds, 0.4, 11);
    let mut seen: Vec<usize> = Vec::new();
    for part in [&train, &test] {
        for r in 0..part.len() {
            let a = part.x.get(r, 0);
            let b = part.x.get(r, 1);
            assert_eq!(a, b);
            let index = a as usize;
            assert_eq!(part.labels[r], index % 3);
            seen.push(index);
        }
    }
    seen.sort();
    assert_eq!(seen, (0..30).collect::<Vec<usize>>());
}

#[test]
fn test_count_larger_than_class_sends_whole_class_to_test() {
    let ds = make_dummy_dataset(6, 1, 2);
    let (train, test) = ds.train_test_split_counts(&vec![10, 0], 3);
    assert_eq!(test.labels, vec![0, 0, 0]);
    assert_eq!(train.labels, vec![1, 1, 1]);
}

fn small_u32_dataset() -> Dataset<u32> {
    Dataset {
        x: Matrix::from_vec(vec![1.5f32.to_bits(), 2.0f32.to_bits(), 7, 8], 2, 2),
        labels: vec![1, 0],
        class_names: vec!["cat".to_string(), "lion".to_string()],
    }
}

#[test]
fn dataset_cache_bytes_layout() {
    let ds = Dataset {
        x: Matrix::from_vec(vec![5u32], 1, 1),
        labels: vec![0],
        class_names: vec!["ab".to_string()],
    };
    let bytes = ds.to_bytes();
    let expected: Vec<u8> = vec![
        1, 0, 0, 0, // samples
        1, 0, 0, 0, // features
        1, 0, 0, 0, // classes
        2, 0, 0, 0, b'a', b'b', // name
        0, 0, 0, 0, // label
        5, 0, 0, 0, // feature
    ];
    assert_eq!(bytes, expected);
}

#[test]
fn dataset_cache_roundtrip() {
    let ds = small_u32_dataset();
    let bytes = ds.to_bytes();
    let back = Dataset::from_bytes(&bytes).expect("cache should read back");
    assert_eq!(back.x.rows, 2);
    assert_eq!(back.x.cols, 2);
    assert_eq!(back.x.data, ds.x.data);
    assert_eq!(back.labels, ds.labels);
    assert_eq!(back.class_names, ds.class_names);
    assert_eq!(f32::from_bits(back.x.data[0]), 1.5);
}

#[test]
fn dataset_cache_truncated_is_refused() {
    let bytes = small_u32_dataset().to_bytes();
    for cut in [0, 3, 12, 20, bytes.len() - 1] {
        let r = Dataset::from_bytes(&bytes[..cut]);
        assert!(matches!(r, Err(DecodeError::Truncated)), "cut at {}", cut);
    }
}

#[test]
fn dataset_cache_invalid_utf8_name_is_refused() {
    let bytes: Vec<u8> = vec![
        0, 0, 0, 0, //
        0, 0, 0, 0, //
        1, 0, 0, 0, //
        2, 0, 0, 0, 0xff, 0xfe,
    ];
    let r = Dataset::from_bytes(&bytes);
    assert!(matches!(r, Err(DecodeError::InvalidUtf8)));
}

#[test]
fn dataset_cache_reads_non_ascii_name() {
    let ds = Dataset {
        x: Matrix::from_vec(Vec::<u32>::new(), 0, 3),
        labels: vec![],
        class_names: vec!["guépard".to_string()],
    };
    let back = Dataset::from_bytes(&ds.to_bytes()).unwrap();
    assert_eq!(back.class_names, vec!["guépard"]);
    assert_eq!(back.x.cols, 3);
    assert_eq!(back.len(), 0);
}

#[test]
fn collector_builds_dataset_in_order() {
    let mut c: SampleCollector<f32> = SampleCollector::new();
    assert!(c.add_sample(&vec![1.0, 2.0], 0).is_ok());
    assert!(c.add_sample(&vec![3.0, 4.0], 2).is_ok());
    let ds = c.into_dataset(vec!["a".to_string(), "b".to_string(), "c".to_string()]);
    assert_eq!(ds.x.rows, 2);
    assert_eq!(ds.x.cols, 2);
    assert_eq!(ds.x.data, vec![1.0, 2.0, 3.0, 4.0]);
    assert_eq!(ds.labels, vec![0, 2]);
    assert_eq!(ds.num_classes(), 3);
}

#[test]
fn collector_refuses_other_feature_length() {
    let mut c: SampleCollector<f32> = SampleCollector::new();
    c.add_sample(&vec![1.0, 2.0, 3.0], 1).unwrap();
    assert_eq!(c.add_sample(&vec![1.0], 0), Err((1, 3)));
    assert_eq!(c.labels, vec![1]);
    assert_eq!(c.x_data.len(), 3);
}

#[test]
fn empty_collector_gives_empty_dataset() {
    let c: SampleCollector<f32> = SampleCollector::new();
    let ds = c.into_dataset(vec![]);
    assert_eq!(ds.len(), 0);
    assert_eq!(ds.x.cols, 0);
}

#[test]
fn get_pixel_reads_interleaved_channels() {
    let img = LoadedImage { pixels: vec![1u8, 2, 3, 4, 5, 6, 7, 8, 9, 10, 11, 12], width: 2, height: 2 };
    assert_eq!(img.get_pixel(0, 0), (1, 2, 3));
    assert_eq!(img.get_pixel(1, 0), (4, 5, 6));
    assert_eq!(img.get_pixel(0, 1), (7, 8, 9));
    assert_eq!(img.get_pixel(1, 1), (10, 11, 12));
}

fn png_bytes(pixels: Vec<u8>, width: u32, height: u32) -> Vec<u8> {
    let img = image::RgbImage::from_raw(width, height, pixels).unwrap();
    let mut out = std::io::Cursor::new(Vec::new());
    image::DynamicImage::ImageRgb8(img).write_to(&mut out, image::ImageFormat::Png).unwrap();
    out.into_inner()
}

#[test]
fn load_resize_image_keeps_same_size_image() {
    let pixels: Vec<u8> = (0..12).collect();
    let out = load_resize_image(&png_bytes(pixels.clone(), 2, 2), "png", 2, 2).unwrap();
    assert_eq!(out.width, 2);
    assert_eq!(out.height, 2);
    assert_eq!(out.pixels, pixels);
}

#[test]
fn load_resize_image_upscales_by_repeating_pixels() {
    let bytes = png_bytes(vec![10u8, 20, 30, 40, 50, 60], 2, 1);
    let out = load_resize_image(&bytes, "png", 4, 1).unwrap();
    assert_eq!(out.width, 4);
    assert_eq!(out.height, 1);
    assert_eq!(out.pixels, vec![10, 20, 30, 10, 20, 30, 40, 50, 60, 40, 50, 60]);
}

#[test]
fn load_resize_image_refuses_non_image_bytes() {
    assert!(load_resize_image(b"this is not an image", "png", 4, 4).is_none());
    assert!(load_resize_image(&[], "png", 4, 4).is_none());
}

#[test]
fn load_image_bytes_gives_standard_size() {
    let pixels: Vec<u8> = (0..(64 * 48 * 3)).map(|i| (i % 251) as u8).collect();
    let out = load_image_bytes(&png_bytes(pixels, 64, 48), "png").unwrap();
    assert_eq!(out.pixels.len(), (IMAGE_SIZE * IMAGE_SIZE * 3) as usize);
    assert_eq!((out.width, out.height), (32, 32));
}

#[test]
fn load_image_bytes_blends_with_triangle_filter() {
    // a 64 x 32 image whose left half is black and right half white: at half
    // width every output pixel mixes neighbours of one half, so the columns
    // stay black then white, with at most a blended seam in between
    let mut pixels = Vec::new();
    for _y in 0..32 {
        for x in 0..64 {
            let v = if x < 32 { 0u8 } else { 255u8 };
            pixels.extend_from_slice(&[v, v, v]);
        }
    }
    let out = load_image_bytes(&png_bytes(pixels, 64, 32), "png").unwrap();
    assert_eq!(out.pixels[0], 0);
    assert_eq!(out.pixels[(31 * 3) as usize], 255);
}

#[test]
fn load_image_bytes_resizes_sixteen_bit_images() {
    let img = image::ImageBuffer::<image::Rgb<u16>, Vec<u16>>::from_raw(2, 2, vec![65535u16; 12]).unwrap();
    let mut out = std::io::Cursor::new(Vec::new());
    image::DynamicImage::ImageRgb16(img).write_to(&mut out, image::ImageFormat::Png).unwrap();
    let loaded = load_image_bytes(&out.into_inner(), "png").unwrap();
    assert_eq!(loaded.pixels.len(), 32 * 32 * 3);
    assert!(loaded.pixels.iter().all(|&v| v == 255));
}

#[test]
fn test_one_hot_encode() {
    let labels = vec![0, 2, 1];
    let y = one_hot_encode(&labels, 3, 1.0f32, -1.0f32);

    assert_eq!(y.rows, 3);
    assert_eq!(y.cols, 3);

    assert_eq!(y.get(0, 0), 1.0);
    assert_eq!(y.get(0, 1), -1.0);
    assert_eq!(y.get(0, 2), -1.0);

    assert_eq!(y.get(1, 0), -1.0);
    assert_eq!(y.get(1, 1), -1.0);
    assert_eq!(y.get(1, 2), 1.0);

    assert_eq!(y.get(2, 0), -1.0);
    assert_eq!(y.get(2, 1), 1.0);
    assert_eq!(y.get(2, 2), -1.0);
}

#[test]
fn one_hot_encode_out_of_range_label_is_all_off() {
    let y = one_hot_encode(&[5usize, 0], 2, 1u8, 0u8);
    assert_eq!(y.data, vec![0, 0, 1, 0]);
}

#[test]
fn class_names_sorted_as_strings() {
    let names = vec!["lion".to_string(), "cat".to_string(), "cheetah".to_string(), "Zebra".to_string()];
    let sorted = discover_classes(names, "data/train").unwrap();
    assert_eq!(sorted, vec!["Zebra", "cat", "cheetah", "lion"]);
}

#[test]
fn class_names_sort_matches_std_order() {
    let names: Vec<String> = ["b", "a", "ab", "", "é", "e", "aa", "b"].iter().map(|s| s.to_string()).collect();
    let mut expected = names.clone();
    expected.sort();
    assert_eq!(sort_names(names), expected);
}

#[test]
fn no_class_directory_is_refused() {
    let r = discover_classes(vec![], "data/train");
    assert_eq!(r, Err("No class subdirectories found in data/train".to_string()));
}


#[test]
fn triangle_resize_blends_neighbours() {
    let img = LoadedImage { pixels: vec![10u8, 20, 30, 40, 50, 60], width: 2, height: 1 };
    let out = resize_image(&img, 1, 1, ResizeFilter::Triangle);
    assert_eq!((out.width, out.height), (1, 1));
    assert_eq!(out.pixels, vec![25, 35, 45]);
}

#[test]
fn nearest_and_triangle_keep_same_size_image() {
    let pixels: Vec<u8> = (100..127).collect();
    let img = LoadedImage { pixels: pixels.clone(), width: 3, height: 3 };
    assert_eq!(resize_image(&img, 3, 3, ResizeFilter::Triangle).pixels, pixels);
    assert_eq!(resize_image(&img, 3, 3, ResizeFilter::Nearest).pixels, pixels);
}

#[test]
fn loader_keeps_class_order_and_limit() {
    let dirs = vec!["lion".to_string(), "cat".to_string()];
    let mut l: DatasetLoader<f32> = DatasetLoader::new(dirs, "root", Some(2)).unwrap();
    assert_eq!(l.class_names, vec!["cat", "lion"]);
    // class "cat"
    assert!(l.wants_more());
    l.add_sample(&vec![1.0, 1.0]).unwrap();
    assert!(l.wants_more());
    l.add_sample(&vec![2.0, 2.0]).unwrap();
    assert!(!l.wants_more());
    l.finish_class();
    // class "lion"
    assert!(l.wants_more());
    assert_eq!(l.add_sample(&vec![3.0]), Err((1, 2)));
    l.add_sample(&vec![3.0, 3.0]).unwrap();
    l.finish_class();
    assert!(!l.wants_more());
    let ds = l.into_dataset();
    assert_eq!(ds.labels, vec![0, 0, 1]);
    assert_eq!(ds.x.rows, 3);
    assert_eq!(ds.x.cols, 2);
    assert_eq!(ds.x.data, vec![1.0, 1.0, 2.0, 2.0, 3.0, 3.0]);
    assert_eq!(ds.class_names, vec!["cat", "lion"]);
}

#[test]
fn loader_without_limit_and_without_samples() {
    let mut l: DatasetLoader<u8> = DatasetLoader::new(vec!["a".to_string()], "r", None).unwrap();
    for _ in 0..5 {
        assert!(l.wants_more());
        l.add_sample(&vec![7]).unwrap();
    }
    assert_eq!(l.loaded_for_class, 5);
    l.finish_class();
    let ds = l.into_dataset();
    assert_eq!(ds.labels, vec![0; 5]);
    let empty: DatasetLoader<u8> = DatasetLoader::new(vec!["a".to_string()], "r", Some(0)).unwrap();
    assert!(!empty.wants_more());
    let ds = empty.into_dataset();
    assert_eq!((ds.x.rows, ds.x.cols), (0, 0));
}

#[test]
fn loader_refuses_folder_without_classes() {
    let r: Result<DatasetLoader<f32>, String> = DatasetLoader::new(vec![], "data/train", None);
    assert_eq!(r.err(), Some("No class subdirectories found in data/train".to_string()));
}

#[test]
fn image_format_follows_the_extension() {
    let bytes = png_bytes(vec![1u8, 2, 3], 1, 1);
    assert!(load_resize_image(&bytes, "PNG", 1, 1).is_some());
    assert!(load_resize_image(&bytes, "jpg", 1, 1).is_none());
    assert!(load_resize_image(&bytes, "", 1, 1).is_none());
    assert!(load_image_bytes(&bytes, "txt").is_none());
}

#[test]
fn split_by_orders_takes_rows_in_the_given_orders() {
    // samples 0..6 with features [i, i], labels 0 1 0 1 0 1
    let ds = make_dummy_dataset(6, 2, 2);
    // class 0 holds samples [0, 2, 4], class 1 holds [1, 3, 5]
    let orders = vec![vec![2, 0, 1], vec![1, 2, 0]];
    let (train, test) = ds.split_by_orders(&vec![2, 1], &orders);
    assert_eq!(test.x.data, vec![4.0, 4.0, 0.0, 0.0, 3.0, 3.0]);
    assert_eq!(test.labels, vec![0, 0, 1]);
    assert_eq!(train.x.data, vec![2.0, 2.0, 5.0, 5.0, 1.0, 1.0]);
    assert_eq!(train.labels, vec![0, 1, 1]);
}

#[test]
fn arrange_species_follows_the_order() {
    let cat = vec![vec![1u8], vec![2u8]];
    let lion = vec![vec![3u8]];
    let cheetah = vec![vec![4u8], vec![5u8]];
    let (samples, species) = arrange_species(&cat, &lion, &cheetah, &vec![4, 2, 0, 3, 1]);
    assert_eq!(samples, vec![vec![5], vec![3], vec![1], vec![4], vec![2]]);
    assert_eq!(species, vec![2, 1, 0, 2, 0]);
}

#[test]
fn shuffle_species_keeps_every_sample_with_its_species() {
    let cat: Vec<Vec<u32>> = (0..10).map(|i| vec![i]).collect();
    let lion: Vec<Vec<u32>> = (10..25).map(|i| vec![i]).collect();
    let cheetah: Vec<Vec<u32>> = (25..30).map(|i| vec![i]).collect();
    let (samples, species) = shuffle_species(&cat, &lion, &cheetah);
    assert_eq!(samples.len(), 30);
    let mut pairs: Vec<(u32, u8)> = samples.iter().map(|s| s[0]).zip(species.iter().copied()).collect();
    pairs.sort();
    let expected: Vec<(u32, u8)> = (0..30).map(|i| (i, if i < 10 { 0 } else if i < 25 { 1 } else { 2 })).collect();
    assert_eq!(pairs, expected);
}
