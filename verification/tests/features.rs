use felidae_classifier::data::image::{LoadedImage, IMAGE_SIZE};
use felidae_classifier::features::extract::{self, FEATURE_COUNT};
use felidae_classifier::features::flatten::{feature_count, flatten};
use felidae_classifier::models::linear::transform::transformed_feature_count;

fn make_test_image() -> LoadedImage<f32> {
    let n = (IMAGE_SIZE * IMAGE_SIZE * 3) as usize;
    LoadedImage {
        pixels: vec![0.5; n],
        width: IMAGE_SIZE,
        height: IMAGE_SIZE,
    }
}

#[test]
fn test_flatten_length() {
    let img = make_test_image();
    let features = flatten(&img);

    assert_eq!(features.len(), 3072);
}

#[test]
fn test_flatten_values() {
    let img = make_test_image();
    let features = flatten(&img);

    for v in &features {
        assert_eq!(*v, 0.5);
    }
}

#[test]
fn test_features_count() {
    let img = make_test_image();
    let features = flatten(&img);
    assert_eq!(features.len(), feature_count());
}

#[test]
fn flatten_keeps_storage_order() {
    let img = LoadedImage { pixels: vec![3u8, 1, 4, 1, 5, 9], width: 2, height: 1 };
    assert_eq!(flatten(&img), vec![3, 1, 4, 1, 5, 9]);
}

#[test]
fn hand_crafted_feature_count_is_twenty() {
    assert_eq!(extract::feature_count(), FEATURE_COUNT);
    assert_eq!(extract::feature_count(), 20);
}

#[test]
fn degree_two_expansion_has_five_features() {
    assert_eq!(transformed_feature_count(), 5);
}
