use felidae_classifier::codec::DecodeError;
use felidae_classifier::models::mlp::activation::{lookup, Activation};
use felidae_classifier::models::mlp::{plan_layers, Layer, MLP};
use felidae_classifier::tensor::Matrix;

#[test]
fn test_lookup_known_activations() {
    assert!(lookup("tanh").is_ok());
    assert!(lookup("relu").is_ok());
    assert!(lookup("identity").is_ok());
}

#[test]
fn test_lookup_unknown_activation_errors() {
    assert!(lookup("not_a_real_function").is_err());
}

#[test]
fn lookup_gives_the_named_activation_and_message() {
    assert_eq!(lookup("tanh").unwrap(), Activation::Tanh);
    assert_eq!(lookup("relu").unwrap(), Activation::Relu);
    assert_eq!(lookup("identity").unwrap(), Activation::Identity);
    assert_eq!(lookup("Tanh").unwrap_err(), "Unknown activation function: 'Tanh'");
    assert_eq!(lookup("").unwrap_err(), "Unknown activation function: ''");
}

#[test]
fn activation_names_look_themselves_up() {
    for a in [Activation::Tanh, Activation::Relu, Activation::Identity] {
        assert_eq!(lookup(a.name()).unwrap(), a);
    }
}

#[test]
fn test_new_layer_count() {
    let layers = plan_layers(&[2, 16, 8, 3], "tanh", "tanh").unwrap();
    assert_eq!(layers.len(), 3);
}

#[test]
fn test_new_unknown_activation_errors() {
    let result = plan_layers(&[2, 16, 8, 3], "fakeactivation", "tanh");
    assert!(result.is_err());
}

#[test]
fn plan_layers_shapes_and_activations() {
    let layers = plan_layers(&[2, 16, 8, 3], "relu", "identity").unwrap();
    let shapes: Vec<(usize, usize, Activation)> =
        layers.iter().map(|l| (l.n_inputs, l.n_outputs, l.activation)).collect();
    assert_eq!(
        shapes,
        vec![
            (2, 16, Activation::Relu),
            (16, 8, Activation::Relu),
            (8, 3, Activation::Identity),
        ]
    );
}

#[test]
fn plan_layers_reports_hidden_activation_first() {
    let err = plan_layers(&[2, 4, 3], "nope", "alsonope").unwrap_err();
    assert_eq!(err, "Unknown activation function: 'nope'");
    let err = plan_layers(&[2, 4, 3], "tanh", "alsonope").unwrap_err();
    assert_eq!(err, "Unknown activation function: 'alsonope'");
}

#[test]
fn plan_layers_checks_hidden_activation_without_hidden_layer() {
    let err = plan_layers(&[5, 2], "nope", "tanh").unwrap_err();
    assert_eq!(err, "Unknown activation function: 'nope'");
    let layers = plan_layers(&[5, 2], "relu", "tanh").unwrap();
    assert_eq!(layers.len(), 1);
    assert_eq!((layers[0].n_inputs, layers[0].n_outputs), (5, 2));
    assert_eq!(layers[0].activation, Activation::Tanh);
}

fn layer(rows: usize, cols: usize, start: f32, act: Activation) -> Layer<u32> {
    let w: Vec<u32> = (0..rows * cols).map(|i| (start + i as f32 * 0.25).to_bits()).collect();
    let b: Vec<u32> = (0..cols).map(|i| (-(i as f32)).to_bits()).collect();
    Layer {
        weights: Matrix::from_vec(w, rows, cols),
        biases: Matrix::from_vec(b, 1, cols),
        activation: act,
        activation_name: act.name().to_string(),
    }
}

fn small_mlp() -> MLP<u32> {
    MLP { layers: vec![layer(2, 4, 0.5, Activation::Tanh), layer(4, 3, -1.0, Activation::Identity)] }
}

#[test]
fn mod_test_save_and_load_roundtrip() {
    let original = small_mlp();
    let bytes = original.to_bytes();
    let loaded = MLP::from_bytes(&bytes).expect("load failed");

    assert_eq!(original.layers.len(), loaded.layers.len());
    for li in 0..original.layers.len() {
        let orig = &original.layers[li];
        let ld = &loaded.layers[li];
        assert_eq!(orig.activation_name, ld.activation_name);
        assert_eq!(orig.activation, ld.activation);
        assert_eq!(orig.weights.rows, ld.weights.rows);
        assert_eq!(orig.weights.cols, ld.weights.cols);
        for i in 0..orig.weights.data.len() {
            assert_eq!(orig.weights.data[i], ld.weights.data[i]);
        }
        for i in 0..orig.biases.data.len() {
            assert_eq!(orig.biases.data[i], ld.biases.data[i]);
        }
    }
}

#[test]
fn mod_test_load_bad_magic_fails() {
    let result = MLP::from_bytes(b"NOTAMLPFILE");
    assert!(result.is_err());
}

#[test]
fn mlp_file_starts_with_tag_and_version() {
    let bytes = small_mlp().to_bytes();
    assert_eq!(&bytes[0..4], b"MLPv");
    assert_eq!(&bytes[4..8], &[1, 0, 0, 0]);
    assert_eq!(&bytes[8..12], &[2, 0, 0, 0]);
}

#[test]
fn mlp_bad_magic_reports_found_tag() {
    match MLP::from_bytes(b"NOTAMLPFILE") {
        Err(DecodeError::BadMagic(tag)) => assert_eq!(&tag, b"NOTA"),
        other => panic!("unexpected result {:?}", other.is_ok()),
    }
}

#[test]
fn mlp_other_version_is_refused() {
    let mut bytes = small_mlp().to_bytes();
    bytes[4] = 2;
    assert!(matches!(MLP::from_bytes(&bytes), Err(DecodeError::UnsupportedVersion(2))));
}

#[test]
fn mlp_truncated_file_is_refused() {
    let bytes = small_mlp().to_bytes();
    for cut in [0, 2, 7, 11, 20, bytes.len() - 1] {
        assert!(matches!(MLP::from_bytes(&bytes[..cut]), Err(DecodeError::Truncated)), "cut {}", cut);
    }
}

#[test]
fn mlp_unknown_activation_in_file_is_refused() {
    let mut m = small_mlp();
    m.layers[1].activation_name = "swish".to_string();
    let bytes = m.to_bytes();
    match MLP::from_bytes(&bytes) {
        Err(DecodeError::UnknownActivation(name)) => assert_eq!(name, "swish"),
        _ => panic!("expected an unknown activation"),
    }
}
