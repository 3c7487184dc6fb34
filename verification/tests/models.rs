use felidae_classifier::codec::DecodeError;
use felidae_classifier::models::linear::Regression;
use felidae_classifier::models::perceptron::{Rosenblatt, RosenblattClassifier};
use felidae_classifier::models::rbfn::RBFN;
use felidae_classifier::models::svm::kernel::Kernel;
use felidae_classifier::models::svm::multiclass::MulticlassSVM;
use felidae_classifier::models::svm::SVM;
use felidae_classifier::tensor::Matrix;

fn bits(v: &[f32]) -> Vec<u32> {
    v.iter().map(|x| x.to_bits()).collect()
}

fn sample_rbfn() -> RBFN<u32> {
    RBFN {
        centers: Matrix::from_vec(bits(&[0.0, 0.0, 5.0, 5.0]), 2, 2),
        weights: Matrix::from_vec(bits(&[1.0, -1.0, -0.5, 0.75]), 2, 2),
        gamma: 1.0f32.to_bits(),
    }
}

#[test]
fn rbfn_test_save_and_load_roundtrip() {
    let original = sample_rbfn();
    let loaded = RBFN::from_bytes(&original.to_bytes()).expect("load failed");

    assert_eq!(original.gamma, loaded.gamma);
    assert_eq!(original.centers.rows, loaded.centers.rows);
    assert_eq!(original.centers.data, loaded.centers.data);
    assert_eq!(original.weights.data.len(), loaded.weights.data.len());
    for i in 0..original.weights.data.len() {
        assert_eq!(original.weights.data[i], loaded.weights.data[i]);
    }
}

#[test]
fn rbfn_test_load_bad_magic_fails() {
    assert!(RBFN::from_bytes(b"NOTANRBFFILE").is_err());
}

#[test]
fn rbfn_file_layout_starts_with_tag_version_gamma() {
    let bytes = sample_rbfn().to_bytes();
    assert_eq!(&bytes[0..4], b"RBFv");
    assert_eq!(&bytes[4..8], &[1, 0, 0, 0]);
    assert_eq!(&bytes[8..12], &1.0f32.to_le_bytes());
    assert_eq!(bytes.len(), 12 + (8 + 16) * 2);
}

#[test]
fn rbfn_truncated_file_is_refused() {
    let bytes = sample_rbfn().to_bytes();
    for cut in [3, 8, 11, 19, bytes.len() - 1] {
        assert!(matches!(RBFN::from_bytes(&bytes[..cut]), Err(DecodeError::Truncated)), "cut {}", cut);
    }
}

fn sample_svm(kernel: Kernel<u32>) -> SVM<u32> {
    SVM {
        support_vectors: Matrix::from_vec(bits(&[1.0, 2.0, -1.0, -2.0]), 2, 2),
        sv_weights: bits(&[0.5, -0.5]),
        bias: 0.125f32.to_bits(),
        kernel,
    }
}

#[test]
fn test_write_read_roundtrip() {
    let original = sample_svm(Kernel::Linear);
    let mut buf = Vec::new();
    original.write_to(&mut buf);
    let (loaded, end) = SVM::read_from(&buf, 0).unwrap();

    assert_eq!(end, buf.len());
    assert_eq!(original.n_support_vectors(), loaded.n_support_vectors());
    assert_eq!(original.support_vectors.data, loaded.support_vectors.data);
    assert_eq!(original.sv_weights, loaded.sv_weights);
    assert!((f32::from_bits(original.bias) - f32::from_bits(loaded.bias)).abs() < 1e-6);
    assert!(matches!(loaded.kernel, Kernel::Linear));
}

#[test]
fn svm_rbf_kernel_keeps_gamma() {
    let original = sample_svm(Kernel::Rbf { gamma: 0.5f32.to_bits() });
    let mut buf = vec![9u8, 9];
    original.write_to(&mut buf);
    assert_eq!(&buf[0..2], &[9, 9]);
    let (loaded, end) = SVM::read_from(&buf, 2).unwrap();
    assert_eq!(end, buf.len());
    match loaded.kernel {
        Kernel::Rbf { gamma } => assert_eq!(f32::from_bits(gamma), 0.5),
        Kernel::Linear => panic!("kernel changed"),
    }
}

#[test]
fn svm_unknown_kernel_tag_is_refused() {
    let mut buf = Vec::new();
    sample_svm(Kernel::Linear).write_to(&mut buf);
    buf[0] = 7;
    assert!(matches!(SVM::read_from(&buf, 0), Err(DecodeError::UnknownKernel(7))));
}

#[test]
fn svm_read_past_end_is_truncated() {
    let mut buf = Vec::new();
    sample_svm(Kernel::Linear).write_to(&mut buf);
    assert!(matches!(SVM::read_from(&buf, buf.len()), Err(DecodeError::Truncated)));
    assert!(matches!(SVM::read_from(&buf[..buf.len() - 1], 0), Err(DecodeError::Truncated)));
}

fn sample_multiclass() -> MulticlassSVM<u32> {
    MulticlassSVM {
        classifiers: vec![
            sample_svm(Kernel::Linear),
            sample_svm(Kernel::Rbf { gamma: 2.0f32.to_bits() }),
            sample_svm(Kernel::Linear),
        ],
    }
}

#[test]
fn multiclass_test_save_and_load_roundtrip() {
    let original = sample_multiclass();
    let loaded = MulticlassSVM::from_bytes(&original.to_bytes()).expect("load failed");
    assert_eq!(original.classifiers.len(), loaded.classifiers.len());
    for (a, b) in original.classifiers.iter().zip(loaded.classifiers.iter()) {
        assert_eq!(a.support_vectors.data, b.support_vectors.data);
        assert_eq!(a.sv_weights, b.sv_weights);
        assert_eq!(a.bias, b.bias);
    }
    assert!(matches!(loaded.classifiers[1].kernel, Kernel::Rbf { .. }));
}

#[test]
fn multiclass_test_load_bad_magic_fails() {
    assert!(MulticlassSVM::from_bytes(b"NOTASVM").is_err());
}

#[test]
fn multiclass_header_and_version() {
    let mut bytes = sample_multiclass().to_bytes();
    assert_eq!(&bytes[0..4], b"SVM1");
    assert_eq!(&bytes[8..12], &[3, 0, 0, 0]);
    bytes[4] = 0;
    assert!(matches!(MulticlassSVM::from_bytes(&bytes), Err(DecodeError::UnsupportedVersion(0))));
}

fn perceptron(lr: f32, bias: f32, w: &[f32]) -> Rosenblatt<u32> {
    Rosenblatt {
        learning_rate: lr.to_bits(),
        weights: Matrix::from_vec(bits(w), 1, w.len()),
        bias: bias.to_bits(),
    }
}

fn sample_classifier() -> RosenblattClassifier<u32> {
    RosenblattClassifier {
        cat: perceptron(0.1, 1.0, &[0.1, 0.2, 0.3]),
        lion: perceptron(0.2, -1.0, &[0.4, 0.5, 0.6]),
        cheetah: perceptron(0.3, 0.5, &[0.7, 0.8, 0.9]),
    }
}

#[test]
fn perceptron_classifier_roundtrip_swaps_last_two_seeds() {
    let original = sample_classifier();
    let bytes = original.to_bytes([11, 22, 33]);
    let (loaded, seeds) = RosenblattClassifier::from_bytes(&bytes).unwrap();
    assert_eq!(seeds, [11, 33, 22]);
    assert_eq!(loaded.cat.weights.data, original.cat.weights.data);
    assert_eq!(loaded.lion.weights.data, original.lion.weights.data);
    assert_eq!(loaded.cheetah.weights.data, original.cheetah.weights.data);
    assert_eq!(loaded.lion.bias, original.lion.bias);
    assert_eq!(loaded.cheetah.learning_rate, original.cheetah.learning_rate);
}

#[test]
fn perceptron_classifier_stores_cat_cheetah_lion() {
    let bytes = sample_classifier().to_bytes([1, 2, 3]);
    assert_eq!(&bytes[0..4], b"RBLC");
    assert_eq!(&bytes[8..16], &1u64.to_le_bytes());
    assert_eq!(&bytes[16..20], &0.1f32.to_le_bytes());
    // each perceptron: seed 8, rate 4, bias 4, rows 4, cols 4, three weights 12
    let second = 8 + 36;
    assert_eq!(&bytes[second..second + 8], &2u64.to_le_bytes());
    assert_eq!(&bytes[second + 8..second + 12], &0.3f32.to_le_bytes());
    assert_eq!(bytes.len(), 8 + 3 * 36);
}

#[test]
fn perceptron_classifier_bad_magic_and_truncation() {
    assert!(matches!(RosenblattClassifier::from_bytes(b"RBLX\x01\0\0\0"), Err(DecodeError::BadMagic(_))));
    let bytes = sample_classifier().to_bytes([1, 2, 3]);
    assert!(matches!(RosenblattClassifier::from_bytes(&bytes[..bytes.len() - 2]), Err(DecodeError::Truncated)));
}

#[test]
fn binary_labels_mark_one_class() {
    let y = vec![0, 1, 2, 1, 0];
    assert_eq!(Rosenblatt::<f32>::to_binary_labels(&y, 1), vec![-1, 1, -1, 1, -1]);
    assert_eq!(Rosenblatt::<f32>::to_binary_labels(&y, 5), vec![-1; 5]);
    assert!(Rosenblatt::<f32>::to_binary_labels(&vec![], 0).is_empty());
}

#[test]
fn perceptron_bias_column_and_rows() {
    let mut p = Rosenblatt { learning_rate: 0.1f32, weights: Matrix::from_vec(vec![0.0; 3], 1, 3), bias: 1.0 };
    let x = Matrix::from_vec(vec![2.0f32, 3.0, 4.0, 5.0], 2, 2);
    let xb = p.add_bias_column(&x);
    assert_eq!(xb.rows, 2);
    assert_eq!(xb.cols, 3);
    assert_eq!(xb.data, vec![1.0, 2.0, 3.0, 1.0, 4.0, 5.0]);
    let row = Rosenblatt::get_xk(&xb, 1);
    assert_eq!((row.rows, row.cols), (1, 3));
    assert_eq!(row.data, vec![1.0, 4.0, 5.0]);
    assert_eq!(p.get_bias(), 1.0);
    assert_eq!(p.get_learning_rate(), 0.1);
    assert_eq!(p.get_weight().cols, 3);
}

#[test]
fn regression_starts_with_zero_weights() {
    let mut r: Regression<f32> = Regression::new(4);
    let w = r.get_weight();
    assert_eq!((w.rows, w.cols), (1, 5));
    assert!(w.data.iter().all(|&v| v == 0.0));
}

#[test]
fn regression_bias_column_and_rows() {
    let mut r: Regression<f32> = Regression::new(2);
    let x = Matrix::from_vec(vec![7.0f32, 8.0, 9.0, 10.0, 11.0, 12.0], 3, 2);
    let xb = r.add_bias_column(&x, 1.0);
    assert_eq!(xb.data, vec![1.0, 7.0, 8.0, 1.0, 9.0, 10.0, 1.0, 11.0, 12.0]);
    let row = Regression::get_xk_regression(&xb, 2);
    assert_eq!(row.data, vec![1.0, 11.0, 12.0]);
    let empty = Matrix::from_vec(Vec::<f32>::new(), 0, 0);
    let none = Regression::get_xk_regression(&empty, 0);
    assert_eq!((none.rows, none.cols), (1, 0));
}
