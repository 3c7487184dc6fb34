use felidae_classifier::tensor::Matrix;

#[test]
fn test_zeros() {
    let m: Matrix<f32> = Matrix::zeros(2, 3);
    assert_eq!(m.data.len(), 6);
    for i in 0..m.data.len() {
        assert_eq!(m.data[i], 0.0);
    }
}

#[test]
fn test_transpose() {
    let a = Matrix::from_vec(vec![1.0f32, 2.0, 3.0, 4.0, 5.0, 6.0], 2, 3);
    let t = a.transpose();
    assert_eq!(t.rows, 3);
    assert_eq!(t.cols, 2);
    assert_eq!(t.get(0, 1), 4.0);
}

#[test]
fn transpose_moves_every_element() {
    let a = Matrix::from_vec(vec![1u32, 2, 3, 4, 5, 6], 2, 3);
    let t = a.transpose();
    assert_eq!(t.data, vec![1, 4, 2, 5, 3, 6]);
    let back = t.transpose();
    assert_eq!(back.rows, 2);
    assert_eq!(back.cols, 3);
    assert_eq!(back.data, a.data);
}

#[test]
fn transpose_of_empty_matrix() {
    let a: Matrix<u32> = Matrix::from_vec(vec![], 0, 4);
    let t = a.transpose();
    assert_eq!(t.rows, 4);
    assert_eq!(t.cols, 0);
    assert!(t.data.is_empty());
}

#[test]
fn get_and_set_use_row_major_layout() {
    let mut m = Matrix::from_vec(vec![0i32; 6], 2, 3);
    m.set(1, 2, 7);
    m.set(0, 1, -3);
    assert_eq!(m.data, vec![0, -3, 0, 0, 0, 7]);
    assert_eq!(m.get(1, 2), 7);
    assert_eq!(m.get(0, 1), -3);
    assert_eq!(m.rows, 2);
    assert_eq!(m.cols, 3);
}

#[test]
fn map_applies_function_to_every_element() {
    let m = Matrix::from_vec(vec![1.0f32, -2.0, 3.5, 0.0], 2, 2);
    let doubled = m.map(|v| v * 2.0);
    assert_eq!(doubled.rows, 2);
    assert_eq!(doubled.cols, 2);
    assert_eq!(doubled.data, vec![2.0, -4.0, 7.0, 0.0]);
}
