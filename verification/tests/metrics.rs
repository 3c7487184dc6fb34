use felidae_classifier::training::metrics::{confusion_column_widths, confusion_matrix};

#[test]
fn test_perfect_predictions() {
    let labels = vec![0, 1, 2, 0, 1, 2];
    let predictions = vec![0, 1, 2, 0, 1, 2];
    let matrix = confusion_matrix(&predictions, &labels, 3);

    assert_eq!(matrix[0][0], 2);
    assert_eq!(matrix[1][1], 2);
    assert_eq!(matrix[2][2], 2);

    for i in 0..3 {
        for j in 0..3 {
            if i != j {
                assert_eq!(matrix[i][j], 0);
            }
        }
    }
}

#[test]
fn test_all_wrong_predictions() {
    let labels = vec![0, 1, 2];
    let predictions = vec![1, 2, 0];
    let matrix = confusion_matrix(&predictions, &labels, 3);

    assert_eq!(matrix[0][0], 0);
    assert_eq!(matrix[1][1], 0);
    assert_eq!(matrix[2][2], 0);

    assert_eq!(matrix[0][1], 1);
    assert_eq!(matrix[1][2], 1);
    assert_eq!(matrix[2][0], 1);
}

#[test]
fn test_row_sums_match_label_counts() {
    let labels = vec![0, 0, 0, 1, 1, 2];
    let predictions = vec![0, 1, 2, 1, 0, 2];
    let matrix = confusion_matrix(&predictions, &labels, 3);

    let mut row_0 = 0;
    for v in &matrix[0] {
        row_0 += v;
    }
    assert_eq!(row_0, 3);

    let mut row_1 = 0;
    for v in &matrix[1] {
        row_1 += v;
    }
    assert_eq!(row_1, 2);

    let mut row_2 = 0;
    for v in &matrix[2] {
        row_2 += v;
    }
    assert_eq!(row_2, 1);
}

#[test]
fn test_dimensions() {
    let labels = vec![0, 1, 2, 3, 4];
    let predictions = vec![0, 1, 2, 3, 4];
    let matrix = confusion_matrix(&predictions, &labels, 5);

    assert_eq!(matrix.len(), 5);
    for row in &matrix {
        assert_eq!(row.len(), 5);
    }
}

#[test]
fn confusion_skips_out_of_range_labels() {
    let labels = vec![0, 3, 1, 1];
    let predictions = vec![0, 0, 7, 0];
    let matrix = confusion_matrix(&predictions, &labels, 2);
    assert_eq!(matrix, vec![vec![1, 0], vec![1, 0]]);
}

#[test]
fn confusion_row_sum_counts_only_in_range_predictions() {
    let labels = vec![1, 1, 1, 0];
    let predictions = vec![1, 5, 0, 0];
    let matrix = confusion_matrix(&predictions, &labels, 2);
    let row_1: usize = matrix[1].iter().sum();
    assert_eq!(row_1, 2);
}

#[test]
fn confusion_of_no_class_is_empty() {
    let matrix = confusion_matrix(&[0, 1], &[1, 0], 0);
    assert!(matrix.is_empty());
}

#[test]
fn column_widths_follow_names_and_counts() {
    let names: Vec<String> = vec!["cat".into(), "cheetah".into(), "lion".into()];
    let m = vec![vec![3, 0, 1], vec![0, 12, 0], vec![2, 0, 7]];
    // longest name "cheetah" (7 bytes) + 5; the largest count has 2 digits
    assert_eq!(confusion_column_widths(&m, &names), (12, 12));
}

#[test]
fn column_widths_grow_for_large_counts() {
    let names: Vec<String> = vec!["a".into(), "b".into()];
    let m = vec![vec![1234567, 0], vec![0, 1]];
    assert_eq!(confusion_column_widths(&m, &names), (6, 9));
}

#[test]
fn column_widths_without_classes() {
    let names: Vec<String> = vec![];
    let m: Vec<Vec<usize>> = vec![];
    assert_eq!(confusion_column_widths(&m, &names), (5, 3));
}

#[test]
fn column_widths_count_bytes_of_names() {
    let names: Vec<String> = vec!["guépard".into()];
    let m = vec![vec![0]];
    assert_eq!(confusion_column_widths(&m, &names), (13, 13));
}
