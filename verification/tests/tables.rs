use felidae_classifier::models::rbfn::centers::kmeans_initial_indices;
use felidae_classifier::tabular::read_table;

#[test]
fn read_table_splits_on_semicolons() {
    let (header, rows) = read_table(b"name;weight\ncat;4\nlion;190\n").unwrap();
    assert_eq!(header, vec!["name", "weight"]);
    assert_eq!(rows, vec![vec!["cat", "4"], vec!["lion", "190"]]);
}

#[test]
fn read_table_keeps_commas_and_quotes() {
    let (header, rows) = read_table(b"a;b\n\"x;y\";1,5\n").unwrap();
    assert_eq!(header, vec!["a", "b"]);
    assert_eq!(rows, vec![vec!["x;y", "1,5"]]);
}

#[test]
fn read_table_refuses_ragged_rows_and_bad_utf8() {
    assert!(read_table(b"a;b\n1;2;3\n").is_none());
    assert!(read_table(b"a;b\n\xff\xfe;1\n").is_none());
}

#[test]
fn read_table_of_empty_input() {
    let (header, rows) = read_table(b"").unwrap();
    assert!(header.is_empty());
    assert!(rows.is_empty());
}

#[test]
fn kmeans_starts_are_evenly_spaced_and_shifted() {
    assert_eq!(kmeans_initial_indices(10, 3, 0), vec![0, 3, 6]);
    assert_eq!(kmeans_initial_indices(10, 3, 5), vec![5, 8, 1]);
    assert_eq!(kmeans_initial_indices(4, 6, 1), vec![1, 1, 1, 1, 1, 1]);
    assert!(kmeans_initial_indices(0, 0, 9).is_empty());
}
