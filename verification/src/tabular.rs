//! Tables read from delimited text files.
use vstd::prelude::*;
use csv::ReaderBuilder;

verus! {

/// A table: its column names and, once read, its rows of integers.
pub struct DataSet {
    header: Vec<String>,
    data: Option<Vec<Vec<i32>>>,
}

/// The header and the records that the `csv` crate reads from `bytes` with
/// the given field delimiter (first line as header, `"` quoting, every record
/// as long as the header); `None` when the bytes are not such a table (for
/// instance not UTF-8, or a record of another length).
pub uninterp spec fn csv_table(bytes: Seq<u8>, delimiter: u8) -> Option<(Seq<Seq<char>>, Seq<Seq<Seq<char>>>)>;

/// The contents of a row of strings.
pub open spec fn row_view(row: Vec<String>) -> Seq<Seq<char>> {
    row@.map_values(|s: String| s@)
}

/// The contents of a table of strings.
pub open spec fn table_view(header: Vec<String>, rows: Vec<Vec<String>>) -> (Seq<Seq<char>>, Seq<Seq<Seq<char>>>) {
    (row_view(header), rows@.map_values(|r: Vec<String>| row_view(r)))
}

/// `csv::ReaderBuilder` (csv) with the given delimiter, reading from `bytes`:
/// `headers`, then every record of `records`, each field taken as a string.
/// Stated: the result is the named table, and `None` exactly when the crate
/// reports an error for the header or for a record. The parsing itself is left
/// to the name.
#[verifier::external_body]
fn parse_csv(bytes: &[u8], delimiter: u8) -> (r: Option<(Vec<String>, Vec<Vec<String>>)>)
    ensures
        r is Some <==> csv_table(bytes@, delimiter) is Some,
        r matches Some((h, rows)) ==> csv_table(bytes@, delimiter) == Some(table_view(h, rows)),
{
    let mut reader = ReaderBuilder::new().delimiter(delimiter).from_reader(bytes);
    let header: Vec<String> = match reader.headers() {
        Ok(h) => h.iter().map(String::from).collect(),
        Err(_) => return None,
    };
    let mut rows: Vec<Vec<String>> = Vec::new();
    for record in reader.records() {
        match record {
            Ok(r) => rows.push(r.iter().map(String::from).collect()),
            Err(_) => return None,
        }
    }
    Some((header, rows))
}

/// The header and records of a semicolon-separated table whose file contents
/// are `bytes`; `None` when the bytes are not such a table. Reading the file
/// is the caller's.
pub fn read_table(bytes: &[u8]) -> (r: Option<(Vec<String>, Vec<Vec<String>>)>)
    ensures
        r is Some <==> csv_table(bytes@, 0x3Bu8) is Some,
        r matches Some((h, rows)) ==> csv_table(bytes@, 0x3Bu8) == Some(table_view(h, rows)),
{
    parse_csv(bytes, 0x3Bu8)
}

} // verus!
