//! Tab-separated text, read by the `csv` crate.

use vstd::prelude::*;

verus! {

/// `csv::Error`, the reader's account of a failure. It is handed on as it comes, and
/// nothing is known of what it holds.
#[verifier::external_type_specification]
#[verifier::external_body]
pub struct ExCsvError(csv::Error);

/// What the `csv` reader makes of the bytes `data` when it takes the tab as the delimiter
/// and is otherwise left as `csv::ReaderBuilder` makes it: the records, each a list of
/// fields, that it yields before it comes to the end or to its first failure (without the
/// first record of the data where `has_headers` is set), and whether it stopped on a
/// failure.
pub uninterp spec fn tsv_rows(data: Seq<u8>, has_headers: bool) -> (Seq<Seq<Seq<char>>>, bool);

/// Reads `data` as tab-separated text: `csv::ReaderBuilder::new`, with `delimiter` and
/// `has_headers` set, `from_reader` on the bytes, and `Reader::records` followed to the
/// end or to its first error. Not proved: that the rows returned, and whether an error
/// came with them, are what [`tsv_rows`] names for these arguments, which says no more
/// than that the reader gives the same answer whenever it is handed the same bytes.
#[verifier::external_body]
pub(crate) fn tsv_records(data: &[u8], has_headers: bool) -> (read: (
    Vec<Vec<String>>,
    Option<csv::Error>,
))
    ensures
        read.0.deep_view() == tsv_rows(data@, has_headers).0,
        (read.1 is Some) == tsv_rows(data@, has_headers).1,
{
    let mut reader =
        csv::ReaderBuilder::new().delimiter(b'\t').has_headers(has_headers).from_reader(data);
    let mut rows: Vec<Vec<String>> = Vec::new();
    for record in reader.records() {
        match record {
            Ok(fields) => rows.push(fields.iter().map(String::from).collect()),
            Err(error) => return (rows, Some(error)),
        }
    }
    (rows, None)
}

/// The message of a `csv::Error`, as its `Display` writes it. Nothing is claimed of it.
#[verifier::external_body]
pub(crate) fn csv_error_text(error: &csv::Error) -> String {
    error.to_string()
}

} // verus!
