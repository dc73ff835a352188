//! Access to the tag-association source, which is tab-delimited tabular
//! text with quoted and escaped fields tolerated. The field splitting is
//! done by the csv crate; everything downstream of the returned records is
//! verified.

use vstd::prelude::*;

verus! {

/// The well-formed records of tab-delimited tabular text, each a sequence
/// of fields, under the csv crate's quoting and escaping rules. The result
/// depends on the text alone.
pub uninterp spec fn tab_records_of(s: Seq<char>) -> Seq<Seq<Seq<char>>>;

/// Relies on csv::ReaderBuilder / csv::Reader::records with a tab
/// delimiter and no header row: yields the well-formed records of the
/// text, skipping rows the reader reports as errors; an empty text has no
/// records.
#[verifier::external_body]
pub fn read_tab_records(data: &str) -> (r: Vec<Vec<String>>)
    ensures
        r.deep_view() == tab_records_of(data@),
        data@.len() == 0 ==> r@.len() == 0,
{
    let rdr = csv::ReaderBuilder::new().delimiter(b'\t').has_headers(false).from_reader(
        data.as_bytes(),
    );
    rdr.into_records().filter_map(|row| row.ok()).map(
        |rec| rec.iter().map(|f| f.to_string()).collect(),
    ).collect()
}

} // verus!
