use vstd::prelude::*;
use crate::pipeline::{
    ingest_rows, ingest_spec, ingest_view, process_rows, process_spec, records_outcome, rows_view,
    IngestError,
};
use crate::record::Record;

verus! {

/// The rows, each a list of fields, that the csv reader reads from a text;
/// `None` where it rejects the text.
pub uninterp spec fn csv_rows_of(input: Seq<u8>) -> Option<Seq<Seq<Seq<char>>>>;

#[verifier::external_type_specification]
#[verifier::external_body]
pub struct ExCsvError(csv::Error);

/// Relies on csv's `ReaderBuilder` (no header row, rows of any length) and
/// `Reader::records`: every line of the text read as one row of fields, or
/// the reader's first error.
#[verifier::external_body]
fn parse_rows(input: &[u8]) -> (r: Result<Vec<Vec<String>>, csv::Error>)
    ensures
        match r {
            Ok(rows) => csv_rows_of(input@) == Some(rows_view(rows@)),
            Err(_) => csv_rows_of(input@) is None,
        },
{
    let mut rdr = csv::ReaderBuilder::new().has_headers(false).flexible(true).from_reader(input);
    rdr.records().map(|rec| rec.map(|fields| fields.iter().map(String::from).collect())).collect()
}

/// Reads a delimited text whose first line is the header and cuts its
/// records, in source order, into batches of `batch_size`.
pub fn read_csv_in_batches(input: &[u8], batch_size: usize) -> (r: Result<Vec<Vec<Record>>, IngestError>)
    requires
        batch_size > 0,
    ensures
        match csv_rows_of(input@) {
            None => r == Err::<Vec<Vec<Record>>, IngestError>(IngestError::Malformed),
            Some(rv) => ingest_spec(rv, batch_size as nat, ingest_view(r)),
        },
{
    match parse_rows(input) {
        Ok(rows) => ingest_rows(&rows, batch_size),
        Err(_) => Err(IngestError::Malformed),
    }
}

/// A whole run over a delimited text: the records of all data rows, in
/// source order, each marked as processed.
pub fn process_csv(input: &[u8], batch_size: usize) -> (r: Result<Vec<Record>, IngestError>)
    requires
        batch_size > 0,
    ensures
        match csv_rows_of(input@) {
            None => r == Err::<Vec<Record>, IngestError>(IngestError::Malformed),
            Some(rv) => process_spec(rv, records_outcome(r)),
        },
{
    match parse_rows(input) {
        Ok(rows) => process_rows(&rows, batch_size),
        Err(_) => Err(IngestError::Malformed),
    }
}

} // verus!
