use vstd::prelude::*;
use crate::domain::ExtractedRecord;

verus! {

/// A fatal pipeline error: a fetch or write failure, with its detail.
#[derive(Debug)]
pub struct ExtractionError {
    pub message: String,
}

/// The record source: one operation, fetching the full record set, ordered
/// by original timestamp ascending, or a fetch error. Implementations are
/// injected at the orchestration boundary; nothing is promised of what they
/// return.
pub trait DataRepository {
    fn fetch_all_records(&self) -> Result<Vec<ExtractedRecord>, ExtractionError>;
}

/// The document sink: persists the record set's rendered documents, or
/// reports the first write failure.
pub trait MarkdownWriter {
    fn write(&self, records: &Vec<ExtractedRecord>) -> Result<(), ExtractionError>;
}

} // verus!
