use vstd::prelude::*;
use crate::ports::DataRepository;
use crate::ports::ExtractionError;
pub use crate::ports::MarkdownWriter;

verus! {

/// The orchestrator: it fetches the records exactly once, hands them to the
/// document sink, and returns success or the first failure.
pub struct ExtractionServiceImpl<R: DataRepository, W: MarkdownWriter> {
    data_repository: R,
    markdown_writer: W,
}

impl<R: DataRepository, W: MarkdownWriter> ExtractionServiceImpl<R, W> {
    /// The injected record source.
    pub closed spec fn repository(&self) -> R {
        self.data_repository
    }

    /// The injected document sink.
    pub closed spec fn writer(&self) -> W {
        self.markdown_writer
    }

    /// A service over exactly the given record source and document sink.
    pub fn new(data_repository: R, markdown_writer: W) -> (s: Self)
        ensures
            s.repository() == data_repository,
            s.writer() == markdown_writer,
    {
        Self { data_repository, markdown_writer }
    }

    /// Runs the pipeline once: fetch, then write. A fetch error aborts the
    /// run before anything is written; either error is returned unmodified.
    pub fn execute_extraction(&self) -> Result<(), ExtractionError> {
        match self.data_repository.fetch_all_records() {
            Ok(records) => self.markdown_writer.write(&records),
            Err(e) => Err(e),
        }
    }
}

} // verus!
