use vstd::prelude::*;

verus! {

/// Classified failures of the reader and the writer.
///
/// `StreamComplete` is the clean end of the pull sequence, not a true
/// failure: the reader's `next` maps it to `None`.
#[derive(Debug, PartialEq, Eq)]
pub enum Error {
    /// Any error with a caller-supplied description.
    Custom(String),
    /// The source bytes were not valid UTF-8.
    InvalidUtf8,
    /// Normal completion of the pull sequence.
    StreamComplete,
    /// The source ran dry while a record was only partially accumulated.
    UnexpectedEof,
    /// Headers were requested after at least one row was already written.
    WriteHeadersAfterRecords,
    /// The grammar rejected the accumulated buffer.
    Malformed,
}

impl Error {
    /// Wrap a caller-supplied description.
    pub fn custom(val: String) -> (r: Error)
        ensures
            r == Error::Custom(val),
    {
        Error::Custom(val)
    }
}

} // verus!
