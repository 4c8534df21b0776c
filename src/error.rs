use vstd::prelude::*;

verus! {

/// Everything that can stop a reconstruction run.
#[derive(Debug, PartialEq, Eq)]
pub enum PipelineError {
    /// No ordering key could be read from this file name.
    MalformedFilename { name: String },
    /// Two file names carry the same ordering key; `names` holds both, in input order.
    DuplicateKey { key: u32, names: Vec<String> },
    /// A segment could not be opened.
    SegmentOpenFailed { name: String, cause: String },
    /// A segment is not a valid gzip stream.
    DecompressionFailed { name: String, cause: String },
    /// Writing to or flushing the output failed.
    SinkIOFailed { cause: String },
}

} // verus!
