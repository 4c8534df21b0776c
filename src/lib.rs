pub mod error;
pub mod gzip;
pub mod order;
pub mod pipeline;

pub use error::PipelineError;
pub use order::{key_of_name, sort_files};
pub use pipeline::{Action, Event, Phase, Pipeline};
pub use gzip::{decompress_into, SegmentDecoder};
