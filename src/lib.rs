//! Batch ingestion of delimited tabular text: rows are decoded against a
//! header, grouped into fixed-size batches, transformed batch by batch and
//! gathered into one aggregate.
pub mod aggregate;
pub mod batch;
pub mod pipeline;
pub mod record;
pub mod source;

pub use aggregate::{transform_batch, Aggregator};
pub use batch::Batcher;
pub use pipeline::{check_header, ingest_rows, is_valid_name, process_rows, IngestError};
pub use record::{decode, parse_u64, DecodeError, Field, Record};
pub use source::{process_csv, read_csv_in_batches};
