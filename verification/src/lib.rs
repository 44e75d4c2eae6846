//! Delimiter-separated text records (CSV-family) over in-memory byte
//! buffers.
//!
//! The reader turns a UTF-8 byte buffer into a pull-based sequence of
//! records, decoding quoted fields and quote-doubling, and reassembling
//! logical records that span several physical lines. The writer is its
//! inverse: it escapes fields and joins them with a configurable separator
//! and line terminator. The grammar and the escaping rule are specified
//! over sequences of characters, and serializing then parsing a record is
//! proved to give the record back.

mod error;
mod laws;
mod parse;
mod reader;
mod text;
mod writer;

pub use error::Error;
pub use laws::{lemma_pull_round_trip, lemma_round_trip, lemma_unescape_escape};
pub use parse::{record, RecordResult};
pub use reader::{Config as CsvReaderConfig, CsvReader};
pub use writer::{Config as CsvWriterConfig, CsvWriter, NewLine};
