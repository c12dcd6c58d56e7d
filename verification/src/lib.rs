//! A single-file, append-only key-value segment: data records, an index
//! snapshot and an eight-byte footer laid out in one growable byte region.
//!
//! Every write appends three things: the record `key ':' value`, a
//! snapshot of the whole index with the new entry in it, and a footer
//! that points at that snapshot. Older snapshots and footers stay where
//! they are and are never read again. A read starts at the last eight
//! bytes and goes backward from there.

pub mod error;
pub mod footer;
pub mod index;
pub mod laws;
pub mod record;
pub mod region;
pub mod segment;
pub mod snapshot;

pub use error::SegmentError;
pub use footer::{Footer, FOOTER_SIZE};
pub use index::{IndexBlock, IndexData};
pub use record::{encode_record, is_valid_key, DELIMITER};
pub use region::MappedRegion;
pub use segment::Segment;
