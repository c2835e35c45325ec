//! A small log-structured key-value store for a todo list: an append-only
//! change log of operations replayed over a periodically compacted checkpoint.
//!
//! The library works on the contents of the two files; reading and writing
//! them is left to the caller.
pub mod checkpoint;
pub mod database;
pub mod error;
pub mod record;
pub mod text;

pub use checkpoint::{format_checkpoint, parse_checkpoint, read_checkpoint_ids, sorted_keys};
pub use database::{largest, next_id_after, read_change_records, replay, Database};
pub use error::{DatabaseError, ErrorKind};
pub use text::parse_id;
pub use record::{format_record, parse_line, Operation, Record};
