//! An embedded, log-structured row store with snapshot-isolated scans and a
//! pull-based operator pipeline.
pub mod field;
pub mod varint;
pub mod utf8;
pub mod entry_fields;
pub mod field_codec;
pub mod errors;
pub mod log_entry;
pub mod log_file;
pub mod mvcc;
pub mod operators;
pub mod statistics;
pub mod collection;
pub mod compaction;
pub mod deserializer;
pub mod laws;
pub mod layout;

pub use collection::{Collection, TableScan, MAX_TRANSACTION};
pub use deserializer::ObjectDeserializer;
pub use entry_fields::EntryFields;
pub use errors::{DBResult, DatabaseError};
pub use field::{FieldType, ObjectField};
pub use log_entry::{LogEntry, Row};
pub use operators::{DBOperator, collect};
pub use operators::joining::{HashMatch, NestedLoop};
pub use operators::linear::{Filter, Skip, Take};
pub use operators::select::{Select, SelectBuilder};
pub use operators::sorting::{InMemorySort, SortDirection};
