//! A key-value storage engine: an append-only log with a rebuildable key
//! directory, and a multi-version concurrency control layer with
//! snapshot-isolated transactions over any ordered key-value store.
//!
//! - `log`: the log's entry framing, replaying it into a `KeyDir`, and the
//!   laws of appending and rebuilding.
//! - `engine`, `memory`: the ordered key-value capability and a store in memory.
//! - `keys`: the five key namespaces of the transaction layer.
//! - `txn`, `mvcc`: transactions and the engine facade.
//! - `page`, `frame`, `header`, `record`, `table`, `value`, `sql`: the
//!   page-oriented table layer and parsed-statement nodes.
//! - `bytes`, `ordmap`, `text`: byte order, an ordered byte-keyed map, and
//!   decimal text.
pub mod bytes;
pub mod engine;
pub mod error;
pub mod frame;
pub mod header;
pub mod keys;
pub mod log;
pub mod memory;
pub mod mvcc;
pub mod ordmap;
pub mod page;
pub mod record;
pub mod sql;
pub mod table;
pub mod text;
pub mod txn;
pub mod value;
