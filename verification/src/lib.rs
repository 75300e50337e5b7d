//! Storage and routing core of a sharded, replicated key-value cluster.
//!
//! The crate has two halves. The storage half builds and reads immutable
//! sorted tables: records are packed into blocks, blocks are indexed by a
//! second block, and a fixed-size footer points at the index. The routing
//! half keeps a client-side picture of which replica group owns which shard,
//! reconciled from descriptor events that may arrive out of order.
//!
//! Around the two stand the smaller rules of a node: how internal keys are
//! laid out and ordered, when a write has reached a majority, how a request
//! is served again after a refusal, how leaders are spread over nodes, and
//! how the key space grows.
//!
//! Nothing here waits, locks, or touches a file or a socket. Files come in
//! through the two traits of [`file_system`]; everything else is handed in
//! and out as plain values.

pub mod balance;
pub mod block;
pub mod buffer;
pub mod checksum;
pub mod cmd;
pub mod codec;
pub mod descriptor;
pub mod entry;
pub mod error;
pub mod file_system;
pub mod gc;
pub mod iterator;
pub mod key_order;
pub mod key_space;
pub mod lex;
pub mod objects;
pub mod quorum;
pub mod retry;
pub mod router;
pub mod sstable;
pub mod table;
pub mod table_laws;
pub mod text;
pub mod two_level_iterator;
pub mod vecs;
