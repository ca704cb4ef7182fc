//! A persistent, networked key/value store, verified with Verus.
//!
//! The crate models a log-structured storage engine: an append-only command
//! log kept as numbered generation files, an in-memory index from keys to
//! record locations, crash-safe recovery by replaying the log, and online
//! compaction. Around the engine sit a self-delimiting record codec, a
//! line-of-records wire protocol, a server that dispatches requests against
//! any storage engine, and the supervision rule of a panic-tolerant worker
//! pool. Log file contents are held as in-memory buffers here; a thin
//! unverified shell maps them onto real files and sockets.
//!
//! The statements the crate proves centre on one definition: replaying a
//! log (see [`kv::replay`]) fixes what a store means. Recovery recovers
//! exactly the replayed mapping ([`kv::lemma_recovery_exact`]), reads
//! see writes ([`kv::lemma_read_your_writes`]), compaction changes only
//! the representation (the contract of [`kv::KvStore::compact`]), and
//! every record and wire message reads back as the one that was written
//! (the decoder contracts in [`codec`] and [`common`]).

pub mod codec;
pub mod command;
pub mod common;
pub mod error;
pub mod index;
pub mod kv;
pub mod log_io;
pub mod pool;
pub mod server;

pub use command::Command;
pub use error::KvsError;
pub use index::CommandPos;
pub use log_io::BufReaderWithPos;
pub use log_io::BufWriterWithPos;
pub use common::GetResponse;
pub use common::RemoveResponse;
pub use common::Request;
pub use common::Response;
pub use common::SetResponse;
pub use kv::KvStore;
pub use server::KvsEngine;
pub use server::KvsServer;
