//! A crash-safe, write-behind persistence pipeline that isolates a
//! latency-sensitive main loop from a slow durable backend.
//!
//! ```text
//!   submit -> ring -> cache -> write-ahead log -> store
//! ```
//!
//! Writes travel through a bounded ring into a coalescing cache, are logged in
//! a write-ahead log and only then handed to the store. This crate holds the
//! sequential logic of every stage, with its contract proved; threads, files
//! and sleeping belong to the program around it.
//!
//! * [`api`]: the engine that the main loop talks to;
//! * [`ring`]: the bounded ring;
//! * [`cache`]: last-write-wins coalescing and dirty tracking;
//! * [`worker`] and [`flush`]: the decisions of the flush worker, and a batch on
//!   its way through the log into the store;
//! * [`wal`], [`segment`] and [`disk`]: the write-ahead log, its file, and what a
//!   crash may leave of it;
//! * [`lsn`]: log sequence numbers and how far a checkpoint may go;
//! * [`store`]: an in-memory store with faults on demand;
//! * [`laws`], [`journal`], [`protocol`] and [`calls`]: what holds of the pipeline
//!   as a whole, of the log over an engine's lives, and of the ring under many
//!   threads.

pub mod api;
pub mod bytes;
pub mod cache;
pub mod calls;
pub mod config;
pub mod crc;
pub mod disk;
pub mod domain;
pub mod error;
pub mod flush;
pub mod journal;
pub mod journal_steps;
pub mod laws;
pub mod lsn;
pub mod metrics;
pub mod prelude;
pub mod protocol;
pub mod ring;
pub mod segment;
pub mod store;
pub mod time;
pub mod wal;
pub mod worker;

pub use api::{FluxEngine, SubmitOutcome};
pub use config::FluxConfig;
pub use domain::{
    Cache, Lsn, PersistenceStore, PlayerId, PlayerState, Queue, WalRecord, WriteAheadLog,
    WriteRequest,
};
pub use error::{DecodeError, FluxError, StoreError};
pub use metrics::{Metrics, MetricsSnapshot};
pub use store::MockDb;
