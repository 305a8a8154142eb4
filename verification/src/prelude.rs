//! Everything that a typical embedder needs in one place: the engine and its
//! configuration for the main loop, the value types and traits for a store of
//! one's own, and [`MockDb`] for tests.

pub use crate::api::{FluxEngine, SubmitOutcome};
pub use crate::config::FluxConfig;
pub use crate::domain::{
    Cache, Lsn, PersistenceStore, PlayerId, PlayerState, Queue, WalRecord, WriteAheadLog,
    WriteRequest,
};
pub use crate::error::{DecodeError, FluxError, StoreError};
pub use crate::metrics::{Metrics, MetricsSnapshot};
pub use crate::store::MockDb;
