//! Tunable configuration of an engine.

use crate::time::Span;
use vstd::prelude::*;

verus! {

/// A path of the file system, carried through as an opaque value.
#[verifier::external_type_specification]
#[verifier::external_body]
pub struct ExPathBuf(std::path::PathBuf);

/// The path that a text denotes.
pub uninterp spec fn path_of(text: Seq<char>) -> std::path::PathBuf;

/// `PathBuf::from` on a `str`: the path whose text is `text`.
#[verifier::external_body]
fn path_from(text: &str) -> (path: std::path::PathBuf)
    ensures
        path == path_of(text@),
{
    std::path::PathBuf::from(text)
}

/// The `Clone` of [`std::path::PathBuf`]: the same path again.
#[verifier::external_body]
fn path_clone(path: &std::path::PathBuf) -> (copy: std::path::PathBuf)
    ensures
        copy == *path,
{
    path.clone()
}

/// Ring size, flush cadence, log durability and store retry policy.
#[derive(Debug)]
pub struct FluxConfig {
    /// Wanted capacity of the ring, which rounds it up to a power of two.
    pub ring_capacity: usize,
    /// Volume threshold: the worker flushes once this many entries are dirty.
    pub flush_max_batch: usize,
    /// Time threshold: the worker flushes at least this often.
    pub flush_interval: Span,
    /// How long the worker parks when there is nothing to do.
    pub worker_idle_sleep: Span,
    /// Directory of the write-ahead log.
    pub wal_dir: std::path::PathBuf,
    /// Whether every append to the log is forced to stable storage.
    pub wal_fsync: bool,
    /// Number of attempts at the store before a batch is requeued.
    pub store_retry_limit: u32,
    /// Pause between two attempts.
    pub store_retry_backoff: Span,
}

impl Clone for FluxConfig {
    fn clone(&self) -> (copy: FluxConfig)
        ensures
            copy == *self,
    {
        FluxConfig {
            ring_capacity: self.ring_capacity,
            flush_max_batch: self.flush_max_batch,
            flush_interval: self.flush_interval,
            worker_idle_sleep: self.worker_idle_sleep,
            wal_dir: path_clone(&self.wal_dir),
            wal_fsync: self.wal_fsync,
            store_retry_limit: self.store_retry_limit,
            store_retry_backoff: self.store_retry_backoff,
        }
    }
}

impl Default for FluxConfig {
    fn default() -> (config: FluxConfig)
        ensures
            config.ring_capacity == 65_536,
            config.flush_max_batch == 4096,
            config.flush_interval.nanos == 50_000_000,
            config.worker_idle_sleep.nanos == 1_000_000,
            config.wal_dir == path_of("./flux-wal"@),
            config.wal_fsync,
            config.store_retry_limit == 5,
            config.store_retry_backoff.nanos == 2_000_000,
    {
        FluxConfig {
            ring_capacity: 65_536,
            flush_max_batch: 4096,
            flush_interval: Span::from_millis(50),
            worker_idle_sleep: Span::from_millis(1),
            wal_dir: path_from("./flux-wal"),
            wal_fsync: true,
            store_retry_limit: 5,
            store_retry_backoff: Span::from_millis(2),
        }
    }
}

impl FluxConfig {
    /// Whether the configuration can be run.
    pub open spec fn valid(&self) -> bool {
        &&& self.ring_capacity >= 1
        &&& self.flush_max_batch >= 1
        &&& self.flush_interval.nanos > 0
        &&& self.store_retry_limit >= 1
    }

    /// What is wrong with the configuration: the first of its faults.
    pub open spec fn fault(&self) -> Seq<char> {
        if self.ring_capacity == 0 {
            "ring_capacity must be >= 1"@
        } else if self.flush_max_batch == 0 {
            "flush_max_batch must be >= 1"@
        } else if self.flush_interval.nanos == 0 {
            "flush_interval must be > 0"@
        } else {
            "store_retry_limit must be >= 1"@
        }
    }

    /// The configuration with another log directory.
    pub fn with_wal_dir(self, dir: std::path::PathBuf) -> (config: FluxConfig)
        ensures
            config == (FluxConfig { wal_dir: dir, ..self }),
    {
        FluxConfig { wal_dir: dir, ..self }
    }

    /// Checks what the rest of the crate relies on, and says what is wrong.
    pub fn validate(&self) -> (result: Result<(), String>)
        ensures
            result is Ok <==> self.valid(),
            result matches Err(text) ==> text@ == self.fault(),
            result is Ok <==> self.ring_capacity != 0 && self.flush_max_batch != 0
                && self.flush_interval.nanos != 0 && self.store_retry_limit != 0,
    {
        if self.ring_capacity == 0 {
            return Err("ring_capacity must be >= 1".to_owned());
        }
        if self.flush_max_batch == 0 {
            return Err("flush_max_batch must be >= 1".to_owned());
        }
        if self.flush_interval.is_zero() {
            return Err("flush_interval must be > 0".to_owned());
        }
        if self.store_retry_limit == 0 {
            return Err("store_retry_limit must be >= 1".to_owned());
        }
        Ok(())
    }
}

/// A configuration can be run exactly if none of the four numbers that the rest of the
/// crate relies on is zero, and it is refused for the first of them that is.
pub proof fn law_only_zeros_are_refused(c: FluxConfig)
    ensures
        c.valid() <==> c.ring_capacity != 0 && c.flush_max_batch != 0 && c.flush_interval.nanos
            != 0 && c.store_retry_limit != 0,
        c.ring_capacity == 0 ==> c.fault() == "ring_capacity must be >= 1"@,
        c.ring_capacity != 0 && c.flush_max_batch == 0 ==> c.fault()
            == "flush_max_batch must be >= 1"@,
        c.ring_capacity != 0 && c.flush_max_batch != 0 && c.flush_interval.nanos == 0
            ==> c.fault() == "flush_interval must be > 0"@,
        c.ring_capacity != 0 && c.flush_max_batch != 0 && c.flush_interval.nanos != 0
            && c.store_retry_limit == 0 ==> c.fault() == "store_retry_limit must be >= 1"@,
{
}

} // verus!
