# FluxThroughput

A crash-safe, write-behind persistence pipeline, verified with Verus. It keeps a
latency-sensitive main loop (a game tick, say) apart from a slow durable backend:
a submission makes one attempt at a bounded ring and never waits.

```text
submit -> ring -> cache -> write-ahead log -> store
```

* `src/` is the verified library: the ring, the coalescing cache, the frame and
  segment formats of the log, its append, checkpoint and recovery plans, sequence
  numbers, the decisions of the flush worker, an in-memory store with faults on
  demand, and the engine that puts them together. `laws.rs`, `journal.rs`,
  `protocol.rs` and `calls.rs` state what holds of the pipeline as a whole: between
  the cache and the store no update is lost, whichever batches fail; a record that
  the log has accepted stays in the log until the store has absorbed it, through
  any number of kills and restarts; and the ring delivers every request once,
  however the calls of many threads interleave.
* `tests/` runs the library on concrete values.
* `app/` is ordinary Rust around it: threads, locks, files and sleeping, with a
  demo and a victim for crash tests.

What is durable: a record that was appended and forced to stable storage survives
a hard kill and is replayed on the next start, until the store has absorbed it: has
held its content, a newer version of its entity, or a write of the same version
that came into the cache after it.
That holds of the write of a `submit_durable` that returned without an error,
whether it found room in the ring or not, and of the records of every batch that
was logged, whether the store then took the batch or not. A `flush_now` that
returned without an error has put into the store all that was queued or dirty
when it began, but for what the worker had taken out to flush by itself.

What is not: requests in the ring and dirty entries of the cache that no logged
record holds are lost with the process, also where a stopping worker gives up
because the store stays down.
