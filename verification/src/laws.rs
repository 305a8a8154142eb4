//! What holds of the pipeline as a whole.

use crate::cache::{
    law_giving_back_keeps_entries, law_giving_back_overwrites_only_older_states,
    law_no_state_given_back_is_forgotten, lemma_given_back_all_ok, lemma_restored_is_dirty,
};
use crate::disk::{after_steps, may_survive, Disk};
use crate::domain::{CacheView, Lsn, PlayerId, RecordView, StateView};
use crate::lsn::{law_checkpoint_keeps_pending_records, LsnView};
use crate::segment::{all_fit, law_recovery_returns_what_was_appended, recovered, segment};
use crate::store::{
    law_accepted_batch_is_stored, law_store_never_goes_back, law_table_stays_ok, table_ok,
    upserted_all,
};
use crate::wal::{
    checkpoint_steps, law_checkpointed_segment_recovers_to_survivors,
    law_crash_during_checkpoint_leaves_old_or_new,
};
use vstd::prelude::*;

verus! {

/// Whether one of the states in flight is of `id` and not older than `version`.
pub open spec fn in_flight(held: Set<StateView>, id: PlayerId, version: u64) -> bool {
    exists|s: StateView| #[trigger] held.contains(s) && s.player_id == id && s.version >= version
}

/// Whether the store holds `id` in a version that is not older than `version`.
pub open spec fn stored(table: Map<PlayerId, StateView>, id: PlayerId, version: u64) -> bool {
    table.dom().contains(id) && table[id].version >= version
}

/// Nothing is lost: every entry of the cache is still to be flushed, or in a
/// batch on its way to the store, or in the store, in this version or a newer
/// one.
pub open spec fn nothing_lost(
    v: CacheView,
    held: Set<StateView>,
    table: Map<PlayerId, StateView>,
) -> bool {
    forall|id: PlayerId| #[trigger]
        v.entries.dom().contains(id) ==> v.dirty.contains(id) || in_flight(
            held,
            id,
            v.entries[id].version,
        ) || stored(table, id, v.entries[id].version)
}

/// Writes that come into the cache lose nothing, whatever is in flight.
pub proof fn law_writes_lose_nothing(
    v: CacheView,
    held: Set<StateView>,
    table: Map<PlayerId, StateView>,
    writes: Seq<StateView>,
)
    requires
        v.ok(),
        nothing_lost(v, held, table),
    ensures
        nothing_lost(v.merged_all(writes), held, table),
    decreases writes.len(),
{
    if writes.len() > 0 {
        law_writes_lose_nothing(v, held, table, writes.drop_last());
    }
}

/// Taking a batch out of the dirty set loses nothing: it is in flight.
pub proof fn law_taking_a_batch_loses_nothing(
    v: CacheView,
    held: Set<StateView>,
    table: Map<PlayerId, StateView>,
    batch: Seq<StateView>,
    after: CacheView,
)
    requires
        v.ok(),
        nothing_lost(v, held, table),
        v.taken(batch, after),
    ensures
        after.ok(),
        nothing_lost(after, held.union(batch.to_set()), table),
{
    assert(after.dirty.subset_of(v.dirty));
    let more = held.union(batch.to_set());
    assert forall|id: PlayerId| #[trigger]
        after.entries.dom().contains(id) && !after.dirty.contains(id) && !stored(
            table,
            id,
            after.entries[id].version,
        ) implies in_flight(more, id, after.entries[id].version) by {
        if v.dirty.contains(id) {
            let k = choose|k: int| 0 <= k < batch.len() && (#[trigger] batch[k]).player_id == id;
            assert(batch.to_set().contains(batch[k]));
            assert(more.contains(batch[k]));
        } else {
            let s = choose|s: StateView| #[trigger]
                held.contains(s) && s.player_id == id && s.version >= v.entries[id].version;
            assert(more.contains(s));
        }
    }
}

/// Giving a batch back to the cache, because the log or the store failed, loses
/// nothing, whatever was written or flushed since it was taken.
pub proof fn law_requeueing_a_batch_loses_nothing(
    v: CacheView,
    held: Set<StateView>,
    table: Map<PlayerId, StateView>,
    batch: Seq<StateView>,
)
    requires
        v.ok(),
        nothing_lost(v, held.union(batch.to_set()), table),
    ensures
        nothing_lost(v.given_back_all(batch), held, table),
{
    let after = v.given_back_all(batch);
    assert forall|id: PlayerId| #[trigger]
        after.entries.dom().contains(id) && !after.dirty.contains(id) && !stored(
            table,
            id,
            after.entries[id].version,
        ) implies in_flight(held, id, after.entries[id].version) by {
        if !v.entries.dom().contains(id) || after.entries[id] != v.entries[id] {
            lemma_restored_is_dirty(v, batch, id);
        }
        law_giving_back_overwrites_only_older_states(v, batch, id);
        let s = choose|s: StateView| #[trigger]
            held.union(batch.to_set()).contains(s) && s.player_id == id && s.version
                >= v.entries[id].version;
        if batch.to_set().contains(s) {
            let k = choose|k: int| 0 <= k < batch.len() && batch[k] == s;
            law_no_state_given_back_is_forgotten(v, batch, k);
        }
        assert(held.contains(s));
    }
}

/// A batch that the store accepts is no longer in flight, and nothing is lost.
pub proof fn law_persisting_a_batch_loses_nothing(
    v: CacheView,
    held: Set<StateView>,
    table: Map<PlayerId, StateView>,
    batch: Seq<StateView>,
)
    requires
        table_ok(table),
        nothing_lost(v, held.union(batch.to_set()), table),
    ensures
        nothing_lost(v, held, upserted_all(table, batch)),
{
    let after = upserted_all(table, batch);
    assert forall|id: PlayerId| #[trigger]
        v.entries.dom().contains(id) && !v.dirty.contains(id) && !in_flight(
            held,
            id,
            v.entries[id].version,
        ) implies stored(after, id, v.entries[id].version) by {
        if stored(table, id, v.entries[id].version) {
            law_store_never_goes_back(table, batch, id);
        } else {
            let s = choose|s: StateView| #[trigger]
                held.union(batch.to_set()).contains(s) && s.player_id == id && s.version
                    >= v.entries[id].version;
            assert(batch.to_set().contains(s));
            let k = choose|k: int| 0 <= k < batch.len() && batch[k] == s;
            law_accepted_batch_is_stored(table, batch, k);
        }
    }
}

/// The pipeline at one moment: the cache, the states of all batches that are on
/// their way, and the store.
#[verifier::ext_equal]
pub struct Flow {
    pub cache: CacheView,
    pub held: Set<StateView>,
    pub table: Map<PlayerId, StateView>,
}

/// One thing that happens to the pipeline. The worker and any number of callers
/// may each have a batch on its way, in any order.
pub enum FlowEvent {
    /// A write comes into the cache.
    Write(StateView),
    /// A batch of dirty entries is taken.
    Take(Seq<StateView>),
    /// A batch goes back into the cache.
    GiveBack(Seq<StateView>),
    /// The store accepts a batch.
    Persist(Seq<StateView>),
}

/// Whether `event` may turn `a` into `b`.
pub open spec fn flows(a: Flow, event: FlowEvent, b: Flow) -> bool {
    match event {
        FlowEvent::Write(state) => b == (Flow { cache: a.cache.merged(state), ..a }),
        FlowEvent::Take(batch) => {
            &&& a.cache.taken(batch, b.cache)
            &&& b.held == a.held.union(batch.to_set())
            &&& b.table == a.table
        },
        FlowEvent::GiveBack(batch) => {
            &&& b.cache == a.cache.given_back_all(batch)
            &&& b.held.union(batch.to_set()) == a.held
            &&& b.table == a.table
        },
        FlowEvent::Persist(batch) => {
            &&& b.cache == a.cache
            &&& b.held.union(batch.to_set()) == a.held
            &&& b.table == upserted_all(a.table, batch)
        },
    }
}

/// Whether `run` is a history of the pipeline with these events, from an empty
/// cache and any store on.
pub open spec fn history(run: Seq<Flow>, events: Seq<FlowEvent>) -> bool {
    &&& run.len() == events.len() + 1
    &&& run[0].cache == CacheView::empty()
    &&& run[0].held.is_empty()
    &&& table_ok(run[0].table)
    &&& forall|k: int| 0 <= k < events.len() ==> flows(run[k], #[trigger] events[k], run[k + 1])
}

/// The write of every entity that wins: the one of the highest version, and the
/// last of several.
pub open spec fn newest(events: Seq<FlowEvent>) -> Map<PlayerId, StateView>
    decreases events.len(),
{
    if events.len() == 0 {
        Map::empty()
    } else {
        let before = newest(events.drop_last());
        match events.last() {
            FlowEvent::Write(s) => if before.dom().contains(s.player_id) && s.version
                < before[s.player_id].version {
                before
            } else {
                before.insert(s.player_id, s)
            },
            _ => before,
        }
    }
}

/// Whether `s` was written, payload and all.
pub open spec fn written(events: Seq<FlowEvent>, s: StateView) -> bool {
    exists|k: int| 0 <= k < events.len() && #[trigger] events[k] == FlowEvent::Write(s)
}

/// Whether `s` is a state that the store held at the start.
pub open spec fn held_at_start(start: Map<PlayerId, StateView>, s: StateView) -> bool {
    start.dom().contains(s.player_id) && start[s.player_id] == s
}

/// What every moment of a history has in common: nothing is lost, the cache
/// holds the winning write of every entity, and every state anywhere is one that
/// was written, but for those that the store held at the start.
pub open spec fn in_step(
    f: Flow,
    events: Seq<FlowEvent>,
    start: Map<PlayerId, StateView>,
) -> bool {
    &&& f.cache.ok()
    &&& table_ok(f.table)
    &&& nothing_lost(f.cache, f.held, f.table)
    &&& f.cache.entries == newest(events)
    &&& forall|s: StateView| #[trigger] f.held.contains(s) ==> written(events, s)
    &&& forall|id: PlayerId| #[trigger]
        f.table.dom().contains(id) ==> written(events, f.table[id]) || held_at_start(
            start,
            f.table[id],
        )
    &&& forall|id: PlayerId| #[trigger]
        start.dom().contains(id) ==> stored(f.table, id, start[id].version)
}

/// What was written stays written.
proof fn lemma_written_before(events: Seq<FlowEvent>, event: FlowEvent)
    ensures
        forall|s: StateView| #[trigger] written(events, s) ==> written(events.push(event), s),
        event matches FlowEvent::Write(s) ==> written(events.push(event), s),
{
    let more = events.push(event);
    assert forall|s: StateView| #[trigger] written(events, s) implies written(more, s) by {
        let k = choose|k: int|
            0 <= k < events.len() && #[trigger] events[k] == FlowEvent::Write(s);
        assert(more[k] == FlowEvent::Write(s));
    }
    assert(more[events.len() as int] == event);
}

/// Nothing that was written is newer than the write that wins.
proof fn lemma_newest_is_highest(events: Seq<FlowEvent>, s: StateView)
    requires
        written(events, s),
    ensures
        newest(events).dom().contains(s.player_id),
        newest(events)[s.player_id].version >= s.version,
    decreases events.len(),
{
    let k = choose|k: int| 0 <= k < events.len() && #[trigger] events[k] == FlowEvent::Write(s);
    let init = events.drop_last();
    if k < init.len() {
        assert(init[k] == FlowEvent::Write(s));
        lemma_newest_is_highest(init, s);
    }
}

/// The write that wins is one of the entity.
proof fn lemma_newest_is_written(events: Seq<FlowEvent>, id: PlayerId)
    requires
        newest(events).dom().contains(id),
    ensures
        newest(events)[id].player_id == id,
        written(events, newest(events)[id]),
    decreases events.len(),
{
    let init = events.drop_last();
    assert(init.push(events.last()) =~= events);
    lemma_written_before(init, events.last());
    if newest(init).dom().contains(id) {
        lemma_newest_is_written(init, id);
    }
}

/// What a batch leaves in the store was there or is in the batch.
proof fn lemma_rows_come_from_somewhere(
    table: Map<PlayerId, StateView>,
    states: Seq<StateView>,
    id: PlayerId,
)
    requires
        upserted_all(table, states).dom().contains(id),
    ensures
        ({
            let row = upserted_all(table, states)[id];
            ||| table.dom().contains(id) && row == table[id]
            ||| states.contains(row)
        }),
    decreases states.len(),
{
    if states.len() > 0 {
        let init = states.drop_last();
        let before = upserted_all(table, init);
        let after = upserted_all(table, states);
        if before.dom().contains(id) && after[id] == before[id] {
            lemma_rows_come_from_somewhere(table, init, id);
            if init.contains(after[id]) {
                let k = choose|k: int| 0 <= k < init.len() && init[k] == after[id];
                assert(states[k] == after[id]);
            }
        } else {
            assert(states[states.len() - 1] == after[id]);
        }
    }
}

/// The states of a batch that was on its way were written.
proof fn lemma_batch_was_written(
    a: Flow,
    events: Seq<FlowEvent>,
    start: Map<PlayerId, StateView>,
    held: Set<StateView>,
    batch: Seq<StateView>,
)
    requires
        in_step(a, events, start),
        held.union(batch.to_set()) == a.held,
    ensures
        forall|s: StateView| #[trigger] batch.contains(s) ==> written(events, s),
        forall|s: StateView| #[trigger] held.contains(s) ==> written(events, s),
{
    assert forall|s: StateView| #[trigger] batch.contains(s) implies written(events, s) by {
        assert(batch.to_set().contains(s));
        assert(a.held.contains(s));
    }
    assert forall|s: StateView| #[trigger] held.contains(s) implies written(events, s) by {
        assert(a.held.contains(s));
    }
}

proof fn lemma_persist_keeps_step(
    a: Flow,
    batch: Seq<StateView>,
    b: Flow,
    events: Seq<FlowEvent>,
    start: Map<PlayerId, StateView>,
)
    requires
        in_step(a, events, start),
        flows(a, FlowEvent::Persist(batch), b),
    ensures
        in_step(b, events, start),
{
    lemma_batch_was_written(a, events, start, b.held, batch);
    law_table_stays_ok(a.table, batch);
    law_persisting_a_batch_loses_nothing(a.cache, b.held, a.table, batch);
    assert forall|id: PlayerId| #[trigger] b.table.dom().contains(id) implies written(
        events,
        b.table[id],
    ) || held_at_start(start, b.table[id]) by {
        lemma_rows_come_from_somewhere(a.table, batch, id);
    }
    assert forall|id: PlayerId| #[trigger] start.dom().contains(id) implies stored(
        b.table,
        id,
        start[id].version,
    ) by {
        law_store_never_goes_back(a.table, batch, id);
    }
}

proof fn lemma_give_back_keeps_step(
    a: Flow,
    batch: Seq<StateView>,
    b: Flow,
    events: Seq<FlowEvent>,
    start: Map<PlayerId, StateView>,
)
    requires
        in_step(a, events, start),
        flows(a, FlowEvent::GiveBack(batch), b),
    ensures
        in_step(b, events, start),
{
    lemma_batch_was_written(a, events, start, b.held, batch);
    assert forall|i: int| 0 <= i < batch.len() implies a.cache.entries.dom().contains(
        (#[trigger] batch[i]).player_id,
    ) && batch[i].version <= a.cache.entries[batch[i].player_id].version by {
        assert(batch.contains(batch[i]));
        lemma_newest_is_highest(events, batch[i]);
    }
    law_giving_back_keeps_entries(a.cache, batch);
    lemma_given_back_all_ok(a.cache, batch);
    law_requeueing_a_batch_loses_nothing(a.cache, b.held, a.table, batch);
}

proof fn lemma_take_keeps_step(
    a: Flow,
    batch: Seq<StateView>,
    b: Flow,
    events: Seq<FlowEvent>,
    start: Map<PlayerId, StateView>,
)
    requires
        in_step(a, events, start),
        flows(a, FlowEvent::Take(batch), b),
    ensures
        in_step(b, events, start),
{
    law_taking_a_batch_loses_nothing(a.cache, a.held, a.table, batch, b.cache);
    assert forall|s: StateView| #[trigger] b.held.contains(s) implies written(events, s) by {
        if !a.held.contains(s) {
            let k = choose|k: int| 0 <= k < batch.len() && batch[k] == s;
            assert(a.cache.dirty.contains(batch[k].player_id));
            lemma_newest_is_written(events, s.player_id);
        }
    }
}

/// An event that writes nothing leaves what was written as it was.
proof fn lemma_same_writes(
    f: Flow,
    events: Seq<FlowEvent>,
    event: FlowEvent,
    start: Map<PlayerId, StateView>,
)
    requires
        in_step(f, events, start),
        !(event is Write),
    ensures
        in_step(f, events.push(event), start),
{
    assert(events.push(event).drop_last() =~= events);
    lemma_written_before(events, event);
}

/// Every event keeps the pipeline in step.
proof fn lemma_event_keeps_step(
    a: Flow,
    event: FlowEvent,
    b: Flow,
    events: Seq<FlowEvent>,
    start: Map<PlayerId, StateView>,
)
    requires
        in_step(a, events, start),
        flows(a, event, b),
    ensures
        in_step(b, events.push(event), start),
{
    match event {
        FlowEvent::Write(state) => {
            assert(events.push(event).drop_last() =~= events);
            lemma_written_before(events, event);
            assert(a.cache.merged_all(seq![state]) == a.cache.merged(state)) by {
                assert(seq![state].drop_last() =~= Seq::empty());
                reveal_with_fuel(CacheView::merged_all, 2);
            }
            law_writes_lose_nothing(a.cache, a.held, a.table, seq![state]);
        },
        FlowEvent::Take(batch) => {
            lemma_take_keeps_step(a, batch, b, events, start);
            lemma_same_writes(b, events, event, start);
        },
        FlowEvent::GiveBack(batch) => {
            lemma_give_back_keeps_step(a, batch, b, events, start);
            lemma_same_writes(b, events, event, start);
        },
        FlowEvent::Persist(batch) => {
            lemma_persist_keeps_step(a, batch, b, events, start);
            lemma_same_writes(b, events, event, start);
        },
    }
}

/// No update is ever lost: at every moment of every history, whatever writes
/// came in, however many batches were on their way at once, and whichever of
/// them failed, the cache holds each entity's winning write, payload and all, and
/// that version is still to be flushed, on its way, or in the store. No state is
/// made up on the way.
pub proof fn law_no_update_is_ever_lost(run: Seq<Flow>, events: Seq<FlowEvent>, k: int)
    requires
        history(run, events),
        0 <= k <= events.len(),
    ensures
        in_step(run[k], events.take(k), run[0].table),
    decreases k,
{
    if k == 0 {
        assert(events.take(0) =~= Seq::empty());
    } else {
        law_no_update_is_ever_lost(run, events, k - 1);
        assert(flows(run[k - 1], events[k - 1], run[k - 1 + 1]));
        lemma_event_keeps_step(
            run[k - 1],
            events[k - 1],
            run[k],
            events.take(k - 1),
            run[0].table,
        );
        assert(events.take(k) =~= events.take(k - 1).push(events[k - 1]));
    }
}

/// Once nothing is dirty and nothing is on its way, the store holds every entity
/// that was ever written, and those that it held at the start, and no others. What
/// it holds is a state that was written, or one of those; and its version is the
/// highest of all of them.
pub proof fn law_quiet_store_holds_the_newest(
    run: Seq<Flow>,
    events: Seq<FlowEvent>,
    id: PlayerId,
)
    requires
        history(run, events),
        run.last().cache.dirty.is_empty(),
        run.last().held.is_empty(),
    ensures
        ({
            let start = run[0].table;
            let table = run.last().table;
            let top = newest(events);
            &&& table.dom().contains(id) <==> start.dom().contains(id) || top.dom().contains(id)
            &&& table.dom().contains(id) ==> {
                ||| exists|k: int|
                    0 <= k < events.len() && #[trigger] events[k] == FlowEvent::Write(table[id])
                ||| start.dom().contains(id) && table[id] == start[id]
            }
            &&& top.dom().contains(id) ==> table[id].version >= top[id].version
            &&& start.dom().contains(id) ==> table[id].version >= start[id].version
            &&& top.dom().contains(id) && !start.dom().contains(id) ==> table[id].version
                == top[id].version
        }),
{
    law_no_update_is_ever_lost(run, events, events.len() as int);
    assert(events.take(events.len() as int) =~= events);
    let f = run.last();
    let start = run[0].table;
    if newest(events).dom().contains(id) {
        assert(f.cache.entries.dom().contains(id));
        assert(!f.cache.dirty.contains(id));
        assert(stored(f.table, id, newest(events)[id].version));
    }
    if f.table.dom().contains(id) {
        assert(f.table[id].player_id == id);
        if written(events, f.table[id]) {
            lemma_newest_is_highest(events, f.table[id]);
        }
    }
    if start.dom().contains(id) {
        assert(stored(f.table, id, start[id].version));
    }
}

/// Where no version of an entity is written in two different states, a quiet
/// store that began without the entity, or with an older version of it, holds
/// exactly the newest of its writes, payload and all.
pub proof fn law_quiet_store_holds_the_newest_payload(
    run: Seq<Flow>,
    events: Seq<FlowEvent>,
    id: PlayerId,
)
    requires
        history(run, events),
        run.last().cache.dirty.is_empty(),
        run.last().held.is_empty(),
        newest(events).dom().contains(id),
        run[0].table.dom().contains(id) ==> run[0].table[id].version
            < newest(events)[id].version,
        forall|s: StateView, t: StateView| #[trigger]
            written(events, s) && #[trigger] written(events, t) && s.player_id == id
                && t.player_id == id && s.version == t.version ==> s == t,
    ensures
        run.last().table.dom().contains(id),
        run.last().table[id] == newest(events)[id],
{
    law_quiet_store_holds_the_newest(run, events, id);
    law_no_update_is_ever_lost(run, events, events.len() as int);
    assert(events.take(events.len() as int) =~= events);
    let row = run.last().table[id];
    assert(row.player_id == id);
    assert(written(events, row));
    lemma_newest_is_highest(events, row);
    lemma_newest_is_written(events, id);
}

/// Whether no batch is taken while another is on its way.
pub open spec fn one_at_a_time(run: Seq<Flow>, events: Seq<FlowEvent>) -> bool {
    forall|k: int|
        0 <= k < events.len() && (#[trigger] events[k] is Take) ==> run[k].held.is_empty()
}

/// Of an entry that is not dirty, nothing else is on its way; and it is on its way
/// itself, or in the store, unless the store began with something newer.
pub open spec fn entry_paced(f: Flow, start: Map<PlayerId, StateView>, id: PlayerId) -> bool {
    let entry = f.cache.entries[id];
    &&& forall|s: StateView| #[trigger] f.held.contains(s) && s.player_id == id ==> s == entry
    &&& {
        ||| f.held.contains(entry)
        ||| f.table.dom().contains(id) && f.table[id] == entry
        ||| start.dom().contains(id) && start[id].version > entry.version
    }
}

/// What every moment has in common when batches go one at a time.
pub open spec fn paced(f: Flow, start: Map<PlayerId, StateView>) -> bool {
    forall|id: PlayerId| #[trigger]
        f.cache.entries.dom().contains(id) && !f.cache.dirty.contains(id) ==> entry_paced(
            f,
            start,
            id,
        )
}

/// A state in a batch is in the store afterwards, unless another of the batch is,
/// or something newer.
proof fn lemma_batch_wins(table: Map<PlayerId, StateView>, states: Seq<StateView>, k: int)
    requires
        table_ok(table),
        0 <= k < states.len(),
    ensures
        ({
            let row = upserted_all(table, states)[states[k].player_id];
            states.contains(row) || row.version > states[k].version
        }),
    decreases states.len(),
{
    let init = states.drop_last();
    let last = states[states.len() - 1];
    let id = states[k].player_id;
    let before = upserted_all(table, init);
    let row = upserted_all(table, states)[id];
    if row == last {
        assert(states[states.len() - 1] == row);
    } else if k < init.len() {
        assert(init[k] == states[k]);
        lemma_batch_wins(table, init, k);
        if init.contains(row) {
            let n = choose|n: int| 0 <= n < init.len() && init[n] == row;
            assert(states[n] == row);
        }
    }
}

proof fn lemma_persist_keeps_pace(
    a: Flow,
    batch: Seq<StateView>,
    b: Flow,
    events: Seq<FlowEvent>,
    start: Map<PlayerId, StateView>,
    id: PlayerId,
)
    requires
        in_step(a, events, start),
        in_step(b, events, start),
        paced(a, start),
        flows(a, FlowEvent::Persist(batch), b),
        a.cache.entries.dom().contains(id),
        !a.cache.dirty.contains(id),
    ensures
        entry_paced(b, start, id),
{
    let entry = a.cache.entries[id];
    assert(entry_paced(a, start, id));
    assert forall|s: StateView| #[trigger] b.held.contains(s) implies a.held.contains(s) by {}
    assert forall|s: StateView| #[trigger] batch.contains(s) && s.player_id == id implies s
        == entry by {
        assert(batch.to_set().contains(s));
        assert(a.held.contains(s));
    }
    if a.held.contains(entry) && !b.held.contains(entry) {
        assert(batch.to_set().contains(entry));
        let k = choose|k: int| 0 <= k < batch.len() && batch[k] == entry;
        law_accepted_batch_is_stored(a.table, batch, k);
        lemma_batch_wins(a.table, batch, k);
        let row = b.table[id];
        assert(row.player_id == id);
        if row != entry {
            assert(row.version > entry.version);
            if written(events, row) {
                lemma_newest_is_highest(events, row);
            }
        }
    } else if a.table.dom().contains(id) && a.table[id] == entry {
        law_store_never_goes_back(a.table, batch, id);
        lemma_rows_come_from_somewhere(a.table, batch, id);
        assert(b.table[id].player_id == id);
    }
}

proof fn lemma_give_back_keeps_pace(
    a: Flow,
    batch: Seq<StateView>,
    b: Flow,
    events: Seq<FlowEvent>,
    start: Map<PlayerId, StateView>,
    id: PlayerId,
)
    requires
        in_step(a, events, start),
        in_step(b, events, start),
        paced(a, start),
        flows(a, FlowEvent::GiveBack(batch), b),
        b.cache.entries.dom().contains(id),
        !b.cache.dirty.contains(id),
    ensures
        entry_paced(b, start, id),
{
    let entry = a.cache.entries[id];
    law_giving_back_overwrites_only_older_states(a.cache, batch, id);
    assert(entry_paced(a, start, id));
    assert forall|s: StateView| #[trigger] b.held.contains(s) implies a.held.contains(s) by {}
    if a.held.contains(entry) && !b.held.contains(entry) {
        assert(batch.to_set().contains(entry));
        let k = choose|k: int| 0 <= k < batch.len() && batch[k] == entry;
        law_no_state_given_back_is_forgotten(a.cache, batch, k);
    }
}

proof fn lemma_take_keeps_pace(
    a: Flow,
    batch: Seq<StateView>,
    b: Flow,
    start: Map<PlayerId, StateView>,
    id: PlayerId,
)
    requires
        a.cache.ok(),
        paced(a, start),
        flows(a, FlowEvent::Take(batch), b),
        a.held.is_empty(),
        b.cache.entries.dom().contains(id),
        !b.cache.dirty.contains(id),
    ensures
        entry_paced(b, start, id),
{
    let entry = b.cache.entries[id];
    assert forall|s: StateView| #[trigger] b.held.contains(s) && s.player_id == id implies s
        == entry by {
        assert(!a.held.contains(s));
        let k = choose|k: int| 0 <= k < batch.len() && batch[k] == s;
        assert(batch[k].player_id == id);
    }
    if a.cache.dirty.contains(id) {
        let k = choose|k: int| 0 <= k < batch.len() && (#[trigger] batch[k]).player_id == id;
        assert(batch.to_set().contains(batch[k]));
    } else {
        assert(entry_paced(a, start, id));
        assert(!a.held.contains(entry));
    }
}

proof fn lemma_paced(run: Seq<Flow>, events: Seq<FlowEvent>, k: int)
    requires
        history(run, events),
        one_at_a_time(run, events),
        0 <= k <= events.len(),
    ensures
        paced(run[k], run[0].table),
    decreases k,
{
    if k > 0 {
        let start = run[0].table;
        let a = run[k - 1];
        let b = run[k];
        let event = events[k - 1];
        let before = events.take(k - 1);
        lemma_paced(run, events, k - 1);
        law_no_update_is_ever_lost(run, events, k - 1);
        law_no_update_is_ever_lost(run, events, k);
        assert(flows(run[k - 1], events[k - 1], run[k - 1 + 1]));
        assert(events.take(k) =~= before.push(event));
        assert(events.take(k).drop_last() =~= before);
        assert forall|id: PlayerId| #[trigger]
            b.cache.entries.dom().contains(id) && !b.cache.dirty.contains(id) implies entry_paced(
            b,
            start,
            id,
        ) by {
            match event {
                FlowEvent::Write(state) => {
                    assert(entry_paced(a, start, id));
                },
                FlowEvent::Take(batch) => lemma_take_keeps_pace(a, batch, b, start, id),
                FlowEvent::GiveBack(batch) => {
                    lemma_give_back_keeps_step(a, batch, b, before, start);
                    lemma_give_back_keeps_pace(a, batch, b, before, start, id);
                },
                FlowEvent::Persist(batch) => {
                    lemma_persist_keeps_step(a, batch, b, before, start);
                    lemma_persist_keeps_pace(a, batch, b, before, start, id);
                },
            }
        }
    }
}

/// Where batches go one at a time, as they do when the worker alone flushes, a
/// quiet store holds exactly the winning write of every entity, payload and all,
/// whatever versions were written how often, unless it began with a higher
/// version.
pub proof fn law_quiet_store_holds_the_winning_writes(
    run: Seq<Flow>,
    events: Seq<FlowEvent>,
    id: PlayerId,
)
    requires
        history(run, events),
        one_at_a_time(run, events),
        run.last().cache.dirty.is_empty(),
        run.last().held.is_empty(),
        newest(events).dom().contains(id),
        run[0].table.dom().contains(id) ==> run[0].table[id].version
            <= newest(events)[id].version,
    ensures
        run.last().table.dom().contains(id),
        run.last().table[id] == newest(events)[id],
{
    let n = events.len() as int;
    lemma_paced(run, events, n);
    law_no_update_is_ever_lost(run, events, n);
    assert(events.take(n) =~= events);
    assert(run.last().cache.entries.dom().contains(id));
    assert(entry_paced(run.last(), run[0].table, id));
}

/// A record whose number is pending survives every checkpoint at the watermark,
/// and a crash at any moment of it: recovery returns it.
pub proof fn law_pending_record_survives_checkpoint_and_crash(
    d: Disk,
    records: Seq<RecordView>,
    state: LsnView,
    proposed: Lsn,
    safe: Lsn,
    k: int,
    i: int,
    image: Seq<u8>,
)
    requires
        all_fit(records),
        d.active == segment(records),
        d.synced == d.active.len(),
        d.replaced is None,
        state.watermark(proposed, Some(safe)),
        0 <= k < records.len(),
        state.holds(records[k].lsn),
        0 <= i <= 5,
        may_survive(after_steps(d, checkpoint_steps(d.active, safe).take(i)), image),
    ensures
        recovered(image).contains(records[k]),
{
    assert(d.active + Seq::<u8>::empty() =~= d.active);
    law_recovery_returns_what_was_appended(records, Seq::empty());
    law_crash_during_checkpoint_leaves_old_or_new(d, safe, i, image);
    if may_survive(d, image) {
        assert(d.active.take(d.active.len() as int) =~= d.active);
        assert(image == d.active);
        assert(records[k] == recovered(image)[k]);
    } else {
        law_checkpointed_segment_recovers_to_survivors(d.active, safe);
        law_checkpoint_keeps_pending_records(state, proposed, safe, records, k);
    }
}

} // verus!
