//! An in-memory store with faults on demand.
//!
//! [`MockDb`] can be told to be unavailable, to fail its next batches, to fail
//! every so many attempts, or to be slow. The pause that stands for a slow
//! backend is taken by the caller, before the batch is handed over: see
//! [`MockDb::latency_nanos`].

use crate::cache::{
    law_last_write_wins, law_no_write_is_forgotten, law_writes_never_go_back, lemma_merged_all_ok,
    lemma_untouched,
};
use crate::domain::{
    holds_player, state_views, CacheView, PersistenceStore, PlayerId, PlayerState, StateView,
};
use crate::error::{StoreError, StoreErrorView};
use crate::time::{clamp_nanos, clamped, Span};
use std::collections::HashMap;
use vstd::prelude::*;
use vstd::std_specs::iter::IteratorSpec;

verus! {

broadcast use vstd::std_specs::hash::group_hash_axioms;

/// The in-memory store.
pub struct MockDb {
    /// The latest persisted state of every entity.
    table: HashMap<PlayerId, PlayerState>,
    /// Whether the store is available.
    healthy: bool,
    /// How many of the next batches fail.
    fail_next: u64,
    /// Every so many attempts fail; 0 for none.
    fail_every: u64,
    /// Pause before every batch.
    latency_nanos: u64,
    /// Attempts that came as far as the periodic failure.
    attempts: u64,
    /// Batches that were persisted.
    persisted: u64,
}

/// A table with `state` put in, last-write-wins: an older state changes nothing.
pub open spec fn upserted(table: Map<PlayerId, StateView>, state: StateView) -> Map<
    PlayerId,
    StateView,
> {
    if table.dom().contains(state.player_id) && state.version < table[state.player_id].version {
        table
    } else {
        table.insert(state.player_id, state)
    }
}

/// A table with `states` put in, in order.
pub open spec fn upserted_all(table: Map<PlayerId, StateView>, states: Seq<StateView>) -> Map<
    PlayerId,
    StateView,
>
    decreases states.len(),
{
    if states.len() == 0 {
        table
    } else {
        upserted(upserted_all(table, states.drop_last()), states.last())
    }
}

/// A [`MockDb`] as its callers see it.
#[verifier::ext_equal]
pub struct DbView {
    pub table: Map<PlayerId, StateView>,
    pub healthy: bool,
    pub fail_next: u64,
    pub fail_every: u64,
    pub latency_nanos: u64,
    pub attempts: u64,
    pub persisted: u64,
}

impl DbView {
    pub open spec fn new() -> DbView {
        DbView {
            table: Map::empty(),
            healthy: true,
            fail_next: 0,
            fail_every: 0,
            latency_nanos: 0,
            attempts: 0,
            persisted: 0,
        }
    }

    /// Whether the next attempt is one that fails periodically.
    pub open spec fn periodic_failure(self) -> bool {
        self.fail_every > 0 && self.attempts.wrapping_add(1) % self.fail_every == 0
    }

    /// What the next batch is answered. An unavailable store says so before any
    /// other fault, and injected failures come before periodic ones.
    pub open spec fn reply(self) -> Result<(), StoreErrorView> {
        if !self.healthy {
            Err(StoreErrorView::Unavailable)
        } else if self.fail_next > 0 {
            Err(StoreErrorView::Transient("injected"@))
        } else if self.periodic_failure() {
            Err(StoreErrorView::Transient("periodic"@))
        } else {
            Ok(())
        }
    }

    /// The store after a batch: an unavailable one is unchanged, an injected
    /// failure is used up, and only an accepted batch reaches the table.
    pub open spec fn after(self, states: Seq<StateView>) -> DbView {
        if !self.healthy {
            self
        } else if self.fail_next > 0 {
            DbView { fail_next: (self.fail_next - 1) as u64, ..self }
        } else if self.periodic_failure() {
            DbView { attempts: self.attempts.wrapping_add(1), ..self }
        } else {
            DbView {
                attempts: self.attempts.wrapping_add(1),
                table: upserted_all(self.table, states),
                persisted: self.persisted.wrapping_add(1),
                ..self
            }
        }
    }
}

impl View for MockDb {
    type V = DbView;

    closed spec fn view(&self) -> DbView {
        DbView {
            table: table_view(self.table@),
            healthy: self.healthy,
            fail_next: self.fail_next,
            fail_every: self.fail_every,
            latency_nanos: self.latency_nanos,
            attempts: self.attempts,
            persisted: self.persisted,
        }
    }
}

spec fn table_view(table: Map<PlayerId, PlayerState>) -> Map<PlayerId, StateView> {
    table.map_values(|state: PlayerState| state@)
}

/// Whether `states` lists every entry of `table` once, in some order.
pub open spec fn lists(table: Map<PlayerId, StateView>, states: Seq<StateView>) -> bool {
    exists|ids: Seq<PlayerId>| #[trigger] lists_by(table, states, ids)
}

/// Whether `states` lists the entries of `table` in the order of `ids`.
pub open spec fn lists_by(
    table: Map<PlayerId, StateView>,
    states: Seq<StateView>,
    ids: Seq<PlayerId>,
) -> bool {
    &&& ids.no_duplicates()
    &&& ids.to_set() == table.dom()
    &&& ids.len() == states.len()
    &&& forall|i: int| 0 <= i < ids.len() ==> #[trigger] states[i] == table[ids[i]]
}

impl MockDb {
    /// Every entry of a store stands under its own identity.
    #[verifier::type_invariant]
    pub open spec fn inv(self) -> bool {
        table_ok(self@.table)
    }

    /// Creates an empty store that is healthy and injects no faults.
    pub fn new() -> (db: MockDb)
        ensures
            db@ == DbView::new(),
    {
        let table: HashMap<PlayerId, PlayerState> = HashMap::new();
        assert(table_view(table@) =~= Map::empty());
        let db = MockDb {
            table,
            healthy: true,
            fail_next: 0,
            fail_every: 0,
            latency_nanos: 0,
            attempts: 0,
            persisted: 0,
        };
        db
    }

    /// Makes the store available or not. While it is not, every batch fails as
    /// [`StoreError::Unavailable`].
    pub fn set_healthy(&mut self, healthy: bool)
        ensures
            final(self)@ == (DbView { healthy, ..old(self)@ }),
    {
        proof {
            use_type_invariant(&*self);
        }
        self.healthy = healthy;
    }

    /// Makes the next `n` batches fail. This replaces an earlier count.
    pub fn fail_next_batches(&mut self, n: u64)
        ensures
            final(self)@ == (DbView { fail_next: n, ..old(self)@ }),
    {
        proof {
            use_type_invariant(&*self);
        }
        self.fail_next = n;
    }

    /// Sets the pause before every batch, at most what 64 bits of nanoseconds
    /// hold.
    pub fn set_latency(&mut self, latency: Span)
        ensures
            final(self)@ == (DbView { latency_nanos: clamped(latency.nanos as int), ..old(self)@ }),
    {
        proof {
            use_type_invariant(&*self);
        }
        self.latency_nanos = clamp_nanos(latency);
    }

    /// The pause that the caller takes before it hands over a batch.
    pub fn latency_nanos(&self) -> (nanos: u64)
        ensures
            nanos == self@.latency_nanos,
    {
        self.latency_nanos
    }

    /// Makes every `n`-th attempt fail; 0 for none.
    pub fn set_fail_every(&mut self, n: u64)
        ensures
            final(self)@ == (DbView { fail_every: n, ..old(self)@ }),
    {
        proof {
            use_type_invariant(&*self);
        }
        self.fail_every = n;
    }

    /// How many batches were persisted.
    pub fn persisted_batches(&self) -> (n: u64)
        ensures
            n == self@.persisted,
    {
        self.persisted
    }

    /// Every persisted state, in no particular order.
    pub fn snapshot(&self) -> (states: Vec<PlayerState>)
        ensures
            lists(self@.table, state_views(states@)),
    {
        let mut states: Vec<PlayerState> = Vec::new();
        let ghost all = self.table.keys().remaining();
        for id in it: self.table.keys()
            invariant
                it.seq() == all,
                all.unref().to_set() == self.table@.dom(),
                states@.len() == it.index(),
                forall|i: int|
                    0 <= i < it.index() ==> (#[trigger] states@[i])@ == self.table@[*all[i]]@,
        {
            proof {
                assert(all.unref()[it.index() as int] == *id);
                assert(all.unref().to_set().contains(*id));
            }
            if let Some(state) = self.table.get(id) {
                states.push(state.clone());
            }
        }
        proof {
            let ids = all.unref();
            assert(table_view(self.table@).dom() =~= self.table@.dom());
            assert(lists_by(self@.table, state_views(states@), ids));
        }
        states
    }
}

impl Default for MockDb {
    fn default() -> (db: MockDb)
        ensures
            db@ == DbView::new(),
    {
        MockDb::new()
    }
}

impl PersistenceStore for MockDb {
    fn persist_batch(&mut self, states: &[PlayerState]) -> (result: Result<(), StoreError>)
        ensures
            final(self)@ == old(self)@.after(state_views(states@)),
            match result {
                Ok(()) => old(self)@.reply() is Ok,
                Err(e) => old(self)@.reply() == Err::<(), _>(e@),
            },
    {
        proof {
            use_type_invariant(&*self);
        }
        if !self.healthy {
            return Err(StoreError::Unavailable);
        }
        if self.fail_next > 0 {
            self.fail_next = self.fail_next - 1;
            return Err(StoreError::Transient("injected".to_owned()));
        }
        self.attempts = self.attempts.wrapping_add(1);
        if self.fail_every > 0 && self.attempts % self.fail_every == 0 {
            return Err(StoreError::Transient("periodic".to_owned()));
        }
        let ghost views = state_views(states@);
        let ghost before = self@.table;
        let mut table: HashMap<PlayerId, PlayerState> = HashMap::new();
        assert(table_view(table@).dom() =~= Set::empty());
        std::mem::swap(&mut self.table, &mut table);
        let mut i: usize = 0;
        while i < states.len()
            invariant
                i <= states@.len(),
                views == state_views(states@),
                table_view(table@) == upserted_all(before, views.take(i as int)),
            decreases states@.len() - i,
        {
            let incoming = &states[i];
            let stale = match table.get(&incoming.player_id) {
                Some(existing) => incoming.version < existing.version,
                None => false,
            };
            assert(views.take(i + 1).drop_last() =~= views.take(i as int));
            let ghost earlier = table_view(table@);
            if !stale {
                table.insert(incoming.player_id, incoming.clone());
            }
            assert(table_view(table@) =~= upserted(earlier, incoming@));
            i = i + 1;
        }
        proof {
            assert(views.take(i as int) =~= views);
            law_table_stays_ok(before, views);
        }
        self.table = table;
        self.persisted = self.persisted.wrapping_add(1);
        Ok(())
    }

    fn load(&self, id: PlayerId) -> (state: Option<PlayerState>)
        ensures
            match state {
                Some(state) => self@.table.dom().contains(id) && state@ == self@.table[id]
                    && state@.player_id == id,
                None => !self@.table.dom().contains(id),
            },
    {
        proof {
            use_type_invariant(self);
        }
        match self.table.get(&id) {
            Some(state) => Some(state.clone()),
            None => None,
        }
    }

    fn count(&self) -> (n: usize)
        ensures
            n == self@.table.dom().len(),
    {
        assert(table_view(self.table@).dom() =~= self.table@.dom());
        self.table.len()
    }
}

/// The store and the cache agree on which write wins.
pub proof fn law_store_and_cache_agree(v: CacheView, states: Seq<StateView>)
    ensures
        upserted_all(v.entries, states) == v.merged_all(states).entries,
    decreases states.len(),
{
    if states.len() > 0 {
        law_store_and_cache_agree(v, states.drop_last());
    }
}

/// A table as a cache with nothing dirty.
spec fn as_cache(table: Map<PlayerId, StateView>) -> CacheView {
    CacheView { entries: table, dirty: Set::empty() }
}

/// Whether every entry stands under its own identity.
pub open spec fn table_ok(table: Map<PlayerId, StateView>) -> bool {
    &&& table.dom().finite()
    &&& forall|id: PlayerId| #[trigger] table.dom().contains(id) ==> table[id].player_id == id
}

/// However a table came about, batches leave every entry under its own identity.
pub proof fn law_table_stays_ok(table: Map<PlayerId, StateView>, states: Seq<StateView>)
    requires
        table_ok(table),
    ensures
        table_ok(upserted_all(table, states)),
    decreases states.len(),
{
    if states.len() > 0 {
        law_table_stays_ok(table, states.drop_last());
    }
}

/// No batch makes a persisted version go back or loses an entity.
pub proof fn law_store_never_goes_back(
    table: Map<PlayerId, StateView>,
    states: Seq<StateView>,
    id: PlayerId,
)
    requires
        table_ok(table),
        table.dom().contains(id),
    ensures
        table_ok(upserted_all(table, states)),
        upserted_all(table, states).dom().contains(id),
        upserted_all(table, states)[id].version >= table[id].version,
{
    law_store_and_cache_agree(as_cache(table), states);
    law_writes_never_go_back(as_cache(table), states, id);
    lemma_merged_all_ok(as_cache(table), states);
}

/// Every state of an accepted batch is in the table, in its own version or a
/// newer one.
pub proof fn law_accepted_batch_is_stored(
    table: Map<PlayerId, StateView>,
    states: Seq<StateView>,
    i: int,
)
    requires
        table_ok(table),
        0 <= i < states.len(),
    ensures
        upserted_all(table, states).dom().contains(states[i].player_id),
        upserted_all(table, states)[states[i].player_id].version >= states[i].version,
{
    law_store_and_cache_agree(as_cache(table), states);
    law_no_write_is_forgotten(as_cache(table), states, i);
}

/// Persisting a batch again, as a replay after a crash does, changes nothing.
pub proof fn law_replay_changes_nothing(table: Map<PlayerId, StateView>, states: Seq<StateView>)
    requires
        table_ok(table),
    ensures
        upserted_all(upserted_all(table, states), states) == upserted_all(table, states),
{
    let once = upserted_all(table, states);
    let twice = upserted_all(once, states);
    let v0 = as_cache(table);
    let v1 = as_cache(once);
    law_store_and_cache_agree(v0, states);
    law_store_and_cache_agree(v1, states);
    lemma_merged_all_ok(v0, states);
    assert(v1.ok());
    assert forall|id: PlayerId|
        #![trigger twice.dom().contains(id)]
        #![trigger twice[id]]
        twice.dom().contains(id) == once.dom().contains(id) && (once.dom().contains(id)
            ==> twice[id] == once[id]) by {
        if holds_player(states, id) {
            law_last_write_wins(v0, states, id);
            law_last_write_wins(v1, states, id);
            law_writes_never_go_back(v1, states, id);
        } else {
            lemma_untouched(v1, states, id);
        }
    }
    assert(twice.dom() =~= once.dom());
    assert(twice =~= once);
}

/// The store after several batches, one after the other.
pub open spec fn after_batches(db: DbView, batches: Seq<Seq<StateView>>) -> DbView
    decreases batches.len(),
{
    if batches.len() == 0 {
        db
    } else {
        after_batches(db, batches.drop_last()).after(batches.last())
    }
}

/// A batch that is refused leaves what is persisted as it was; one that is accepted
/// puts all of its states in and is counted. What was set for later batches stays set,
/// but for an injected failure that is used up.
pub proof fn law_refused_batch_changes_nothing(db: DbView, states: Seq<StateView>)
    ensures
        db.reply() is Err ==> db.after(states).table == db.table && db.after(states).persisted
            == db.persisted,
        db.reply() is Ok ==> db.after(states).table == upserted_all(db.table, states)
            && db.after(states).persisted == db.persisted.wrapping_add(1),
        db.after(states).healthy == db.healthy,
        db.after(states).fail_every == db.fail_every,
        db.after(states).latency_nanos == db.latency_nanos,
{
}

/// A store that is down answers every batch so, and nothing changes until it is up.
pub proof fn law_store_that_is_down_refuses_everything(db: DbView, batches: Seq<Seq<StateView>>)
    requires
        !db.healthy,
    ensures
        after_batches(db, batches) == db,
        db.reply() == Err::<(), _>(StoreErrorView::Unavailable),
    decreases batches.len(),
{
    if batches.len() > 0 {
        law_store_that_is_down_refuses_everything(db, batches.drop_last());
    }
}

/// Of a healthy store that is told to fail its next `n` batches, exactly the next `n`
/// fail, in a way that is worth another attempt; without periodic failures, the one
/// after them is accepted.
pub proof fn law_injected_failures_are_as_many_as_asked_for(
    db: DbView,
    batches: Seq<Seq<StateView>>,
)
    requires
        db.healthy,
        batches.len() <= db.fail_next,
    ensures
        ({
            let now = after_batches(db, batches);
            &&& now.healthy
            &&& now.fail_next == db.fail_next - batches.len()
            &&& now.table == db.table
            &&& now.persisted == db.persisted
            &&& now.attempts == db.attempts
            &&& now.fail_every == db.fail_every
            &&& batches.len() < db.fail_next ==> (now.reply() matches Err(e) && e is Transient)
            &&& batches.len() == db.fail_next && db.fail_every == 0 ==> now.reply() is Ok
        }),
    decreases batches.len(),
{
    if batches.len() > 0 {
        law_injected_failures_are_as_many_as_asked_for(db, batches.drop_last());
    }
}

/// Of a healthy store without injected failures that is told to fail every `n`-th
/// attempt, exactly the attempts whose number is a multiple of `n` fail, counted from
/// the first; with 0 none does.
pub proof fn law_periodic_failures_are_periodic(db: DbView, batches: Seq<Seq<StateView>>)
    requires
        db.healthy,
        db.fail_next == 0,
        db.attempts + batches.len() < u64::MAX,
    ensures
        ({
            let now = after_batches(db, batches);
            let number = db.attempts + batches.len() + 1;
            &&& now.healthy
            &&& now.fail_next == 0
            &&& now.fail_every == db.fail_every
            &&& now.attempts == db.attempts + batches.len()
            &&& now.reply() is Err <==> db.fail_every > 0 && number % (db.fail_every as int) == 0
            &&& now.reply() matches Err(e) ==> e is Transient
        }),
    decreases batches.len(),
{
    if batches.len() > 0 {
        law_periodic_failures_are_periodic(db, batches.drop_last());
    }
}

/// The later of two states of one version stays in the table, the older of two
/// versions never does, and other entities are left alone.
pub proof fn law_row_is_the_last_of_the_highest(
    table: Map<PlayerId, StateView>,
    s: StateView,
    other: PlayerId,
)
    ensures
        upserted(table, s).dom().contains(s.player_id),
        !table.dom().contains(s.player_id) || s.version >= table[s.player_id].version
            ==> upserted(table, s)[s.player_id] == s,
        table.dom().contains(s.player_id) && s.version < table[s.player_id].version ==> upserted(
            table,
            s,
        )[s.player_id] == table[s.player_id],
        other != s.player_id ==> upserted(table, s).dom().contains(other) == table.dom().contains(
            other,
        ) && (table.dom().contains(other) ==> upserted(table, s)[other] == table[other]),
{
}

/// A new store is empty and accepts.
pub proof fn law_new_store_accepts(id: PlayerId)
    ensures
        !DbView::new().table.dom().contains(id),
        DbView::new().reply() is Ok,
        DbView::new().persisted == 0,
        DbView::new().latency_nanos == 0,
{
}

/// A listing of a table has each entry once and nothing else.
pub proof fn law_listing_is_complete(table: Map<PlayerId, StateView>, states: Seq<StateView>)
    requires
        table_ok(table),
        lists(table, states),
    ensures
        states.len() == table.dom().len(),
        forall|id: PlayerId| #[trigger]
            table.dom().contains(id) ==> states.contains(table[id]),
        forall|i: int|
            0 <= i < states.len() ==> table.dom().contains((#[trigger] states[i]).player_id)
                && table[states[i].player_id] == states[i],
{
    let ids = choose|ids: Seq<PlayerId>| #[trigger] lists_by(table, states, ids);
    ids.unique_seq_to_set();
    assert forall|id: PlayerId| #[trigger] table.dom().contains(id) implies states.contains(
        table[id],
    ) by {
        assert(ids.to_set().contains(id));
        let k = choose|k: int| 0 <= k < ids.len() && ids[k] == id;
        assert(states[k] == table[ids[k]]);
    }
    assert forall|i: int| 0 <= i < states.len() implies table.dom().contains(
        (#[trigger] states[i]).player_id,
    ) && table[states[i].player_id] == states[i] by {
        assert(ids.to_set().contains(ids[i]));
        assert(states[i] == table[ids[i]]);
    }
}

} // verus!
