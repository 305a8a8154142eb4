//! The write-behind cache: per-entry dirty flags and last-write-wins
//! coalescing.
//!
//! A burst of writes to one entity collapses into a single dirty entry that
//! holds the newest version. A write that is as new as the entry replaces it and
//! makes it dirty again: at worst that is one flush too many, never a lost
//! update. An older write changes nothing; above all it never makes a dirty
//! entry clean.
//!
//! A batch that could not be persisted is given back. Its states are restored
//! only over older ones; an entry of the same version is kept as it is, and only
//! made dirty again.

use crate::domain::{
    holds_player, state_views, Cache, CacheView, PlayerId, PlayerState, StateView, WriteRequest,
};
use std::collections::{HashMap, HashSet};
use vstd::prelude::*;
use vstd::std_specs::iter::IteratorSpec;

verus! {

broadcast use vstd::std_specs::hash::group_hash_axioms;

/// One entity in the cache.
struct Entry {
    /// The newest known state.
    state: PlayerState,
    /// Whether it still has to be flushed.
    dirty: bool,
}

/// The write-behind cache.
pub struct WriteBehindCache {
    /// Every entity that passed through the cache.
    map: HashMap<PlayerId, Entry>,
    /// The entities whose entries are dirty.
    dirty: HashSet<PlayerId>,
}

impl WriteBehindCache {
    /// The set of dirty entities and the flags of the entries always agree.
    pub closed spec fn inv(&self) -> bool {
        &&& self.map@.dom().finite()
        &&& self.dirty@.finite()
        &&& forall|id: PlayerId| #[trigger]
            self.dirty@.contains(id) <==> self.map@.dom().contains(id) && self.map@[id].dirty
        &&& forall|id: PlayerId| #[trigger]
            self.map@.dom().contains(id) ==> self.map@[id].state@.player_id == id
    }

    pub closed spec fn contents(&self) -> CacheView {
        CacheView {
            entries: self.map@.map_values(|entry: Entry| entry.state@),
            dirty: self.dirty@,
        }
    }

    /// Creates an empty cache.
    pub fn new() -> (cache: WriteBehindCache)
        ensures
            cache.wf(),
            cache.model() == CacheView::empty(),
    {
        let cache = WriteBehindCache { map: HashMap::new(), dirty: HashSet::new() };
        assert(cache.contents() =~= CacheView::empty());
        cache
    }

    /// Picks `n` dirty entities, in whatever order the set yields them.
    fn choose_dirty(&self, n: usize) -> (ids: Vec<PlayerId>)
        requires
            n <= self.dirty@.len(),
        ensures
            ids@.len() == n,
            ids@.no_duplicates(),
            forall|i: int| 0 <= i < n ==> self.dirty@.contains(#[trigger] ids@[i]),
    {
        let mut ids: Vec<PlayerId> = Vec::new();
        let ghost all = self.dirty.iter().remaining();
        for id in it: self.dirty.iter()
            invariant
                it.seq() == all,
                n <= all.len(),
                ids@.len() == if it.index() < n {
                    it.index()
                } else {
                    n as int
                },
                forall|j: int| 0 <= j < ids@.len() ==> #[trigger] ids@[j] == *all[j],
        {
            if ids.len() < n {
                ids.push(*id);
            }
        }
        proof {
            assert forall|i: int| 0 <= i < n implies self.dirty@.contains(#[trigger] ids@[i]) by {
                assert(all.unref()[i] == ids@[i]);
                assert(all.unref().to_set().contains(all.unref()[i]));
            }
        }
        ids
    }

    /// Takes in one state, last-write-wins.
    fn merge(&mut self, state: PlayerState)
        requires
            old(self).inv(),
        ensures
            final(self).inv(),
            final(self).contents() == old(self).contents().merged(state@),
    {
        let id: PlayerId = state.player_id;
        let stale = match self.map.get(&id) {
            Some(entry) => entry.state.version > state.version,
            None => false,
        };
        if !stale {
            self.map.insert(id, Entry { state, dirty: true });
            self.dirty.insert(id);
        }
        assert(self.contents() =~= old(self).contents().merged(state@));
    }
}

impl WriteBehindCache {
    /// Takes back one state that could not be persisted.
    fn give_back(&mut self, state: PlayerState)
        requires
            old(self).inv(),
        ensures
            final(self).inv(),
            final(self).contents() == old(self).contents().given_back(state@),
    {
        let id: PlayerId = state.player_id;
        match self.map.remove(&id) {
            None => {
                self.map.insert(id, Entry { state, dirty: true });
                self.dirty.insert(id);
            },
            Some(entry) => {
                if entry.state.version > state.version {
                    self.map.insert(id, entry);
                } else {
                    let kept = if entry.state.version < state.version {
                        state
                    } else {
                        entry.state
                    };
                    self.map.insert(id, Entry { state: kept, dirty: true });
                    self.dirty.insert(id);
                }
            },
        }
        assert(self.contents() =~= old(self).contents().given_back(state@));
    }
}

impl Default for WriteBehindCache {
    fn default() -> (cache: WriteBehindCache)
        ensures
            cache.wf(),
            cache.model() == CacheView::empty(),
    {
        WriteBehindCache::new()
    }
}

impl Cache for WriteBehindCache {
    closed spec fn model(&self) -> CacheView {
        self.contents()
    }

    closed spec fn wf(&self) -> bool {
        self.inv()
    }

    proof fn lemma_model_ok(&self) {
        let v = self.contents();
        assert(v.entries.dom() =~= self.map@.dom());
    }

    fn apply(&mut self, req: &WriteRequest) {
        self.merge(req.to_state());
    }

    fn take_dirty(&mut self, max: usize) -> (states: Vec<PlayerState>) {
        let have: usize = self.dirty.len();
        let n: usize = if max < have {
            max
        } else {
            have
        };
        let ids = self.choose_dirty(n);
        let ghost before = self.contents();
        let mut states: Vec<PlayerState> = Vec::new();
        let mut i: usize = 0;
        while i < n
            invariant
                i <= n == ids@.len(),
                ids@.no_duplicates(),
                forall|j: int| 0 <= j < n ==> before.dirty.contains(#[trigger] ids@[j]),
                self.inv(),
                self.contents().entries == before.entries,
                forall|id: PlayerId| #[trigger]
                    self.dirty@.contains(id) <==> before.dirty.contains(id) && !ids@.take(
                        i as int,
                    ).contains(id),
                self.dirty@.len() == before.dirty.len() - i,
                states@.len() == i,
                forall|j: int|
                    0 <= j < i ==> (#[trigger] states@[j])@ == before.entries[ids@[j]]
                        && states@[j]@.player_id == ids@[j],
            decreases n - i,
        {
            let id: PlayerId = ids[i];
            proof {
                assert(!ids@.take(i as int).contains(id));
                assert(self.dirty@.contains(id));
                assert(ids@.take(i + 1) =~= ids@.take(i as int).push(id));
                assert(before.entries[id] == self.map@[id].state@);
            }
            if let Some(entry) = self.map.remove(&id) {
                states.push(entry.state.clone());
                self.map.insert(id, Entry { state: entry.state, dirty: false });
            }
            self.dirty.remove(&id);
            proof {
                assert(self.contents().entries =~= before.entries);
                assert forall|other: PlayerId| #[trigger]
                    self.dirty@.contains(other) <==> before.dirty.contains(other) && !ids@.take(
                        i + 1,
                    ).contains(other) by {
                    let pushed = ids@.take(i as int).push(id);
                    if ids@.take(i as int).contains(other) {
                        let k = choose|k: int|
                            0 <= k < ids@.take(i as int).len() && ids@.take(i as int)[k] == other;
                        assert(pushed[k] == other);
                    }
                    if other == id {
                        assert(pushed[i as int] == id);
                    }
                }
            }
            i = i + 1;
        }
        proof {
            let views = state_views(states@);
            assert(ids@.take(n as int) =~= ids@);
            assert forall|id: PlayerId| holds_player(views, id) <==> ids@.contains(id) by {
                if ids@.contains(id) {
                    let k = choose|k: int| 0 <= k < ids@.len() && ids@[k] == id;
                    assert(views[k].player_id == id);
                }
                if holds_player(views, id) {
                    let k = choose|k: int|
                        0 <= k < views.len() && (#[trigger] views[k]).player_id == id;
                    assert(ids@[k] == id);
                }
            }
            assert(before.taken(views, self.contents()));
        }
        states
    }

    fn requeue_dirty(&mut self, states: Vec<PlayerState>) {
        let mut i: usize = 0;
        let ghost views = state_views(states@);
        while i < states.len()
            invariant
                i <= states@.len(),
                views == state_views(states@),
                self.inv(),
                self.contents() == old(self).contents().given_back_all(views.take(i as int)),
            decreases states@.len() - i,
        {
            assert(views.take(i + 1).drop_last() =~= views.take(i as int));
            self.give_back(states[i].clone());
            i = i + 1;
        }
        assert(views.take(i as int) =~= views);
    }

    fn get(&self, id: PlayerId) -> (state: Option<PlayerState>) {
        match self.map.get(&id) {
            Some(entry) => Some(entry.state.clone()),
            None => None,
        }
    }

    fn dirty_len(&self) -> (n: usize) {
        self.dirty.len()
    }

    fn len(&self) -> (n: usize) {
        assert(self.contents().entries.dom() =~= self.map@.dom());
        self.map.len()
    }
}

/// Merging keeps the contents in order.
pub proof fn lemma_merged_all_ok(v: CacheView, states: Seq<StateView>)
    requires
        v.ok(),
    ensures
        v.merged_all(states).ok(),
    decreases states.len(),
{
    if states.len() > 0 {
        lemma_merged_all_ok(v, states.drop_last());
    }
}

/// Merging one batch after another is merging both.
pub proof fn lemma_merged_all_concat(v: CacheView, a: Seq<StateView>, b: Seq<StateView>)
    ensures
        v.merged_all(a + b) == v.merged_all(a).merged_all(b),
    decreases b.len(),
{
    if b.len() == 0 {
        assert(a + b =~= a);
    } else {
        assert((a + b).drop_last() =~= a + b.drop_last());
        lemma_merged_all_concat(v, a, b.drop_last());
    }
}

/// No write makes a cached version go back, loses an entry, or makes a dirty
/// entry clean.
pub proof fn law_writes_never_go_back(v: CacheView, states: Seq<StateView>, id: PlayerId)
    requires
        v.ok(),
    ensures
        v.entries.dom().contains(id) ==> v.merged_all(states).entries.dom().contains(id)
            && v.merged_all(states).entries[id].version >= v.entries[id].version,
        v.dirty.contains(id) ==> v.merged_all(states).dirty.contains(id),
    decreases states.len(),
{
    if states.len() > 0 {
        law_writes_never_go_back(v, states.drop_last(), id);
        lemma_merged_all_ok(v, states.drop_last());
    }
}

/// Every write is in the cache afterwards, in its own version or a newer one;
/// and where it is newer than what the cache held before, it is dirty.
pub proof fn law_no_write_is_forgotten(v: CacheView, states: Seq<StateView>, i: int)
    requires
        v.ok(),
        0 <= i < states.len(),
    ensures
        ({
            let after = v.merged_all(states);
            let id = states[i].player_id;
            &&& after.entries.dom().contains(id)
            &&& after.entries[id].version >= states[i].version
            &&& v.accepts(states[i]) ==> after.dirty.contains(id)
        }),
    decreases states.len(),
{
    let init = states.drop_last();
    lemma_merged_all_ok(v, init);
    if i < init.len() {
        law_no_write_is_forgotten(v, init, i);
        assert(init[i] == states[i]);
    } else {
        let id = states[i].player_id;
        law_writes_never_go_back(v, init, id);
        let mid = v.merged_all(init);
        if !mid.accepts(states[i]) && v.accepts(states[i]) {
            lemma_newer_is_dirty(v, init, id);
        }
    }
}

/// An entry that changed is dirty.
proof fn lemma_newer_is_dirty(v: CacheView, states: Seq<StateView>, id: PlayerId)
    requires
        v.ok(),
        v.merged_all(states).entries.dom().contains(id),
        !v.entries.dom().contains(id) || v.merged_all(states).entries[id] != v.entries[id],
    ensures
        v.merged_all(states).dirty.contains(id),
    decreases states.len(),
{
    if states.len() > 0 {
        let init = states.drop_last();
        let mid = v.merged_all(init);
        if mid.entries.dom().contains(id) && (!v.entries.dom().contains(id) || mid.entries[id]
            != v.entries[id]) {
            lemma_newer_is_dirty(v, init, id);
        }
    }
}

/// Last-write-wins: what the cache holds for an entity after a run of writes is
/// the one with the highest version, and the last of them if several have it;
/// or what it held before, if every write was older.
pub proof fn law_last_write_wins(v: CacheView, states: Seq<StateView>, id: PlayerId)
    requires
        v.ok(),
        holds_player(states, id),
    ensures
        v.merged_all(states).entries.dom().contains(id),
        ({
            let held = v.merged_all(states).entries[id];
            ||| exists|k: int| #[trigger] wins_at(states, id, k) && states[k] == held
            ||| {
                &&& v.entries.dom().contains(id)
                &&& held == v.entries[id]
                &&& forall|j: int|
                    0 <= j < states.len() && (#[trigger] states[j]).player_id == id
                        ==> states[j].version < held.version
            }
        }),
    decreases states.len(),
{
    let init = states.drop_last();
    let last = states.last();
    let mid = v.merged_all(init);
    let held = v.merged_all(states).entries[id];
    lemma_merged_all_ok(v, init);
    assert forall|j: int| 0 <= j < init.len() implies init[j] == states[j] by {}
    if last.player_id == id && mid.accepts(last) {
        assert forall|j: int| 0 <= j < states.len() - 1 && (#[trigger] states[j]).player_id
            == id implies states[j].version <= last.version by {
            law_no_write_is_forgotten(v, init, j);
        }
        assert(wins_at(states, id, states.len() - 1));
    } else {
        if !holds_player(init, id) {
            let k = choose|k: int|
                0 <= k < states.len() && (#[trigger] states[k]).player_id == id;
            assert(k == states.len() - 1) by {
                if k < init.len() {
                    assert(init[k].player_id == id);
                }
            }
            lemma_untouched(v, init, id);
        } else {
            law_last_write_wins(v, init, id);
            if exists|k: int| #[trigger] wins_at(init, id, k) && init[k] == held {
                let k = choose|k: int| #[trigger] wins_at(init, id, k) && init[k] == held;
                assert(wins_at(states, id, k));
            }
        }
    }
}

/// Whether the `k`-th of `states` wins for `id`: none before it is newer, and
/// every later one is older.
pub open spec fn wins_at(states: Seq<StateView>, id: PlayerId, k: int) -> bool {
    &&& 0 <= k < states.len()
    &&& states[k].player_id == id
    &&& forall|j: int|
        0 <= j < k && (#[trigger] states[j]).player_id == id ==> states[j].version
            <= states[k].version
    &&& forall|j: int|
        k < j < states.len() && (#[trigger] states[j]).player_id == id ==> states[j].version
            < states[k].version
}

/// Writes to other entities leave an entry alone.
pub proof fn lemma_untouched(v: CacheView, states: Seq<StateView>, id: PlayerId)
    requires
        !holds_player(states, id),
    ensures
        v.merged_all(states).entries.dom().contains(id) == v.entries.dom().contains(id),
        v.entries.dom().contains(id) ==> v.merged_all(states).entries[id] == v.entries[id],
        v.merged_all(states).dirty.contains(id) == v.dirty.contains(id),
    decreases states.len(),
{
    if states.len() > 0 {
        let init = states.drop_last();
        assert(states[states.len() - 1].player_id != id);
        if holds_player(init, id) {
            let k = choose|k: int| 0 <= k < init.len() && (#[trigger] init[k]).player_id == id;
            assert(states[k].player_id == id);
        }
        lemma_untouched(v, init, id);
    }
}

/// Giving states back keeps the contents in order.
pub proof fn lemma_given_back_all_ok(v: CacheView, states: Seq<StateView>)
    requires
        v.ok(),
    ensures
        v.given_back_all(states).ok(),
    decreases states.len(),
{
    if states.len() > 0 {
        lemma_given_back_all_ok(v, states.drop_last());
    }
}

/// Giving states back of other entities leaves an entry alone.
pub proof fn lemma_not_given_back(v: CacheView, states: Seq<StateView>, id: PlayerId)
    requires
        !holds_player(states, id),
    ensures
        v.given_back_all(states).entries.dom().contains(id) == v.entries.dom().contains(id),
        v.entries.dom().contains(id) ==> v.given_back_all(states).entries[id] == v.entries[id],
        v.given_back_all(states).dirty.contains(id) == v.dirty.contains(id),
    decreases states.len(),
{
    if states.len() > 0 {
        let init = states.drop_last();
        assert(states[states.len() - 1].player_id != id);
        if holds_player(init, id) {
            let k = choose|k: int| 0 <= k < init.len() && (#[trigger] init[k]).player_id == id;
            assert(states[k].player_id == id);
        }
        lemma_not_given_back(v, init, id);
    }
}

/// Giving states back makes no cached version go back, loses no entry, makes no
/// dirty entry clean, and replaces a cached state only by one of a higher
/// version.
pub proof fn law_giving_back_overwrites_only_older_states(
    v: CacheView,
    states: Seq<StateView>,
    id: PlayerId,
)
    requires
        v.ok(),
    ensures
        v.entries.dom().contains(id) ==> {
            let after = v.given_back_all(states);
            &&& after.entries.dom().contains(id)
            &&& after.entries[id] == v.entries[id] || after.entries[id].version
                > v.entries[id].version
        },
        v.dirty.contains(id) ==> v.given_back_all(states).dirty.contains(id),
    decreases states.len(),
{
    if states.len() > 0 {
        law_giving_back_overwrites_only_older_states(v, states.drop_last(), id);
        lemma_given_back_all_ok(v, states.drop_last());
    }
}

/// Every state that is given back is in the cache afterwards, in its own version
/// or a newer one; and where the cache held nothing newer before, it is dirty.
pub proof fn law_no_state_given_back_is_forgotten(v: CacheView, states: Seq<StateView>, i: int)
    requires
        v.ok(),
        0 <= i < states.len(),
    ensures
        ({
            let after = v.given_back_all(states);
            let id = states[i].player_id;
            &&& after.entries.dom().contains(id)
            &&& after.entries[id].version >= states[i].version
            &&& v.accepts(states[i]) ==> after.dirty.contains(id)
        }),
    decreases states.len(),
{
    let init = states.drop_last();
    lemma_given_back_all_ok(v, init);
    if i < init.len() {
        law_no_state_given_back_is_forgotten(v, init, i);
        assert(init[i] == states[i]);
    } else {
        let id = states[i].player_id;
        law_giving_back_overwrites_only_older_states(v, init, id);
        let mid = v.given_back_all(init);
        if !mid.accepts(states[i]) && v.accepts(states[i]) {
            lemma_restored_is_dirty(v, init, id);
        }
    }
}

/// An entry that was restored is dirty.
pub proof fn lemma_restored_is_dirty(v: CacheView, states: Seq<StateView>, id: PlayerId)
    requires
        v.ok(),
        v.given_back_all(states).entries.dom().contains(id),
        !v.entries.dom().contains(id) || v.given_back_all(states).entries[id] != v.entries[id],
    ensures
        v.given_back_all(states).dirty.contains(id),
    decreases states.len(),
{
    if states.len() > 0 {
        let init = states.drop_last();
        let mid = v.given_back_all(init);
        if mid.entries.dom().contains(id) && (!v.entries.dom().contains(id) || mid.entries[id]
            != v.entries[id]) {
            lemma_restored_is_dirty(v, init, id);
        }
    }
}

/// Giving back states none of which is newer than what the cache holds leaves
/// every entry as it is, payload and all.
pub proof fn law_giving_back_keeps_entries(v: CacheView, states: Seq<StateView>)
    requires
        forall|i: int|
            0 <= i < states.len() ==> v.entries.dom().contains((#[trigger] states[i]).player_id)
                && states[i].version <= v.entries[states[i].player_id].version,
    ensures
        v.given_back_all(states).entries == v.entries,
    decreases states.len(),
{
    if states.len() > 0 {
        let init = states.drop_last();
        assert forall|i: int| 0 <= i < init.len() implies v.entries.dom().contains(
            (#[trigger] init[i]).player_id,
        ) && init[i].version <= v.entries[init[i].player_id].version by {
            assert(init[i] == states[i]);
        }
        law_giving_back_keeps_entries(v, init);
        let last = states[states.len() - 1];
        assert(v.entries.dom().contains(last.player_id));
    }
}

/// Giving back what was taken, with nothing written in between, restores the
/// cache.
pub proof fn law_requeue_undoes_take(v: CacheView, states: Seq<StateView>, taken: CacheView)
    requires
        v.ok(),
        v.taken(states, taken),
    ensures
        taken.given_back_all(states) == v,
{
    let back = taken.given_back_all(states);
    assert(taken.dirty.subset_of(v.dirty));
    assert(taken.ok());
    law_giving_back_keeps_entries(taken, states);
    assert forall|id: PlayerId| back.dirty.contains(id) == v.dirty.contains(id) by {
        if holds_player(states, id) {
            let k = choose|k: int|
                0 <= k < states.len() && (#[trigger] states[k]).player_id == id;
            law_no_state_given_back_is_forgotten(taken, states, k);
        } else {
            lemma_not_given_back(taken, states, id);
        }
    }
    assert(back.dirty =~= v.dirty);
}

/// A flush that fails loses nothing: after a batch was taken, further writes
/// came in, and the batch was given back, every entity that was dirty before is
/// dirty again, in the state that the writes alone would have left it in.
pub proof fn law_failed_flush_loses_nothing(
    v: CacheView,
    batch: Seq<StateView>,
    taken: CacheView,
    writes: Seq<StateView>,
    id: PlayerId,
)
    requires
        v.ok(),
        v.taken(batch, taken),
        v.dirty.contains(id),
    ensures
        ({
            let after = taken.merged_all(writes).given_back_all(batch);
            &&& after.dirty.contains(id)
            &&& after.entries == v.merged_all(writes).entries
            &&& after.entries[id].version >= v.entries[id].version
        }),
{
    let live = taken.merged_all(writes);
    assert(taken.dirty.subset_of(v.dirty));
    assert(taken.ok());
    lemma_merged_all_ok(taken, writes);
    lemma_same_entries(v, taken, writes);
    law_writes_never_go_back(taken, writes, id);
    law_giving_back_overwrites_only_older_states(live, batch, id);
    assert forall|i: int| 0 <= i < batch.len() implies live.entries.dom().contains(
        (#[trigger] batch[i]).player_id,
    ) && batch[i].version <= live.entries[batch[i].player_id].version by {
        assert(v.dirty.contains(batch[i].player_id));
        law_writes_never_go_back(taken, writes, batch[i].player_id);
    }
    law_giving_back_keeps_entries(live, batch);
    if holds_player(batch, id) {
        let k = choose|k: int| 0 <= k < batch.len() && (#[trigger] batch[k]).player_id == id;
        if live.entries[id] != taken.entries[id] {
            lemma_newer_is_dirty(taken, writes, id);
        } else {
            law_no_state_given_back_is_forgotten(live, batch, k);
        }
    }
}

/// What writes make of the entries does not depend on which are dirty.
proof fn lemma_same_entries(v: CacheView, w: CacheView, states: Seq<StateView>)
    requires
        v.entries == w.entries,
    ensures
        v.merged_all(states).entries == w.merged_all(states).entries,
    decreases states.len(),
{
    if states.len() > 0 {
        lemma_same_entries(v, w, states.drop_last());
    }
}

} // verus!
