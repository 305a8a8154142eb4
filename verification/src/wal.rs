//! The write-ahead log: the durability boundary.
//!
//! The log is append-only, protected by CRCs and recoverable after a hard kill.
//! This module decides what is written, in which order, and what a segment found
//! on disk means. The file operations are [`FileStep`]s: a [`Plan`] lists them
//! together with the bookkeeping that holds once all of them have succeeded.
//!
//! * An append hands every frame to the operating system and, in the
//!   strong-durability mode, forces them to stable storage before it counts.
//! * A checkpoint writes the records that are still needed into a fresh segment,
//!   forces it to stable storage and only then renames it over the active one.
//! * Recovery keeps what is readable and cuts off the rest.

use crate::disk::{
    after_steps, may_survive, step_views, Disk, FileStep, Files, StepView,
};
use crate::domain::{frame, record_views, Lsn, RecordView, WalRecord};
use crate::segment::{
    all_fit, decode_segment, frames, good_end, header, header_magic,
    law_readable_front_ends_with_the_last_record, law_recovery_is_idempotent,
    law_recovery_returns_what_was_appended,
    law_scan_stops_at_first_bad_frame, law_torn_segment_recovers_whole_records,
    lemma_frames_concat, lemma_header_len, recovered, segment, whole_frames, HEADER_LEN,
};
use vstd::prelude::*;

verus! {

/// The active segment belongs to something else: its header is not that of a
/// log segment.
#[derive(Debug, Clone, Copy, PartialEq, Eq, Structural)]
pub struct ForeignSegment;

impl ForeignSegment {
    /// The error as a line of text.
    pub fn message(&self) -> (text: String)
        ensures
            text@ == "WAL segment header magic mismatch (not a FLUXWAL1 file)"@,
    {
        "WAL segment header magic mismatch (not a FLUXWAL1 file)".to_owned()
    }
}

/// The bookkeeping of an open log.
#[derive(Debug, Clone, Copy, PartialEq, Eq, Structural)]
pub struct Wal {
    /// Whether an append forces its data to stable storage.
    fsync: bool,
    /// Offset of the next append.
    write_offset: u64,
    /// Highest sequence number appended so far; 0 if there is none.
    last_lsn: Lsn,
}

/// A [`Wal`] as its callers see it.
pub struct WalView {
    pub fsync: bool,
    pub write_offset: u64,
    pub last_lsn: Lsn,
}

impl View for Wal {
    type V = WalView;

    closed spec fn view(&self) -> WalView {
        WalView { fsync: self.fsync, write_offset: self.write_offset, last_lsn: self.last_lsn }
    }
}

/// File operations, and the log once all of them have succeeded.
#[derive(Debug, PartialEq, Eq)]
pub struct Plan {
    pub steps: Vec<FileStep>,
    pub next: Wal,
}

/// The highest of `floor` and the sequence numbers of `records`.
pub open spec fn highest_lsn(floor: Lsn, records: Seq<RecordView>) -> Lsn
    decreases records.len(),
{
    if records.len() == 0 {
        floor
    } else {
        let below = highest_lsn(floor, records.drop_last());
        if records.last().lsn > below {
            records.last().lsn
        } else {
            below
        }
    }
}

/// The records that a checkpoint up to `up_to` keeps.
pub open spec fn survivors(records: Seq<RecordView>, up_to: Lsn) -> Seq<RecordView>
    decreases records.len(),
{
    if records.len() == 0 {
        Seq::empty()
    } else if records.last().lsn > up_to {
        survivors(records.drop_last(), up_to).push(records.last())
    } else {
        survivors(records.drop_last(), up_to)
    }
}

/// The steps of an append: every frame, then the buffer, then stable storage.
pub open spec fn append_steps(records: Seq<RecordView>, fsync: bool) -> Seq<StepView> {
    if records.len() == 0 {
        Seq::empty()
    } else {
        Seq::new(records.len(), |i: int| StepView::Append(frame(records[i]))).push(
            StepView::Drain,
        ) + if fsync {
            seq![StepView::SyncActive]
        } else {
            Seq::empty()
        }
    }
}

/// The steps of a checkpoint of the segment `image`: the fresh segment is
/// written and on stable storage before it takes the place of the active one.
pub open spec fn checkpoint_steps(image: Seq<u8>, up_to: Lsn) -> Seq<StepView> {
    let fresh = segment(survivors(recovered(image), up_to));
    seq![
        StepView::WriteTemp(fresh),
        StepView::SyncTemp,
        StepView::RenameTemp,
        StepView::SyncDirectory,
        StepView::ReopenAt(fresh.len()),
    ]
}

/// The steps of a recovery of the segment `image`: cut off what is unreadable,
/// if anything is.
pub open spec fn recover_steps(image: Seq<u8>) -> Seq<StepView> {
    if good_end(image) < image.len() {
        seq![
            StepView::Truncate(good_end(image)),
            StepView::SyncActive,
            StepView::SyncDirectory,
            StepView::ReopenAt(good_end(image)),
        ]
    } else {
        Seq::empty()
    }
}

/// The steps of opening a segment of `existing_len` bytes.
pub open spec fn open_steps(existing_len: u64) -> Seq<StepView> {
    if existing_len < HEADER_LEN {
        seq![
            StepView::WriteFront(header()),
            StepView::SyncActive,
            StepView::ReopenAt(HEADER_LEN as nat),
        ]
    } else {
        seq![StepView::ReopenAt(existing_len as nat)]
    }
}

/// Whether steps leave the writer at the end of the active segment, which is at
/// offset `at`, with nothing in its buffer.
pub open spec fn left_ready(f: Files, steps: Seq<StepView>, at: nat) -> bool {
    f.after(steps).ready() && f.after(steps).point == at
}

/// Whether these steps open a segment of `len` bytes, for appends from `at` on: the
/// writer is at its end, and it holds the records that it held.
pub open spec fn opens_well(len: nat, steps: Seq<StepView>, at: nat) -> bool {
    forall|f: Files|
        f.disk.active.len() == len ==> #[trigger] left_ready(f, steps, at) && recovered(
            f.after(steps).disk.active,
        ) == recovered(f.disk.active)
}

/// Whether these steps append `batch` to a log, for further appends from `at` on:
/// the writer is at the end of the segment, which holds the records that it held
/// and then those, on stable storage if that is asked for.
pub open spec fn appends_well(
    log: WalView,
    batch: Seq<RecordView>,
    steps: Seq<StepView>,
    at: nat,
) -> bool {
    forall|f: Files, old: Seq<RecordView>|
        #![trigger f.after(steps), segment(old)]
        f.ready() && f.disk.active == segment(old) && f.point == log.write_offset ==> {
            let e = f.after(steps).disk;
            &&& left_ready(f, steps, at)
            &&& e.active == segment(old + batch)
            &&& log.fsync && batch.len() > 0 ==> e.synced == e.active.len()
        }
}

/// Whether these steps checkpoint the segment `image`, for appends from `at` on:
/// the writer is at the end of a segment that holds the records above `up_to`, and
/// all of that is on stable storage.
pub open spec fn checkpoints_well(
    image: Seq<u8>,
    up_to: Lsn,
    steps: Seq<StepView>,
    at: nat,
) -> bool {
    forall|f: Files|
        f.disk.active == image ==> {
            let e = f.after(steps).disk;
            &&& #[trigger] left_ready(f, steps, at)
            &&& recovered(e.active) == recovered(image).filter(|r: RecordView| r.lsn > up_to)
            &&& e.synced == e.active.len()
            &&& e.replaced is None
        }
}

/// Whether these steps leave the segment `image` with `records`, for appends from
/// `at` on: the writer is at the end of a segment that holds those and nothing
/// else.
pub open spec fn recovers_well(
    image: Seq<u8>,
    records: Seq<RecordView>,
    steps: Seq<StepView>,
    at: nat,
) -> bool {
    forall|f: Files|
        f.disk.active == image && f.ready() ==> {
            let e = f.after(steps).disk;
            &&& #[trigger] left_ready(f, steps, at)
            &&& recovered(e.active) == records
            &&& image.len() >= HEADER_LEN && image.take(8) == header() ==> e.active == segment(
                records,
            )
        }
}

/// The steps of a flush: the buffer, then stable storage.
pub open spec fn flush_steps() -> Seq<StepView> {
    seq![StepView::Drain, StepView::SyncActive]
}

/// Where the first append goes after opening a segment of `existing_len` bytes.
pub open spec fn open_offset(existing_len: u64) -> u64 {
    if existing_len < HEADER_LEN {
        HEADER_LEN
    } else {
        existing_len
    }
}

impl Wal {
    /// Opens the log on an active segment that holds `existing_len` bytes and
    /// begins with `head`.
    ///
    /// A segment too short for a header gets one; one with another header is
    /// refused. The log is not replayed: see [`Wal::recover`].
    pub fn open(existing_len: u64, head: &[u8], fsync: bool) -> (result: Result<
        Plan,
        ForeignSegment,
    >)
        requires
            existing_len >= HEADER_LEN ==> head@.len() >= HEADER_LEN,
        ensures
            result is Ok <==> existing_len < HEADER_LEN || head@.take(8) == header(),
            result matches Ok(plan) ==> step_views(plan.steps@) == open_steps(existing_len)
                && plan.next@ == (WalView {
                fsync,
                write_offset: if existing_len < HEADER_LEN {
                    HEADER_LEN
                } else {
                    existing_len
                },
                last_lsn: 0,
            }),
            result matches Ok(plan) ==> opens_well(
                existing_len as nat,
                step_views(plan.steps@),
                plan.next@.write_offset as nat,
            ),
    {
        proof {
            lemma_opens_well(existing_len);
        }
        let mut steps: Vec<FileStep> = Vec::new();
        if existing_len < HEADER_LEN {
            steps.push(FileStep::WriteFront(header_magic()));
            steps.push(FileStep::SyncActive);
            steps.push(FileStep::ReopenAt(HEADER_LEN));
            assert(step_views(steps@) =~= open_steps(existing_len));
            Ok(Plan { steps, next: Wal { fsync, write_offset: HEADER_LEN, last_lsn: 0 } })
        } else if crate::segment::has_header(head) {
            steps.push(FileStep::ReopenAt(existing_len));
            assert(step_views(steps@) =~= open_steps(existing_len));
            Ok(Plan { steps, next: Wal { fsync, write_offset: existing_len, last_lsn: 0 } })
        } else {
            Err(ForeignSegment)
        }
    }

    /// Whether an append forces its data to stable storage.
    pub fn fsync(&self) -> (yes: bool)
        ensures
            yes == self@.fsync,
    {
        self.fsync
    }

    /// Offset of the next append.
    pub fn write_offset(&self) -> (at: u64)
        ensures
            at == self@.write_offset,
    {
        self.write_offset
    }

    /// Highest sequence number appended so far; 0 if there is none.
    pub fn last_lsn(&self) -> (lsn: Lsn)
        ensures
            lsn == self@.last_lsn,
    {
        self.last_lsn
    }

    /// Appends each record as a frame.
    ///
    /// The highest sequence number that is then durable is the `last_lsn` of the
    /// log that follows. An empty batch changes nothing.
    pub fn append_batch(&self, records: &[WalRecord]) -> (plan: Plan)
        requires
            self@.write_offset + frames(record_views(records@)).len() <= u64::MAX,
        ensures
            step_views(plan.steps@) == append_steps(record_views(records@), self@.fsync),
            plan.next@ == (WalView {
                fsync: self@.fsync,
                write_offset: (self@.write_offset + frames(record_views(records@)).len()) as u64,
                last_lsn: highest_lsn(self@.last_lsn, record_views(records@)),
            }),
            appends_well(
                self@,
                record_views(records@),
                step_views(plan.steps@),
                plan.next@.write_offset as nat,
            ),
            forall|i: int|
                0 <= i < records@.len() ==> (#[trigger] records@[i]).lsn <= plan.next@.last_lsn,
            plan.next@.last_lsn >= self@.last_lsn,
            plan.next@.last_lsn == self@.last_lsn || exists|i: int|
                0 <= i < records@.len() && (#[trigger] records@[i]).lsn == plan.next@.last_lsn,
    {
        let ghost views = record_views(records@);
        let mut steps: Vec<FileStep> = Vec::new();
        let mut next: Wal = *self;
        let mut i: usize = 0;
        while i < records.len()
            invariant
                i <= records@.len(),
                views == record_views(records@),
                steps@.len() == i,
                forall|j: int| 0 <= j < i ==> (#[trigger] steps@[j])@ == StepView::Append(
                    frame(views[j]),
                ),
                next.fsync == self.fsync,
                next.write_offset == self.write_offset + frames(views.take(i as int)).len(),
                next.last_lsn == highest_lsn(self.last_lsn, views.take(i as int)),
                self.write_offset + frames(views).len() <= u64::MAX,
            decreases records@.len() - i,
        {
            let bytes = records[i].encode();
            proof {
                let through = views.take(i + 1);
                assert(through.drop_last() =~= views.take(i as int));
                assert(through + views.skip(i + 1) =~= views);
                lemma_frames_concat(through, views.skip(i + 1));
            }
            next.write_offset = next.write_offset + bytes.len() as u64;
            if records[i].lsn > next.last_lsn {
                next.last_lsn = records[i].lsn;
            }
            steps.push(FileStep::Append(bytes));
            i = i + 1;
        }
        assert(views.take(i as int) =~= views);
        if records.len() > 0 {
            steps.push(FileStep::Drain);
            if self.fsync {
                steps.push(FileStep::SyncActive);
            }
        }
        assert(step_views(steps@) =~= append_steps(views, self@.fsync));
        proof {
            lemma_appends_well(self@, views);
            law_highest_is_the_highest(self.last_lsn, views);
            assert forall|j: int| 0 <= j < records@.len() implies (#[trigger] records@[j]).lsn
                <= next.last_lsn by {
                assert(views[j].lsn == records@[j].lsn);
            }
            if next.last_lsn != self.last_lsn {
                let j = choose|j: int|
                    0 <= j < views.len() && (#[trigger] views[j]).lsn == next.last_lsn;
                assert(records@[j].lsn == next.last_lsn);
            }
        }
        Plan { steps, next }
    }

    /// Discards the records up to `up_to_lsn`, which the store holds, from the
    /// segment whose content is `image`.
    pub fn checkpoint(&self, image: &[u8], up_to_lsn: Lsn) -> (plan: Plan)
        ensures
            step_views(plan.steps@) == checkpoint_steps(image@, up_to_lsn),
            plan.next@ == (WalView {
                fsync: self@.fsync,
                write_offset: segment(survivors(recovered(image@), up_to_lsn)).len() as u64,
                last_lsn: highest_lsn(up_to_lsn, survivors(recovered(image@), up_to_lsn)),
            }),
            checkpoints_well(
                image@,
                up_to_lsn,
                step_views(plan.steps@),
                plan.next@.write_offset as nat,
            ),
    {
        let (records, _) = decode_segment(image);
        let ghost views = record_views(records@);
        let mut fresh = header_magic();
        let mut last_lsn: Lsn = up_to_lsn;
        let mut i: usize = 0;
        assert(segment(survivors(views.take(0), up_to_lsn)) =~= header());
        while i < records.len()
            invariant
                i <= records@.len(),
                views == record_views(records@),
                fresh@ == segment(survivors(views.take(i as int), up_to_lsn)),
                last_lsn == highest_lsn(up_to_lsn, survivors(views.take(i as int), up_to_lsn)),
            decreases records@.len() - i,
        {
            proof {
                let through = views.take(i + 1);
                assert(through.drop_last() =~= views.take(i as int));
            }
            let ghost kept = survivors(views.take(i as int), up_to_lsn);
            if records[i].lsn > up_to_lsn {
                let bytes = records[i].encode();
                fresh.extend_from_slice(bytes.as_slice());
                proof {
                    assert(kept.push(views[i as int]).drop_last() =~= kept);
                    assert(fresh@ =~= segment(kept.push(views[i as int])));
                }
                if records[i].lsn > last_lsn {
                    last_lsn = records[i].lsn;
                }
            }
            i = i + 1;
        }
        assert(views.take(i as int) =~= views);
        let write_offset: u64 = fresh.len() as u64;
        let next = Wal { fsync: self.fsync, write_offset, last_lsn };
        let mut steps: Vec<FileStep> = Vec::new();
        steps.push(FileStep::WriteTemp(fresh));
        steps.push(FileStep::SyncTemp);
        steps.push(FileStep::RenameTemp);
        steps.push(FileStep::SyncDirectory);
        steps.push(FileStep::ReopenAt(write_offset));
        assert(step_views(steps@) =~= checkpoint_steps(image@, up_to_lsn));
        proof {
            lemma_checkpoints_well(image@, up_to_lsn);
        }
        Plan { steps, next }
    }

    /// Replays the segment whose content is `image`, up to the first torn or
    /// corrupt frame, and cuts off what follows.
    pub fn recover(&self, image: &[u8]) -> (result: (Vec<WalRecord>, Plan))
        ensures
            record_views(result.0@) == recovered(image@),
            step_views(result.1.steps@) == recover_steps(image@),
            result.1.next@ == (WalView {
                fsync: self@.fsync,
                write_offset: good_end(image@) as u64,
                last_lsn: highest_lsn(0, recovered(image@)),
            }),
            recovers_well(
                image@,
                record_views(result.0@),
                step_views(result.1.steps@),
                result.1.next@.write_offset as nat,
            ),
            forall|i: int|
                0 <= i < result.0@.len() ==> (#[trigger] result.0@[i]).lsn
                    <= result.1.next@.last_lsn,
    {
        let (records, end) = decode_segment(image);
        let ghost views = record_views(records@);
        let mut steps: Vec<FileStep> = Vec::new();
        if end < image.len() as u64 {
            steps.push(FileStep::Truncate(end));
            steps.push(FileStep::SyncActive);
            steps.push(FileStep::SyncDirectory);
            steps.push(FileStep::ReopenAt(end));
        }
        proof {
            law_recovery_is_idempotent(image@);
            assert(step_views(steps@) =~= recover_steps(image@));
        }
        let mut last_lsn: Lsn = 0;
        let mut i: usize = 0;
        while i < records.len()
            invariant
                i <= records@.len(),
                views == record_views(records@),
                last_lsn == highest_lsn(0, views.take(i as int)),
            decreases records@.len() - i,
        {
            assert(views.take(i + 1).drop_last() =~= views.take(i as int));
            if records[i].lsn > last_lsn {
                last_lsn = records[i].lsn;
            }
            i = i + 1;
        }
        assert(views.take(i as int) =~= views);
        let next = Wal { fsync: self.fsync, write_offset: end, last_lsn };
        proof {
            lemma_recovers_well(image@);
            law_highest_is_the_highest(0, views);
            assert forall|j: int| 0 <= j < records@.len() implies (#[trigger] records@[j]).lsn
                <= next.last_lsn by {
                assert(views[j].lsn == records@[j].lsn);
            }
        }
        (records, Plan { steps, next })
    }

    /// Forces all that was appended to stable storage.
    pub fn flush(&self) -> (steps: Vec<FileStep>)
        ensures
            step_views(steps@) == seq![StepView::Drain, StepView::SyncActive],
            step_views(steps@) == flush_steps(),
            forall|f: Files|
                !f.detached ==> {
                    let e = #[trigger] f.after(step_views(steps@));
                    &&& e.disk.active == f.drained().active
                    &&& e.disk.synced == e.disk.active.len()
                    &&& e.buffer.len() == 0
                },
    {
        let mut steps: Vec<FileStep> = Vec::new();
        steps.push(FileStep::Drain);
        steps.push(FileStep::SyncActive);
        proof {
            assert(step_views(steps@) =~= flush_steps());
            assert(step_views(steps@) =~= seq![StepView::Drain, StepView::SyncActive]);
            assert forall|f: Files| !f.detached implies {
                let e = #[trigger] f.after(step_views(steps@));
                &&& e.disk.active == f.drained().active
                &&& e.disk.synced == e.disk.active.len()
                &&& e.buffer.len() == 0
            } by {
                lemma_after_flush(f);
            }
        }
        steps
    }
}

proof fn lemma_whole_frames_monotone(records: Seq<RecordView>, j: int, k: int)
    requires
        0 <= j <= records.len(),
        frames(records.take(j)).len() <= k,
    ensures
        whole_frames(records, k) >= j,
    decreases records.len(),
{
    if records.len() > 0 && frames(records).len() > k {
        if j == records.len() {
            assert(records.take(j) =~= records);
        } else {
            assert(records.drop_last().take(j) =~= records.take(j));
            lemma_whole_frames_monotone(records.drop_last(), j, k);
        }
    }
}

/// The files after the first `i` steps of an append.
proof fn lemma_after_append(d: Disk, old: Seq<RecordView>, batch: Seq<RecordView>, fsync: bool, i: int)
    requires
        d.active == segment(old),
        0 <= i <= append_steps(batch, fsync).len(),
    ensures
        ({
            let m = if i < batch.len() {
                i
            } else {
                batch.len() as int
            };
            let e = after_steps(d, append_steps(batch, fsync).take(i));
            &&& e.active == segment(old + batch.take(m))
            &&& e.synced == if i == batch.len() + 2 {
                e.active.len()
            } else {
                d.synced
            }
            &&& e.replaced == d.replaced
        }),
    decreases i,
{
    lemma_header_len();
    let steps = append_steps(batch, fsync);
    if i == 0 {
        assert(old + batch.take(0) =~= old);
    } else {
        lemma_after_append(d, old, batch, fsync, i - 1);
        assert(steps.take(i).drop_last() =~= steps.take(i - 1));
        assert(steps.take(i).last() == steps[i - 1]);
        if i <= batch.len() {
            let before = old + batch.take(i - 1);
            let after = old + batch.take(i);
            assert(after.drop_last() =~= before);
            assert(after.last() == batch[i - 1]);
            assert(segment(before) + frame(batch[i - 1]) =~= segment(after));
        }
    }
}

/// A crash at any moment of an append leaves a segment that recovers to the
/// records that were there and the first few of the batch, each entirely or not
/// at all; at the least to those that were on stable storage before.
#[verifier::rlimit(30)]
#[verifier::spinoff_prover]
pub proof fn law_crash_during_append_loses_nothing_stable(
    d: Disk,
    old: Seq<RecordView>,
    stable: int,
    batch: Seq<RecordView>,
    fsync: bool,
    i: int,
    image: Seq<u8>,
)
    requires
        all_fit(old + batch),
        d.active == segment(old),
        0 <= stable <= old.len(),
        d.synced == segment(old.take(stable)).len(),
        d.replaced is None,
        0 <= i <= append_steps(batch, fsync).len(),
        may_survive(after_steps(d, append_steps(batch, fsync).take(i)), image),
    ensures
        exists|n: int|
            stable <= n <= old.len() + batch.len() && recovered(image) == #[trigger] (old
                + batch).take(n),
{
    lemma_header_len();
    let m = if i < batch.len() {
        i
    } else {
        batch.len() as int
    };
    let e = after_steps(d, append_steps(batch, fsync).take(i));
    let all = old + batch;
    let there = old + batch.take(m);
    lemma_after_append(d, old, batch, fsync, i);
    assert(all_fit(there)) by {
        assert forall|j: int| 0 <= j < there.len() implies (#[trigger] there[j]).fits() by {
            assert(there[j] == all[j]);
        }
    }
    assert(there.take(stable) =~= old.take(stable));
    assert(there =~= there.take(stable) + there.skip(stable));
    lemma_frames_concat(there.take(stable), there.skip(stable));
    let k = choose|k: int| e.synced <= k <= e.active.len() && image == #[trigger] e.active.take(k);
    law_torn_segment_recovers_whole_records(there, k - 8);
    lemma_whole_frames_monotone(there, stable, k - 8);
    let n = whole_frames(there, k - 8);
    assert(there.take(n) =~= all.take(n));
}

/// Once an append with forced writes is done, a crash leaves all of it.
pub proof fn law_finished_append_survives_a_crash(
    d: Disk,
    old: Seq<RecordView>,
    batch: Seq<RecordView>,
    image: Seq<u8>,
)
    requires
        all_fit(old + batch),
        d.active == segment(old),
        batch.len() > 0,
        d.replaced is None,
        may_survive(after_steps(d, append_steps(batch, true)), image),
    ensures
        recovered(image) == old + batch,
{
    lemma_header_len();
    let steps = append_steps(batch, true);
    assert(steps.take(steps.len() as int) =~= steps);
    lemma_after_append(d, old, batch, true, steps.len() as int);
    assert(batch.take(batch.len() as int) =~= batch);
    let whole = segment(old + batch);
    assert(whole.take(whole.len() as int) =~= whole);
    assert(image == whole);
    assert(whole + Seq::<u8>::empty() =~= whole);
    law_recovery_returns_what_was_appended(old + batch, Seq::empty());
}

/// A checkpoint keeps exactly the records above the line, in order.
pub proof fn law_checkpoint_keeps_exactly_the_later_records(
    records: Seq<RecordView>,
    up_to: Lsn,
)
    ensures
        survivors(records, up_to) == records.filter(|r: RecordView| r.lsn > up_to),
    decreases records.len(),
{
    reveal(Seq::filter);
    if records.len() > 0 {
        law_checkpoint_keeps_exactly_the_later_records(records.drop_last(), up_to);
    }
}

proof fn lemma_survivors_fit(records: Seq<RecordView>, up_to: Lsn)
    requires
        all_fit(records),
    ensures
        all_fit(survivors(records, up_to)),
    decreases records.len(),
{
    if records.len() > 0 {
        let init = records.drop_last();
        assert(all_fit(init)) by {
            assert forall|j: int| 0 <= j < init.len() implies (#[trigger] init[j]).fits() by {
                assert(init[j] == records[j]);
            }
        }
        lemma_survivors_fit(init, up_to);
        assert(records[records.len() - 1].fits());
    }
}

/// The fresh segment of a checkpoint recovers to the records that the
/// checkpoint keeps.
pub proof fn law_checkpointed_segment_recovers_to_survivors(image: Seq<u8>, up_to: Lsn)
    ensures
        recovered(segment(survivors(recovered(image), up_to))) == survivors(
            recovered(image),
            up_to,
        ),
{
    let kept = survivors(recovered(image), up_to);
    law_scan_stops_at_first_bad_frame(image.skip(8));
    lemma_survivors_fit(recovered(image), up_to);
    assert(segment(kept) + Seq::<u8>::empty() =~= segment(kept));
    law_recovery_returns_what_was_appended(kept, Seq::empty());
}

/// A crash at any moment of a checkpoint leaves the old segment, as a crash
/// before the checkpoint would have, or the complete fresh one.
pub proof fn law_crash_during_checkpoint_leaves_old_or_new(
    d: Disk,
    up_to: Lsn,
    i: int,
    image: Seq<u8>,
)
    requires
        d.replaced is None,
        0 <= i <= 5,
        may_survive(after_steps(d, checkpoint_steps(d.active, up_to).take(i)), image),
    ensures
        may_survive(d, image) || image == segment(survivors(recovered(d.active), up_to)),
        i >= 4 ==> image == segment(survivors(recovered(d.active), up_to)),
{
    let steps = checkpoint_steps(d.active, up_to);
    let fresh = segment(survivors(recovered(d.active), up_to));
    lemma_after_checkpoint(d, up_to);
    assert(fresh.take(fresh.len() as int) =~= fresh);
    assert(steps.take(5) =~= steps);
}

proof fn lemma_after_checkpoint(d: Disk, up_to: Lsn)
    ensures
        ({
            let steps = checkpoint_steps(d.active, up_to);
            let fresh = segment(survivors(recovered(d.active), up_to));
            &&& after_steps(d, steps.take(0)) == d
            &&& after_steps(d, steps.take(1)) == (Disk { temp: fresh, temp_synced: 0, ..d })
            &&& after_steps(d, steps.take(2)) == (Disk {
                temp: fresh,
                temp_synced: fresh.len(),
                ..d
            })
            &&& after_steps(d, steps.take(3)) == (Disk {
                active: fresh,
                synced: fresh.len(),
                temp: fresh,
                temp_synced: fresh.len(),
                replaced: Some((d.active, d.synced)),
            })
            &&& after_steps(d, steps.take(4)) == (Disk {
                active: fresh,
                synced: fresh.len(),
                temp: fresh,
                temp_synced: fresh.len(),
                replaced: None,
            })
            &&& after_steps(d, steps.take(5)) == after_steps(d, steps.take(4))
        }),
{
    let steps = checkpoint_steps(d.active, up_to);
    assert(steps.take(1).drop_last() =~= steps.take(0));
    assert(steps.take(2).drop_last() =~= steps.take(1));
    assert(steps.take(3).drop_last() =~= steps.take(2));
    assert(steps.take(4).drop_last() =~= steps.take(3));
    assert(steps.take(5).drop_last() =~= steps.take(4));
}

/// A crash at any moment of a recovery leaves a segment that recovers to the
/// same records.
pub proof fn law_crash_during_recovery_changes_nothing(d: Disk, i: int, image: Seq<u8>)
    requires
        d.replaced is None,
        d.synced == d.active.len(),
        0 <= i <= recover_steps(d.active).len(),
        may_survive(after_steps(d, recover_steps(d.active).take(i)), image),
    ensures
        recovered(image) == recovered(d.active),
{
    let good = d.active.take(good_end(d.active) as int);
    law_recovery_is_idempotent(d.active);
    lemma_after_recover(d, i);
    assert(d.active.take(d.active.len() as int) =~= d.active);
    assert(good.take(good.len() as int) =~= good);
}

/// The active segment after the first `i` steps of a recovery is the old one or
/// its readable front, all of it on stable storage.
proof fn lemma_after_recover(d: Disk, i: int)
    requires
        d.replaced is None,
        d.synced == d.active.len(),
        good_end(d.active) <= d.active.len(),
        0 <= i <= recover_steps(d.active).len(),
    ensures
        ({
            let e = after_steps(d, recover_steps(d.active).take(i));
            let good = d.active.take(good_end(d.active) as int);
            &&& e.active == d.active || e.active == good
            &&& e.synced == e.active.len()
            &&& e.replaced is None || e.replaced == Some((d.active, d.synced))
        }),
    decreases i,
{
    let steps = recover_steps(d.active);
    if i > 0 {
        lemma_after_recover(d, i - 1);
        assert(steps.take(i).drop_last() =~= steps.take(i - 1));
        assert(steps.take(i).last() == steps[i - 1]);
        if i > 1 {
            lemma_recover_has_cut(d, i - 1);
        }
    }
}

/// From its first step on, a recovery has cut the segment.
proof fn lemma_recover_has_cut(d: Disk, i: int)
    requires
        1 <= i <= recover_steps(d.active).len(),
    ensures
        after_steps(d, recover_steps(d.active).take(i)).active == d.active.take(
            good_end(d.active) as int,
        ),
    decreases i,
{
    let steps = recover_steps(d.active);
    assert(steps.take(i).drop_last() =~= steps.take(i - 1));
    assert(steps.take(i).last() == steps[i - 1]);
    if i > 1 {
        lemma_recover_has_cut(d, i - 1);
    } else {
        assert(steps.take(0) =~= Seq::empty());
    }
}

/// A crash while a new segment gets its header leaves a segment that can be
/// opened again and holds no records.
pub proof fn law_crash_during_open_leaves_an_empty_segment(d: Disk, i: int, image: Seq<u8>)
    requires
        d.replaced is None,
        d.active.len() < HEADER_LEN,
        0 <= i <= 3,
        may_survive(after_steps(d, open_steps(d.active.len() as u64).take(i)), image),
    ensures
        image.len() < HEADER_LEN || image == header(),
        recovered(image) == Seq::<RecordView>::empty(),
        i >= 2 ==> image == header(),
{
    lemma_header_len();
    let steps = open_steps(d.active.len() as u64);
    assert(steps.take(1).drop_last() =~= steps.take(0));
    assert(steps.take(2).drop_last() =~= steps.take(1));
    assert(steps.take(3).drop_last() =~= steps.take(2));
    assert(after_steps(d, steps.take(0)) == d);
    assert(after_steps(d, steps.take(1)).active == header());
    assert(after_steps(d, steps.take(2)).active == header());
    assert(after_steps(d, steps.take(3)).active == header());
    assert(header().take(8) =~= header());
    assert(header() =~= segment(Seq::empty()));
    assert(segment(Seq::empty()) + Seq::<u8>::empty() =~= segment(Seq::empty()));
    law_recovery_returns_what_was_appended(Seq::empty(), Seq::empty());
}

/// The highest sequence number is at least every one, and is one of them unless it
/// is the number from before.
pub proof fn law_highest_is_the_highest(floor: Lsn, records: Seq<RecordView>)
    ensures
        floor <= highest_lsn(floor, records),
        forall|i: int|
            0 <= i < records.len() ==> (#[trigger] records[i]).lsn <= highest_lsn(floor, records),
        highest_lsn(floor, records) == floor || exists|i: int|
            0 <= i < records.len() && (#[trigger] records[i]).lsn == highest_lsn(floor, records),
    decreases records.len(),
{
    if records.len() > 0 {
        let init = records.drop_last();
        law_highest_is_the_highest(floor, init);
        let top = highest_lsn(floor, records);
        assert forall|i: int| 0 <= i < records.len() implies (#[trigger] records[i]).lsn <= top by {
            if i < init.len() {
                assert(init[i] == records[i]);
            }
        }
        if top == highest_lsn(floor, init) && top != floor {
            let k = choose|k: int| 0 <= k < init.len() && (#[trigger] init[k]).lsn == top;
            assert(records[k].lsn == top);
        } else if top != floor {
            assert(records[records.len() - 1].lsn == top);
        }
    }
}

proof fn lemma_after_flush(f: Files)
    ensures
        f.after(flush_steps()) == f.after_step(StepView::Drain).after_step(StepView::SyncActive),
{
    let steps = flush_steps();
    assert(steps.drop_last() =~= seq![StepView::Drain]);
    assert(seq![StepView::Drain].drop_last() =~= Seq::empty());
    reveal_with_fuel(Files::after, 3);
}

/// After a flush, a crash leaves all that was ever handed to the log.
pub proof fn law_flushed_log_survives_a_crash(f: Files, image: Seq<u8>)
    requires
        !f.detached,
        f.disk.replaced is None,
        f.after(flush_steps()).may_leave(image),
    ensures
        image == f.drained().active,
{
    lemma_after_flush(f);
    let all = f.drained().active;
    assert(all.take(all.len() as int) =~= all);
}

/// Opening a log leaves it ready: the next append lands at the end of the segment,
/// at the offset that the log goes by. No record is lost or made up.
pub proof fn law_opened_log_is_ready(f: Files)
    requires
        f.disk.active.len() <= u64::MAX,
    ensures
        ({
            let len = f.disk.active.len() as u64;
            let e = f.after(open_steps(len));
            &&& e.ready()
            &&& e.point == open_offset(len)
            &&& e.disk.active == if f.disk.active.len() < HEADER_LEN {
                header()
            } else {
                f.disk.active
            }
            &&& recovered(e.disk.active) == recovered(f.disk.active)
        }),
{
    lemma_header_len();
    let len = f.disk.active.len() as u64;
    let steps = open_steps(len);
    reveal_with_fuel(Files::after, 4);
    if len < HEADER_LEN {
        assert(steps.drop_last() =~= steps.take(2));
        assert(steps.take(2).drop_last() =~= steps.take(1));
        assert(steps.take(1).drop_last() =~= Seq::empty());
        assert(steps.take(1).last() == steps[0]);
        assert(steps.take(2).last() == steps[1]);
        let e = f.after(steps);
        assert(e.disk.active == header());
        assert(header() + Seq::<u8>::empty() =~= header());
        assert(segment(Seq::empty()) =~= header());
        law_recovery_returns_what_was_appended(Seq::empty(), Seq::empty());
    } else {
        assert(steps.drop_last() =~= Seq::empty());
    }
}

/// The files and the writer after the first `i` steps of an append.
proof fn lemma_files_after_append(
    f: Files,
    old: Seq<RecordView>,
    batch: Seq<RecordView>,
    fsync: bool,
    i: int,
)
    requires
        f.disk.active == segment(old),
        f.ready(),
        0 <= i <= append_steps(batch, fsync).len(),
    ensures
        ({
            let e = f.after(append_steps(batch, fsync).take(i));
            if i <= batch.len() {
                e == (Files { buffer: frames(batch.take(i)), ..f })
            } else {
                &&& e.ready()
                &&& e.disk.active == segment(old + batch)
                &&& i == batch.len() + 2 ==> e.disk.synced == e.disk.active.len()
                &&& e.disk.replaced == f.disk.replaced
            }
        }),
    decreases i,
{
    lemma_header_len();
    let steps = append_steps(batch, fsync);
    if i == 0 {
        assert(frames(batch.take(0)) =~= Seq::empty());
        assert(f.buffer =~= Seq::empty());
    } else {
        lemma_files_after_append(f, old, batch, fsync, i - 1);
        assert(steps.take(i).drop_last() =~= steps.take(i - 1));
        assert(steps.take(i).last() == steps[i - 1]);
        if i <= batch.len() {
            let now = batch.take(i);
            assert(now.drop_last() =~= batch.take(i - 1));
            assert(frames(batch.take(i - 1)) + frame(batch[i - 1]) =~= frames(now));
        } else {
            assert(batch.take(batch.len() as int) =~= batch);
            lemma_frames_concat(old, batch);
            assert(segment(old) + frames(batch) =~= segment(old + batch));
            let active = f.disk.active;
            assert(active.take(active.len() as int) =~= active);
            if frames(batch).len() == 0 {
                assert(segment(old) + frames(batch) =~= segment(old));
            }
        }
    }
}

/// An append to a log that is ready leaves it ready, with the new records behind
/// the old ones, at the offset that the log goes by: the next recovery reads all of
/// them.
pub proof fn law_appended_log_is_ready(
    f: Files,
    old: Seq<RecordView>,
    batch: Seq<RecordView>,
    fsync: bool,
)
    requires
        f.ready(),
        f.disk.active == segment(old),
    ensures
        ({
            let e = f.after(append_steps(batch, fsync));
            &&& e.ready()
            &&& e.point == f.point + frames(batch).len()
            &&& e.disk.active == segment(old + batch)
            &&& all_fit(old + batch) ==> recovered(e.disk.active) == old + batch
            &&& fsync && batch.len() > 0 ==> e.disk.synced == e.disk.active.len()
            &&& e.disk.replaced == f.disk.replaced
        }),
{
    let steps = append_steps(batch, fsync);
    assert(steps.take(steps.len() as int) =~= steps);
    lemma_files_after_append(f, old, batch, fsync, steps.len() as int);
    lemma_frames_concat(old, batch);
    if batch.len() == 0 {
        assert(old + batch =~= old);
        assert(frames(batch).len() == 0);
    }
    if all_fit(old + batch) {
        assert(segment(old + batch) + Seq::<u8>::empty() =~= segment(old + batch));
        law_recovery_returns_what_was_appended(old + batch, Seq::empty());
    }
}

/// Once an append with forced writes to a log that is ready is done, a crash leaves all
/// of it.
pub proof fn law_finished_append_is_left_by_a_crash(
    f: Files,
    old: Seq<RecordView>,
    batch: Seq<RecordView>,
    image: Seq<u8>,
)
    requires
        f.ready(),
        f.disk.active == segment(old),
        f.disk.replaced is None,
        all_fit(old + batch),
        batch.len() > 0,
        f.after(append_steps(batch, true)).may_leave(image),
    ensures
        recovered(image) == old + batch,
{
    law_appended_log_is_ready(f, old, batch, true);
    let e = f.after(append_steps(batch, true));
    let whole = e.disk.active;
    assert(whole.take(whole.len() as int) =~= whole);
}

/// Recovering a log leaves it ready: what is unreadable is gone, and the next
/// append lands directly behind the last good record, at the offset that the log
/// goes by.
pub proof fn law_recovered_log_is_ready(f: Files)
    requires
        f.ready(),
    ensures
        ({
            let image = f.disk.active;
            let e = f.after(recover_steps(image));
            &&& e.ready()
            &&& e.point == good_end(image)
            &&& recovered(e.disk.active) == recovered(image)
            &&& image.len() >= HEADER_LEN && image.take(8) == header() ==> e.disk.active
                == segment(recovered(image))
            &&& f.disk.replaced is None ==> e.disk.replaced is None
        }),
{
    let image = f.disk.active;
    law_recovery_is_idempotent(image);
    if image.len() >= HEADER_LEN && image.take(8) == header() {
        law_readable_front_ends_with_the_last_record(image);
    }
    if good_end(image) < image.len() {
        lemma_after_cut(f);
    } else {
        assert(image.take(good_end(image) as int) =~= image);
    }
}

/// The files and the writer after a recovery that cuts something off.
proof fn lemma_after_cut(f: Files)
    requires
        f.ready(),
        good_end(f.disk.active) < f.disk.active.len(),
    ensures
        ({
            let good = f.disk.active.take(good_end(f.disk.active) as int);
            f.after(recover_steps(f.disk.active)) == (Files {
                disk: Disk { active: good, synced: good.len(), replaced: None, ..f.disk },
                point: good.len(),
                buffer: Seq::empty(),
                detached: false,
            })
        }),
{
    let n = good_end(f.disk.active);
    let steps = recover_steps(f.disk.active);
    let f1 = f.after_step(StepView::Truncate(n));
    let f2 = f1.after_step(StepView::SyncActive);
    let f3 = f2.after_step(StepView::SyncDirectory);
    let f4 = f3.after_step(StepView::ReopenAt(n));
    assert(steps.take(0) =~= Seq::empty());
    assert(steps.take(1).drop_last() =~= steps.take(0));
    assert(steps.take(2).drop_last() =~= steps.take(1));
    assert(steps.take(3).drop_last() =~= steps.take(2));
    assert(steps.take(4).drop_last() =~= steps.take(3));
    assert(steps.take(4) =~= steps);
    assert(f.after(steps.take(0)) == f);
    assert(f.after(steps.take(1)) == f1);
    assert(f.after(steps.take(2)) == f2);
    assert(f.after(steps.take(3)) == f3);
    assert(f.after(steps.take(4)) == f4);
}

/// Checkpointing a log leaves it ready, whatever the writer was about: the next
/// append lands behind the records that were kept, at the offset that the log goes
/// by. The fresh segment holds those records and is on stable storage.
pub proof fn law_checkpointed_log_is_ready(f: Files, up_to: Lsn)
    ensures
        ({
            let e = f.after(checkpoint_steps(f.disk.active, up_to));
            let kept = recovered(f.disk.active).filter(|r: RecordView| r.lsn > up_to);
            &&& e.ready()
            &&& e.disk.active == segment(kept)
            &&& recovered(e.disk.active) == kept
            &&& e.disk.synced == e.disk.active.len()
            &&& e.disk.replaced is None
        }),
{
    let image = f.disk.active;
    lemma_after_rotation(f, up_to);
    law_checkpointed_segment_recovers_to_survivors(image, up_to);
    law_checkpoint_keeps_exactly_the_later_records(recovered(image), up_to);
}

/// The files and the writer after a checkpoint.
proof fn lemma_after_rotation(f: Files, up_to: Lsn)
    ensures
        ({
            let fresh = segment(survivors(recovered(f.disk.active), up_to));
            f.after(checkpoint_steps(f.disk.active, up_to)) == (Files {
                disk: Disk {
                    active: fresh,
                    synced: fresh.len(),
                    temp: fresh,
                    temp_synced: fresh.len(),
                    replaced: None,
                },
                point: fresh.len(),
                buffer: Seq::empty(),
                detached: false,
            })
        }),
{
    let steps = checkpoint_steps(f.disk.active, up_to);
    let fresh = segment(survivors(recovered(f.disk.active), up_to));
    let f1 = f.after_step(StepView::WriteTemp(fresh));
    let f2 = f1.after_step(StepView::SyncTemp);
    let f3 = f2.after_step(StepView::RenameTemp);
    let f4 = f3.after_step(StepView::SyncDirectory);
    let f5 = f4.after_step(StepView::ReopenAt(fresh.len()));
    assert(steps.take(0) =~= Seq::empty());
    assert(steps.take(1).drop_last() =~= steps.take(0));
    assert(steps.take(2).drop_last() =~= steps.take(1));
    assert(steps.take(3).drop_last() =~= steps.take(2));
    assert(steps.take(4).drop_last() =~= steps.take(3));
    assert(steps.take(5).drop_last() =~= steps.take(4));
    assert(steps.take(5) =~= steps);
    assert(f.after(steps.take(0)) == f);
    assert(f.after(steps.take(1)) == f1);
    assert(f.after(steps.take(2)) == f2);
    assert(f.after(steps.take(3)) == f3);
    assert(f.after(steps.take(4)) == f4);
    assert(f.after(steps.take(5)) == f5);
}

proof fn lemma_opens_well(len: u64)
    ensures
        opens_well(len as nat, open_steps(len), open_offset(len) as nat),
{
    let steps = open_steps(len);
    let at = open_offset(len) as nat;
    assert forall|f: Files| f.disk.active.len() == len implies #[trigger] left_ready(f, steps, at)
        && recovered(f.after(steps).disk.active) == recovered(f.disk.active) by {
        law_opened_log_is_ready(f);
    }
}

proof fn lemma_appends_well(log: WalView, batch: Seq<RecordView>)
    ensures
        appends_well(
            log,
            batch,
            append_steps(batch, log.fsync),
            (log.write_offset + frames(batch).len()) as nat,
        ),
{
    let steps = append_steps(batch, log.fsync);
    let at = (log.write_offset + frames(batch).len()) as nat;
    assert forall|f: Files, old: Seq<RecordView>|
        #![trigger f.after(steps), segment(old)]
        f.ready() && f.disk.active == segment(old) && f.point == log.write_offset implies {
        let e = f.after(steps).disk;
        &&& left_ready(f, steps, at)
        &&& e.active == segment(old + batch)
        &&& log.fsync && batch.len() > 0 ==> e.synced == e.active.len()
    } by {
        law_appended_log_is_ready(f, old, batch, log.fsync);
    }
}

proof fn lemma_checkpoints_well(image: Seq<u8>, up_to: Lsn)
    ensures
        checkpoints_well(
            image,
            up_to,
            checkpoint_steps(image, up_to),
            segment(survivors(recovered(image), up_to)).len(),
        ),
{
    let steps = checkpoint_steps(image, up_to);
    let at = segment(survivors(recovered(image), up_to)).len();
    law_checkpoint_keeps_exactly_the_later_records(recovered(image), up_to);
    assert forall|f: Files| f.disk.active == image implies {
        let e = f.after(steps).disk;
        &&& #[trigger] left_ready(f, steps, at)
        &&& recovered(e.active) == recovered(image).filter(|r: RecordView| r.lsn > up_to)
        &&& e.synced == e.active.len()
        &&& e.replaced is None
    } by {
        law_checkpointed_log_is_ready(f, up_to);
    }
}

proof fn lemma_recovers_well(image: Seq<u8>)
    ensures
        recovers_well(image, recovered(image), recover_steps(image), good_end(image)),
{
    let steps = recover_steps(image);
    assert forall|f: Files| f.disk.active == image && f.ready() implies {
        let e = f.after(steps).disk;
        &&& #[trigger] left_ready(f, steps, good_end(image))
        &&& recovered(e.active) == recovered(image)
        &&& image.len() >= HEADER_LEN && image.take(8) == header() ==> e.active == segment(
            recovered(image),
        )
    } by {
        law_recovered_log_is_ready(f);
    }
}

proof fn lemma_all_fit_concat(a: Seq<RecordView>, b: Seq<RecordView>)
    requires
        all_fit(a),
        all_fit(b),
    ensures
        all_fit(a + b),
{
    assert forall|i: int| 0 <= i < (a + b).len() implies (#[trigger] (a + b)[i]).fits() by {
        if i < a.len() {
            assert((a + b)[i] == a[i]);
        } else {
            assert((a + b)[i] == b[i - a.len()]);
        }
    }
}

/// What is appended after a recovery is read by the next one: a restart after a
/// hard kill, an append and another restart give back all good records and the new
/// ones, whatever the kill had left at the end of the segment.
pub proof fn law_records_appended_after_recovery_are_recovered(
    f: Files,
    batch: Seq<RecordView>,
    fsync: bool,
)
    requires
        HEADER_LEN <= f.disk.active.len() <= u64::MAX,
        f.disk.active.take(8) == header(),
        all_fit(batch),
    ensures
        ({
            let image = f.disk.active;
            let opened = f.after(open_steps(image.len() as u64));
            let e = opened.after(recover_steps(image)).after(append_steps(batch, fsync));
            &&& recovered(e.disk.active) == recovered(image) + batch
            &&& e.ready()
        }),
{
    let image = f.disk.active;
    law_opened_log_is_ready(f);
    let opened = f.after(open_steps(image.len() as u64));
    law_recovered_log_is_ready(opened);
    law_scan_stops_at_first_bad_frame(image.skip(8));
    lemma_all_fit_concat(recovered(image), batch);
    law_appended_log_is_ready(
        opened.after(recover_steps(image)),
        recovered(image),
        batch,
        fsync,
    );
}

/// The same holds after a checkpoint: the next recovery gives back the records that
/// the checkpoint kept and the new ones.
pub proof fn law_records_appended_after_checkpoint_are_recovered(
    f: Files,
    up_to: Lsn,
    batch: Seq<RecordView>,
    fsync: bool,
)
    requires
        all_fit(batch),
    ensures
        ({
            let image = f.disk.active;
            let e = f.after(checkpoint_steps(image, up_to)).after(append_steps(batch, fsync));
            &&& recovered(e.disk.active) == recovered(image).filter(
                |r: RecordView| r.lsn > up_to,
            ) + batch
            &&& e.ready()
        }),
{
    let image = f.disk.active;
    let kept = recovered(image).filter(|r: RecordView| r.lsn > up_to);
    law_checkpointed_log_is_ready(f, up_to);
    law_checkpoint_keeps_exactly_the_later_records(recovered(image), up_to);
    law_scan_stops_at_first_bad_frame(image.skip(8));
    lemma_survivors_fit(recovered(image), up_to);
    lemma_all_fit_concat(kept, batch);
    law_appended_log_is_ready(f.after(checkpoint_steps(image, up_to)), kept, batch, fsync);
}

/// A recovery does nothing to a file that is no segment, and nothing to a segment that
/// is readable to its end.
pub proof fn law_recovery_touches_only_torn_segments(f: Files)
    requires
        f.disk.active.len() < HEADER_LEN || f.disk.active.take(8) != header() || f.disk.active
            == segment(recovered(f.disk.active)),
    ensures
        f.after(recover_steps(f.disk.active)) == f,
{
    lemma_header_len();
}

/// What is appended and forced to stable storage after a recovery survives a crash at
/// once: neither the torn tail nor the segment from before the cut comes back.
pub proof fn law_append_after_recovery_survives_a_crash(
    f: Files,
    batch: Seq<RecordView>,
    image: Seq<u8>,
)
    requires
        f.ready(),
        f.disk.replaced is None,
        f.disk.active.len() >= HEADER_LEN,
        f.disk.active.take(8) == header(),
        all_fit(batch),
        batch.len() > 0,
        f.after(recover_steps(f.disk.active)).after(append_steps(batch, true)).may_leave(image),
    ensures
        recovered(image) == recovered(f.disk.active) + batch,
{
    let old = recovered(f.disk.active);
    law_recovered_log_is_ready(f);
    law_scan_stops_at_first_bad_frame(f.disk.active.skip(8));
    lemma_all_fit_concat(old, batch);
    law_finished_append_is_left_by_a_crash(
        f.after(recover_steps(f.disk.active)),
        old,
        batch,
        image,
    );
}

/// What is appended and forced to stable storage after a checkpoint survives a crash,
/// together with the records that the checkpoint kept.
pub proof fn law_append_after_checkpoint_survives_a_crash(
    f: Files,
    up_to: Lsn,
    batch: Seq<RecordView>,
    image: Seq<u8>,
)
    requires
        all_fit(batch),
        batch.len() > 0,
        f.after(checkpoint_steps(f.disk.active, up_to)).after(
            append_steps(batch, true),
        ).may_leave(image),
    ensures
        recovered(image) == recovered(f.disk.active).filter(|r: RecordView| r.lsn > up_to) + batch,
{
    let kept = recovered(f.disk.active).filter(|r: RecordView| r.lsn > up_to);
    law_checkpointed_log_is_ready(f, up_to);
    law_checkpoint_keeps_exactly_the_later_records(recovered(f.disk.active), up_to);
    law_scan_stops_at_first_bad_frame(f.disk.active.skip(8));
    lemma_survivors_fit(recovered(f.disk.active), up_to);
    lemma_all_fit_concat(kept, batch);
    law_finished_append_is_left_by_a_crash(
        f.after(checkpoint_steps(f.disk.active, up_to)),
        kept,
        batch,
        image,
    );
}

/// For a writer at the end of the segment, the two ways to see an append agree: the
/// files are those that appending at the end leaves.
pub proof fn law_ready_writer_appends_at_the_end(
    f: Files,
    old: Seq<RecordView>,
    batch: Seq<RecordView>,
    fsync: bool,
)
    requires
        f.ready(),
        f.disk.active == segment(old),
    ensures
        f.after(append_steps(batch, fsync)).disk.active == after_steps(
            f.disk,
            append_steps(batch, fsync),
        ).active,
{
    let steps = append_steps(batch, fsync);
    law_appended_log_is_ready(f, old, batch, fsync);
    assert(steps.take(steps.len() as int) =~= steps);
    lemma_after_append(f.disk, old, batch, fsync, steps.len() as int);
    assert(batch.take(batch.len() as int) =~= batch);
    if batch.len() == 0 {
        assert(old + batch =~= old);
    }
}

} // verus!
