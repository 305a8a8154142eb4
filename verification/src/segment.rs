//! The segment file of the write-ahead log: an eight-byte header, then the
//! frames of the records (see [`WalRecord`]) one after the other.
//!
//! A crash can interrupt a write at any byte, so the last frame found in a
//! segment may be torn. Reading stops at the first frame that cannot be decoded:
//! in an append-only log nothing behind it can be trusted.

use crate::domain::{
    decoded, frame, law_cut_frame_is_truncated, law_decode_accepts_only_frames,
    law_decode_inverts_encode, law_one_damaged_byte_is_noticed, record_views, RecordView,
    WalRecord,
};
use vstd::prelude::*;
use vstd::slice::slice_subrange;

verus! {

/// Length of the segment header. Frames start at this offset.
pub const HEADER_LEN: u64 = 8;

/// The segment header: `FLUXWAL1` in ASCII.
#[verifier::opaque]
pub open spec fn header() -> Seq<u8> {
    seq![0x46u8, 0x4C, 0x55, 0x58, 0x57, 0x41, 0x4C, 0x31]
}

/// The segment header: `FLUXWAL1` in ASCII.
pub fn header_magic() -> (magic: Vec<u8>)
    ensures
        magic@ == header(),
{
    reveal(header);
    vec![0x46u8, 0x4C, 0x55, 0x58, 0x57, 0x41, 0x4C, 0x31]
}

/// The header has eight bytes.
pub proof fn lemma_header_len()
    ensures
        header().len() == HEADER_LEN,
{
    reveal(header);
}

/// Whether `bytes` begins with the segment header.
pub(crate) fn has_header(bytes: &[u8]) -> (yes: bool)
    ensures
        yes == (bytes@.len() >= HEADER_LEN && bytes@.take(8) == header()),
{
    if bytes.len() < HEADER_LEN as usize {
        return false;
    }
    let yes = bytes[0] == 0x46 && bytes[1] == 0x4C && bytes[2] == 0x55 && bytes[3] == 0x58
        && bytes[4] == 0x57 && bytes[5] == 0x41 && bytes[6] == 0x4C && bytes[7] == 0x31;
    proof {
        reveal(header);
        let front = bytes@.take(8);
        if yes {
            assert(front =~= header());
        } else if front == header() {
            assert(bytes@[0] == front[0] && bytes@[1] == front[1] && bytes@[2] == front[2]
                && bytes@[3] == front[3] && bytes@[4] == front[4] && bytes@[5] == front[5]
                && bytes@[6] == front[6] && bytes@[7] == front[7]);
        }
    }
    yes
}

/// The frames of `records`, one after the other.
pub open spec fn frames(records: Seq<RecordView>) -> Seq<u8>
    decreases records.len(),
{
    if records.len() == 0 {
        Seq::empty()
    } else {
        frames(records.drop_last()) + frame(records.last())
    }
}

/// The segment that holds exactly `records`.
pub open spec fn segment(records: Seq<RecordView>) -> Seq<u8> {
    header() + frames(records)
}

/// Whether every frame of `records` can be read back.
pub open spec fn all_fit(records: Seq<RecordView>) -> bool {
    forall|i: int| 0 <= i < records.len() ==> (#[trigger] records[i]).fits()
}

/// The records read from `s` frame by frame, up to the first frame that cannot
/// be decoded.
pub open spec fn scanned(s: Seq<u8>) -> Seq<RecordView>
    decreases s.len(),
{
    match decoded(s) {
        Ok((r, n)) => seq![r] + scanned(s.skip(n as int)),
        Err(_) => Seq::empty(),
    }
}

/// The records of a segment image.
pub open spec fn recovered(s: Seq<u8>) -> Seq<RecordView> {
    if s.len() < HEADER_LEN || s.take(8) != header() {
        Seq::empty()
    } else {
        scanned(s.skip(8))
    }
}

/// The length of the readable front of a segment image: the header and the
/// frames of its records. Of an image without the header it is the whole
/// length, so that nothing foreign is cut.
pub open spec fn good_end(s: Seq<u8>) -> nat {
    if s.len() < HEADER_LEN || s.take(8) != header() {
        s.len()
    } else {
        segment(recovered(s)).len()
    }
}

/// Decodes a segment image up to the first torn or corrupt frame.
///
/// Returns the records, and the offset just past the last good frame: the
/// length to cut the file to if anything follows.
pub fn decode_segment(bytes: &[u8]) -> (result: (Vec<WalRecord>, u64))
    ensures
        record_views(result.0@) == recovered(bytes@),
        result.1 == good_end(bytes@),
{
    let len: usize = bytes.len();
    let mut records: Vec<WalRecord> = Vec::new();
    if !has_header(bytes) {
        assert(record_views(records@) =~= recovered(bytes@));
        return (records, len as u64);
    }
    let mut pos: usize = HEADER_LEN as usize;
    let mut torn = false;
    proof {
        lemma_header_len();
    }
    assert(record_views(records@) =~= Seq::empty());
    assert(record_views(records@) + scanned(bytes@.skip(8)) =~= scanned(bytes@.skip(8)));
    while pos < len && !torn
        invariant
            8 <= pos <= len == bytes@.len(),
            scanned(bytes@.skip(8)) == record_views(records@) + scanned(bytes@.skip(pos as int)),
            pos == segment(record_views(records@)).len(),
            torn ==> decoded(bytes@.skip(pos as int)) is Err,
        decreases len - pos + if torn { 0int } else { 1int },
    {
        let rest = slice_subrange(bytes, pos, len);
        assert(rest@ =~= bytes@.skip(pos as int));
        match WalRecord::decode(rest) {
            Ok((record, n)) => {
                let ghost before = record_views(records@);
                proof {
                    law_decode_accepts_only_frames(rest@);
                    assert(rest@.skip(n as int) =~= bytes@.skip(pos + n));
                }
                records.push(record);
                proof {
                    assert(record_views(records@) =~= before.push(record@));
                    assert(before.push(record@).drop_last() =~= before);
                    assert(before + (seq![record@] + scanned(bytes@.skip(pos + n)))
                        =~= before.push(record@) + scanned(bytes@.skip(pos + n)));
                }
                pos = pos + n;
            },
            Err(_) => {
                torn = true;
            },
        }
    }
    proof {
        if !torn {
            assert(bytes@.skip(pos as int).len() == 0);
        }
        assert(record_views(records@) + Seq::<RecordView>::empty() =~= record_views(records@));
    }
    (records, pos as u64)
}

/// Frames of a concatenation.
pub proof fn lemma_frames_concat(a: Seq<RecordView>, b: Seq<RecordView>)
    ensures
        frames(a + b) == frames(a) + frames(b),
    decreases b.len(),
{
    if b.len() == 0 {
        assert(a + b =~= a);
        assert(frames(a) + frames(b) =~= frames(a));
    } else {
        lemma_frames_concat(a, b.drop_last());
        assert((a + b).drop_last() =~= a + b.drop_last());
        assert(frames(a + b) =~= frames(a) + frames(b));
    }
}

proof fn lemma_frames_one(r: RecordView)
    ensures
        frames(seq![r]) == frame(r),
{
    assert(seq![r].drop_last() =~= Seq::empty());
    assert(frames(Seq::<RecordView>::empty()) =~= Seq::empty());
    assert(frames(seq![r]) =~= frame(r));
}

/// A scan reads whole frames and goes on with what follows them.
proof fn lemma_scan_frames(records: Seq<RecordView>, tail: Seq<u8>)
    requires
        all_fit(records),
    ensures
        scanned(frames(records) + tail) == records + scanned(tail),
    decreases records.len(),
{
    if records.len() == 0 {
        assert(frames(records) + tail =~= tail);
        assert(records + scanned(tail) =~= scanned(tail));
    } else {
        let r = records[0];
        let rest = records.skip(1);
        assert(records =~= seq![r] + rest);
        lemma_frames_concat(seq![r], rest);
        lemma_frames_one(r);
        let whole = frames(records) + tail;
        assert(whole =~= frame(r) + (frames(rest) + tail));
        law_decode_inverts_encode(r, frames(rest) + tail);
        assert(whole.skip(frame(r).len() as int) =~= frames(rest) + tail);
        assert(all_fit(rest)) by {
            assert forall|i: int| 0 <= i < rest.len() implies (#[trigger] rest[i]).fits() by {
                assert(rest[i] == records[i + 1]);
            }
        }
        lemma_scan_frames(rest, tail);
        assert(seq![r] + (rest + scanned(tail)) =~= records + scanned(tail));
    }
}

proof fn lemma_front_of_segment(body: Seq<u8>)
    ensures
        (header() + body).take(8) == header(),
        (header() + body).skip(8) == body,
{
    lemma_header_len();
    assert((header() + body).take(8) =~= header());
    assert((header() + body).skip(8) =~= body);
}

/// Recovery returns exactly the records that were appended, in order, whatever
/// unreadable bytes follow them, and finds where those begin.
pub proof fn law_recovery_returns_what_was_appended(records: Seq<RecordView>, tail: Seq<u8>)
    requires
        all_fit(records),
        decoded(tail) is Err,
    ensures
        recovered(segment(records) + tail) == records,
        good_end(segment(records) + tail) == segment(records).len(),
{
    lemma_header_len();
    let s = segment(records) + tail;
    assert(s =~= header() + (frames(records) + tail));
    lemma_front_of_segment(frames(records) + tail);
    lemma_scan_frames(records, tail);
    assert(records + scanned(tail) =~= records);
}

/// A scan consumes exactly the frames of the records that it returns, and stops
/// where the next frame cannot be decoded.
pub proof fn law_scan_stops_at_first_bad_frame(s: Seq<u8>)
    ensures
        all_fit(scanned(s)),
        frames(scanned(s)).len() <= s.len(),
        s.take(frames(scanned(s)).len() as int) == frames(scanned(s)),
        decoded(s.skip(frames(scanned(s)).len() as int)) is Err,
    decreases s.len(),
{
    if decoded(s) is Ok {
        let (r, n) = decoded(s)->Ok_0;
        let rest = s.skip(n as int);
        law_decode_accepts_only_frames(s);
        law_scan_stops_at_first_bad_frame(rest);
        let tail = scanned(rest);
        lemma_frames_concat(seq![r], tail);
        lemma_frames_one(r);
        let len = frames(tail).len() as int;
        assert(s.take(n + len) =~= s.take(n as int) + rest.take(len));
        assert(s.skip(n + len) =~= rest.skip(len));
        assert forall|i: int| 0 <= i < scanned(s).len() implies (
        #[trigger] scanned(s)[i]).fits() by {
            if i > 0 {
                assert(scanned(s)[i] == tail[i - 1]);
            }
        }
    } else {
        assert(s.take(0) =~= Seq::empty());
        assert(s.skip(0) =~= s);
    }
}

/// Cutting a segment at the end of its readable front changes nothing that
/// recovery returns, so that a second recovery gives the same result.
pub proof fn law_recovery_is_idempotent(s: Seq<u8>)
    ensures
        good_end(s) <= s.len(),
        recovered(s.take(good_end(s) as int)) == recovered(s),
        good_end(s.take(good_end(s) as int)) == good_end(s),
{
    lemma_header_len();
    if s.len() < HEADER_LEN || s.take(8) != header() {
        assert(s.take(s.len() as int) =~= s);
    } else {
        let body = s.skip(8);
        let records = recovered(s);
        law_scan_stops_at_first_bad_frame(body);
        assert(s.take(good_end(s) as int) =~= header() + frames(records)) by {
            assert(s =~= header() + body);
            assert(s.take(good_end(s) as int) =~= header() + body.take(
                frames(records).len() as int,
            ));
        }
        assert(segment(records) + Seq::<u8>::empty() =~= segment(records));
        law_recovery_returns_what_was_appended(records, Seq::empty());
    }
}

/// How many frames of `records` lie wholly in the first `k` bytes.
pub open spec fn whole_frames(records: Seq<RecordView>, k: int) -> int
    decreases records.len(),
{
    if records.len() == 0 {
        0
    } else if frames(records).len() <= k {
        records.len() as int
    } else {
        whole_frames(records.drop_last(), k)
    }
}

proof fn lemma_whole_frames_range(records: Seq<RecordView>, k: int)
    ensures
        0 <= whole_frames(records, k) <= records.len(),
    decreases records.len(),
{
    if records.len() > 0 && frames(records).len() > k {
        lemma_whole_frames_range(records.drop_last(), k);
    }
}

/// A scan of frames cut short anywhere gives the records whose frames are whole,
/// and nothing of the torn one.
proof fn lemma_scan_cut(records: Seq<RecordView>, k: int)
    requires
        all_fit(records),
        0 <= k <= frames(records).len(),
    ensures
        scanned(frames(records).take(k)) == records.take(whole_frames(records, k)),
    decreases records.len(),
{
    if frames(records).len() <= k {
        assert(frames(records).take(k) =~= frames(records) + Seq::<u8>::empty());
        lemma_scan_frames(records, Seq::empty());
        assert(records + scanned(Seq::<u8>::empty()) =~= records);
        assert(records.take(whole_frames(records, k)) =~= records);
    } else {
        let init = records.drop_last();
        let last = records.last();
        let split = frames(init).len() as int;
        assert(all_fit(init)) by {
            assert forall|i: int| 0 <= i < init.len() implies (#[trigger] init[i]).fits() by {
                assert(init[i] == records[i]);
            }
        }
        lemma_whole_frames_range(init, k);
        if k <= split {
            lemma_scan_cut(init, k);
            assert(frames(records).take(k) =~= frames(init).take(k));
            assert(records.take(whole_frames(init, k)) =~= init.take(whole_frames(init, k)));
        } else {
            assert(records[records.len() - 1].fits());
            let torn = frame(last).take(k - split);
            assert(frames(records).take(k) =~= frames(init) + torn);
            law_cut_frame_is_truncated(last, k - split);
            lemma_scan_frames(init, torn);
            assert(init + scanned(torn) =~= init);
            assert(whole_frames(init, k) == init.len());
            assert(records.take(init.len() as int) =~= init);
        }
    }
}

/// A segment cut short anywhere behind its header, as a crash in the middle of
/// a write leaves it, recovers to the records whose frames are whole: a record
/// is there entirely or not at all.
pub proof fn law_torn_segment_recovers_whole_records(records: Seq<RecordView>, k: int)
    requires
        all_fit(records),
        0 <= k <= frames(records).len(),
    ensures
        recovered(segment(records).take(8 + k)) == records.take(whole_frames(records, k)),
        0 <= whole_frames(records, k) <= records.len(),
{
    lemma_header_len();
    let body = frames(records).take(k);
    assert(segment(records).take(8 + k) =~= header() + body);
    lemma_front_of_segment(body);
    lemma_scan_cut(records, k);
    lemma_whole_frames_range(records, k);
}

/// A wrong byte in the frame of the `i`-th record ends the log there: the
/// records before it are recovered, and neither it nor any later one.
pub proof fn law_damaged_frame_ends_the_log(records: Seq<RecordView>, i: int, p: int, b: u8)
    requires
        all_fit(records),
        0 <= i < records.len(),
        0 <= p < frame(records[i]).len(),
        frame(records[i])[p] != b,
    ensures
        recovered(segment(records).update(segment(records.take(i)).len() + p, b)) == records.take(
            i,
        ),
{
    lemma_header_len();
    let before = records.take(i);
    let r = records[i];
    let after = records.skip(i + 1);
    assert(records =~= before + (seq![r] + after));
    lemma_frames_concat(before, seq![r] + after);
    lemma_frames_concat(seq![r], after);
    lemma_frames_one(r);
    let bad = frame(r).update(p, b) + frames(after);
    let s = segment(records).update(segment(before).len() + p, b);
    assert(s =~= header() + (frames(before) + bad));
    lemma_front_of_segment(frames(before) + bad);
    law_one_damaged_byte_is_noticed(r, p, b, frames(after));
    assert(all_fit(before)) by {
        assert forall|j: int| 0 <= j < before.len() implies (#[trigger] before[j]).fits() by {
            assert(before[j] == records[j]);
        }
    }
    lemma_scan_frames(before, bad);
    assert(before + scanned(bad) =~= before);
}

/// A segment begins with the eight characters `FLUXWAL1`.
pub proof fn law_header_names_the_format()
    ensures
        header().len() == 8,
        header()[0] == 0x46 && header()[1] == 0x4C && header()[2] == 0x55 && header()[3] == 0x58,
        header()[4] == 0x57 && header()[5] == 0x41 && header()[6] == 0x4C && header()[7] == 0x31,
{
    reveal(header);
}

/// Of a file that is no segment, nothing is read and nothing is unreadable.
pub proof fn law_foreign_file_is_not_cut(s: Seq<u8>)
    requires
        s.len() < 8 || s.take(8) != header(),
    ensures
        recovered(s).len() == 0,
        good_end(s) == s.len(),
{
}

/// The readable front of a segment ends where the frames of its records do, and what
/// follows is not a frame.
pub proof fn law_readable_front_ends_with_the_last_record(s: Seq<u8>)
    requires
        s.len() >= 8,
        s.take(8) == header(),
    ensures
        good_end(s) <= s.len(),
        s.take(good_end(s) as int) == segment(recovered(s)),
        decoded(s.skip(good_end(s) as int)) is Err,
        all_fit(recovered(s)),
{
    lemma_header_len();
    let body = s.skip(8);
    let records = recovered(s);
    law_scan_stops_at_first_bad_frame(body);
    assert(s =~= header() + body);
    assert(s.take(good_end(s) as int) =~= header() + body.take(frames(records).len() as int));
    assert(s.skip(good_end(s) as int) =~= body.skip(frames(records).len() as int));
}

} // verus!
