//! The shared vocabulary: value types, the wire format of the log, and the
//! traits that separate the stages of the pipeline.
//!
//! A frame of the log is self-describing and protected by a CRC, so that
//! recovery after an unclean shutdown finds the record boundaries and notices a
//! torn tail. [`WalRecord::encode`] and [`WalRecord::decode`] are the only
//! places that know its layout.

use crate::bytes::{
    lemma_le_bytes_len, lemma_le_bytes_low, lemma_le_bytes_of_value, lemma_le_round_trip,
    lemma_le_value_bound, lemma_pow256, le_bytes, le_field, push_le, read_le,
};
use crate::crc::{crc32, crc32_of, law_one_changed_byte_changes_crc};
use crate::error::DecodeError;
use vstd::prelude::*;
use vstd::slice::{slice_subrange, slice_to_vec};

verus! {

/// Stable identity of a player, or of any entity whose state is persisted.
pub type PlayerId = u64;

/// Log sequence number: an increasing position in the write-ahead log.
pub type Lsn = u64;

/// The persisted form of one entity's state.
#[derive(Debug, PartialEq, Eq)]
pub struct PlayerState {
    /// Identity of the entity.
    pub player_id: PlayerId,
    /// Application-level version; the highest wins, and the later of two
    /// equals.
    pub version: u64,
    /// Opaque serialized payload.
    pub blob: Vec<u8>,
}

/// A [`PlayerState`] with its payload as a sequence.
#[verifier::ext_equal]
pub struct StateView {
    pub player_id: PlayerId,
    pub version: u64,
    pub blob: Seq<u8>,
}

impl View for PlayerState {
    type V = StateView;

    open spec fn view(&self) -> StateView {
        StateView { player_id: self.player_id, version: self.version, blob: self.blob@ }
    }
}

impl Clone for PlayerState {
    fn clone(&self) -> (copy: PlayerState)
        ensures
            copy@ == self@,
    {
        PlayerState {
            player_id: self.player_id,
            version: self.version,
            blob: slice_to_vec(self.blob.as_slice()),
        }
    }
}

/// The states of a batch.
pub open spec fn state_views(states: Seq<PlayerState>) -> Seq<StateView> {
    Seq::new(states.len(), |i: int| states[i]@)
}

/// One fire-and-forget write on its way through the ring.
#[derive(Debug, PartialEq, Eq)]
pub struct WriteRequest {
    /// Identity of the entity being written.
    pub player_id: PlayerId,
    /// Application-level version; the highest wins in the cache.
    pub version: u64,
    /// Opaque serialized payload.
    pub blob: Vec<u8>,
    /// Global submission number, given out at submission. It is for diagnostics
    /// and not part of the persisted state.
    pub seq: u64,
}

/// A [`WriteRequest`] with its payload as a sequence.
#[verifier::ext_equal]
pub struct RequestView {
    pub player_id: PlayerId,
    pub version: u64,
    pub blob: Seq<u8>,
    pub seq: u64,
}

impl RequestView {
    /// The state that the request asks to persist.
    pub open spec fn state(self) -> StateView {
        StateView { player_id: self.player_id, version: self.version, blob: self.blob }
    }
}

impl View for WriteRequest {
    type V = RequestView;

    open spec fn view(&self) -> RequestView {
        RequestView {
            player_id: self.player_id,
            version: self.version,
            blob: self.blob@,
            seq: self.seq,
        }
    }
}

impl Clone for WriteRequest {
    fn clone(&self) -> (copy: WriteRequest)
        ensures
            copy@ == self@,
    {
        WriteRequest {
            player_id: self.player_id,
            version: self.version,
            blob: slice_to_vec(self.blob.as_slice()),
            seq: self.seq,
        }
    }
}

impl WriteRequest {
    /// The state that the request asks to persist, without its `seq`.
    pub fn to_state(&self) -> (state: PlayerState)
        ensures
            state@ == self@.state(),
    {
        PlayerState {
            player_id: self.player_id,
            version: self.version,
            blob: slice_to_vec(self.blob.as_slice()),
        }
    }
}

/// The requests of a batch.
pub open spec fn request_views(requests: Seq<WriteRequest>) -> Seq<RequestView> {
    Seq::new(requests.len(), |i: int| requests[i]@)
}

/// One logged write.
///
/// Its frame, with all integers little-endian:
///
/// ```text
/// offset  size      field
///   0     4         magic
///   4     4         frame_len, the length of the whole frame
///   8     8         lsn
///  16     8         player_id
///  24     8         version
///  32     4         blob_len
///  36     blob_len  blob
///  ..     4         CRC-32 of every byte before this field
/// ```
#[derive(Debug, PartialEq, Eq)]
pub struct WalRecord {
    /// Log sequence number of this record.
    pub lsn: Lsn,
    /// Identity of the entity.
    pub player_id: PlayerId,
    /// Application-level version.
    pub version: u64,
    /// Opaque serialized payload.
    pub blob: Vec<u8>,
}

/// A [`WalRecord`] with its payload as a sequence.
#[verifier::ext_equal]
pub struct RecordView {
    pub lsn: Lsn,
    pub player_id: PlayerId,
    pub version: u64,
    pub blob: Seq<u8>,
}

impl RecordView {
    /// The state that the record logs.
    pub open spec fn state(self) -> StateView {
        StateView { player_id: self.player_id, version: self.version, blob: self.blob }
    }

    /// Whether the frame's length fits in its four-byte field. A payload within
    /// 40 bytes of 4 GiB, or beyond, does not: the length is cut to its four low
    /// bytes, and the frame cannot be read back.
    pub open spec fn fits(self) -> bool {
        self.blob.len() + WAL_HEADER_LEN + WAL_CRC_LEN <= u32::MAX
    }
}

impl View for WalRecord {
    type V = RecordView;

    open spec fn view(&self) -> RecordView {
        RecordView {
            lsn: self.lsn,
            player_id: self.player_id,
            version: self.version,
            blob: self.blob@,
        }
    }
}

impl Clone for WalRecord {
    fn clone(&self) -> (copy: WalRecord)
        ensures
            copy@ == self@,
    {
        WalRecord {
            lsn: self.lsn,
            player_id: self.player_id,
            version: self.version,
            blob: slice_to_vec(self.blob.as_slice()),
        }
    }
}

/// The records of a batch.
pub open spec fn record_views(records: Seq<WalRecord>) -> Seq<RecordView> {
    Seq::new(records.len(), |i: int| records[i]@)
}

/// Magic number at the front of every frame: "FLXR".
pub const WAL_MAGIC: u32 = 0x464C_5852;

/// Size of the fixed frame header before the blob.
pub const WAL_HEADER_LEN: usize = 36;

/// Size of the trailing CRC field.
pub const WAL_CRC_LEN: usize = 4;

/// The frame of a record without its CRC.
#[verifier::opaque]
pub open spec fn frame_body(r: RecordView) -> Seq<u8> {
    le_bytes(WAL_MAGIC as nat, 4) + le_bytes(r.blob.len() + 40, 4) + le_bytes(r.lsn as nat, 8)
        + le_bytes(r.player_id as nat, 8) + le_bytes(r.version as nat, 8) + le_bytes(
        r.blob.len(),
        4,
    ) + r.blob
}

/// The frame of a record.
#[verifier::opaque]
pub open spec fn frame(r: RecordView) -> Seq<u8> {
    frame_body(r) + le_bytes(crc32_of(frame_body(r)) as nat, 4)
}

/// The record whose fields stand in the frame at the front of `s`.
pub open spec fn fields(s: Seq<u8>) -> RecordView {
    RecordView {
        lsn: le_field(s, 8, 8) as u64,
        player_id: le_field(s, 16, 8) as u64,
        version: le_field(s, 24, 8) as u64,
        blob: s.subrange(36, 36 + le_field(s, 32, 4) as int),
    }
}

/// What decoding the front of `s` gives: the record and the length of its
/// frame, or what is wrong, in the order in which it is noticed.
pub open spec fn decoded(s: Seq<u8>) -> Result<(RecordView, nat), DecodeError> {
    let frame_len = le_field(s, 4, 4);
    let blob_len = le_field(s, 32, 4);
    if s.len() < 36 {
        Err(DecodeError::Truncated)
    } else if le_field(s, 0, 4) != WAL_MAGIC {
        Err(DecodeError::BadMagic)
    } else if frame_len < 40 || s.len() < frame_len || frame_len != 40 + blob_len {
        Err(DecodeError::Truncated)
    } else if le_field(s, frame_len - 4, 4) != crc32_of(s.take(frame_len - 4)) {
        Err(DecodeError::BadCrc)
    } else {
        Ok((fields(s), frame_len))
    }
}

impl WalRecord {
    /// Serializes the record into one frame.
    pub fn encode(&self) -> (buf: Vec<u8>)
        ensures
            buf@ == frame(self@),
            buf@.len() == self@.blob.len() + WAL_HEADER_LEN + WAL_CRC_LEN,
    {
        let blob_len: u64 = self.blob.len() as u64;
        let mut buf: Vec<u8> = Vec::new();
        push_le(&mut buf, WAL_MAGIC as u64, 4);
        push_le(&mut buf, blob_len.wrapping_add(40), 4);
        push_le(&mut buf, self.lsn, 8);
        push_le(&mut buf, self.player_id, 8);
        push_le(&mut buf, self.version, 8);
        push_le(&mut buf, blob_len, 4);
        buf.extend_from_slice(self.blob.as_slice());
        proof {
            reveal(frame_body);
            reveal(frame);
            lemma_pow256();
            lemma_le_bytes_low((blob_len + 40) as nat, 4, 8);
            lemma_frame_len(self@);
            assert(buf@ =~= frame_body(self@));
        }
        let crc: u32 = crc32(buf.as_slice());
        push_le(&mut buf, crc as u64, 4);
        buf
    }

    /// Decodes the frame at the front of `buf`.
    ///
    /// Returns the record and the number of bytes of its frame, so that the
    /// caller can go on to the next one.
    pub fn decode(buf: &[u8]) -> (result: Result<(WalRecord, usize), DecodeError>)
        ensures
            match result {
                Ok((record, n)) => decoded(buf@) == Ok::<_, DecodeError>((record@, n as nat)),
                Err(e) => decoded(buf@) == Err::<(RecordView, nat), _>(e),
            },
    {
        if buf.len() < WAL_HEADER_LEN {
            return Err(DecodeError::Truncated);
        }
        let magic: u64 = read_le(buf, 0, 4);
        if magic != WAL_MAGIC as u64 {
            return Err(DecodeError::BadMagic);
        }
        let frame_len: u64 = read_le(buf, 4, 4);
        let blob_len: u64 = read_le(buf, 32, 4);
        proof {
            lemma_pow256();
            lemma_le_value_bound(buf@.subrange(4, 8));
            lemma_le_value_bound(buf@.subrange(32, 36));
        }
        if frame_len < 40 || (buf.len() as u64) < frame_len || frame_len != 40 + blob_len {
            return Err(DecodeError::Truncated);
        }
        let frame_len: usize = frame_len as usize;
        let body_end: usize = frame_len - WAL_CRC_LEN;
        let stored_crc: u64 = read_le(buf, body_end, 4);
        let body = slice_subrange(buf, 0, body_end);
        assert(body@ =~= buf@.take(frame_len - 4));
        let actual_crc: u32 = crc32(body);
        if stored_crc != actual_crc as u64 {
            return Err(DecodeError::BadCrc);
        }
        let record = WalRecord {
            lsn: read_le(buf, 8, 8),
            player_id: read_le(buf, 16, 8),
            version: read_le(buf, 24, 8),
            blob: slice_to_vec(slice_subrange(buf, WAL_HEADER_LEN, body_end)),
        };
        Ok((record, frame_len))
    }
}

proof fn lemma_frame_len(r: RecordView)
    ensures
        frame_body(r).len() == r.blob.len() + 36,
        frame(r).len() == r.blob.len() + 40,
{
    reveal(frame_body);
    reveal(frame);
    lemma_le_bytes_len(WAL_MAGIC as nat, 4);
    lemma_le_bytes_len(r.blob.len() + 40, 4);
    lemma_le_bytes_len(r.lsn as nat, 8);
    lemma_le_bytes_len(r.player_id as nat, 8);
    lemma_le_bytes_len(r.version as nat, 8);
    lemma_le_bytes_len(r.blob.len(), 4);
    lemma_le_bytes_len(crc32_of(frame_body(r)) as nat, 4);
}

/// Whether `s` begins with the numbers of the header of a record.
spec fn header_of(r: RecordView, s: Seq<u8>) -> bool {
    &&& le_field(s, 0, 4) == WAL_MAGIC
    &&& le_field(s, 4, 4) == (r.blob.len() + 40) % 0x1_0000_0000
    &&& le_field(s, 8, 8) == r.lsn
    &&& le_field(s, 16, 8) == r.player_id
    &&& le_field(s, 24, 8) == r.version
    &&& le_field(s, 32, 4) == r.blob.len() % 0x1_0000_0000
}

proof fn lemma_header_fields(r: RecordView, s: Seq<u8>)
    requires
        36 <= s.len(),
        s.take(36) == frame_body(r).take(36),
    ensures
        header_of(r, s),
{
    reveal(frame_body);
    lemma_frame_len(r);
    lemma_pow256();
    let body = frame_body(r);
    assert forall|i: int| 0 <= i < 36 implies s[i] == body[i] by {
        assert(s.take(36)[i] == body.take(36)[i]);
    }
    lemma_le_bytes_len(WAL_MAGIC as nat, 4);
    lemma_le_bytes_len(r.blob.len() + 40, 4);
    lemma_le_bytes_len(r.lsn as nat, 8);
    lemma_le_bytes_len(r.player_id as nat, 8);
    lemma_le_bytes_len(r.version as nat, 8);
    lemma_le_bytes_len(r.blob.len(), 4);
    assert(s.subrange(0, 4) =~= le_bytes(WAL_MAGIC as nat, 4));
    assert(s.subrange(4, 8) =~= le_bytes(r.blob.len() + 40, 4));
    assert(s.subrange(8, 16) =~= le_bytes(r.lsn as nat, 8));
    assert(s.subrange(16, 24) =~= le_bytes(r.player_id as nat, 8));
    assert(s.subrange(24, 32) =~= le_bytes(r.version as nat, 8));
    assert(s.subrange(32, 36) =~= le_bytes(r.blob.len(), 4));
    lemma_le_round_trip(WAL_MAGIC as nat, 4);
    lemma_le_round_trip(r.blob.len() + 40, 4);
    lemma_le_round_trip(r.lsn as nat, 8);
    lemma_le_round_trip(r.player_id as nat, 8);
    lemma_le_round_trip(r.version as nat, 8);
    lemma_le_round_trip(r.blob.len(), 4);
}

proof fn lemma_blob_of_body(r: RecordView)
    ensures
        frame_body(r).skip(36) == r.blob,
{
    reveal(frame_body);
    lemma_frame_len(r);
    lemma_le_bytes_len(WAL_MAGIC as nat, 4);
    lemma_le_bytes_len(r.blob.len() + 40, 4);
    lemma_le_bytes_len(r.lsn as nat, 8);
    lemma_le_bytes_len(r.player_id as nat, 8);
    lemma_le_bytes_len(r.version as nat, 8);
    lemma_le_bytes_len(r.blob.len(), 4);
    assert(frame_body(r).skip(36) =~= r.blob);
}

/// How a body, its CRC and what follows lie in the whole.
proof fn lemma_sealed(body: Seq<u8>, rest: Seq<u8>)
    requires
        36 <= body.len(),
    ensures
        ({
            let n = body.len() as int;
            let s = body + le_bytes(crc32_of(body) as nat, 4) + rest;
            &&& s.len() == n + 4 + rest.len()
            &&& s.take(36) == body.take(36)
            &&& s.take(n) == body
            &&& s.subrange(36, n) == body.skip(36)
            &&& le_field(s, n, 4) == crc32_of(body)
        }),
{
    let n = body.len() as int;
    let crc = le_bytes(crc32_of(body) as nat, 4);
    let s = body + crc + rest;
    lemma_le_bytes_len(crc32_of(body) as nat, 4);
    assert(s.take(36) =~= body.take(36));
    assert(s.take(n) =~= body);
    assert(s.subrange(36, n) =~= body.skip(36));
    lemma_pow256();
    assert(s.subrange(n, n + 4) =~= crc);
    lemma_le_round_trip(crc32_of(body) as nat, 4);
}

/// A sealed body with the right header is read.
proof fn lemma_sealed_is_read(r: RecordView, body: Seq<u8>, rest: Seq<u8>)
    requires
        r.fits(),
        body.len() == r.blob.len() + 36,
        body.skip(36) == r.blob,
        header_of(r, body + le_bytes(crc32_of(body) as nat, 4) + rest),
    ensures
        decoded(body + le_bytes(crc32_of(body) as nat, 4) + rest) == Ok::<_, DecodeError>(
            (r, body.len() + 4),
        ),
{
    lemma_sealed(body, rest);
}

/// Decoding gives back what was encoded, whatever follows the frame, and
/// consumes exactly the frame.
pub proof fn law_decode_inverts_encode(r: RecordView, rest: Seq<u8>)
    requires
        r.fits(),
    ensures
        decoded(frame(r) + rest) == Ok::<_, DecodeError>((r, frame(r).len())),
{
    reveal(frame);
    lemma_frame_len(r);
    lemma_sealed(frame_body(r), rest);
    lemma_header_fields(r, frame(r) + rest);
    lemma_blob_of_body(r);
    lemma_sealed_is_read(r, frame_body(r), rest);
}

/// Decoding accepts nothing but frames: what it accepts begins with the frame
/// of the record that it returns.
pub proof fn law_decode_accepts_only_frames(s: Seq<u8>)
    requires
        decoded(s) is Ok,
    ensures
        ({
            let (r, n) = decoded(s)->Ok_0;
            &&& r.fits()
            &&& n == frame(r).len()
            &&& n <= s.len()
            &&& s.take(n as int) == frame(r)
        }),
{
    reveal(frame_body);
    reveal(frame);
    let (r, n) = decoded(s)->Ok_0;
    lemma_pow256();
    lemma_le_value_bound(s.subrange(4, 8));
    lemma_le_value_bound(s.subrange(8, 16));
    lemma_le_value_bound(s.subrange(16, 24));
    lemma_le_value_bound(s.subrange(24, 32));
    lemma_frame_len(r);
    lemma_le_bytes_of_value(s.subrange(0, 4));
    lemma_le_bytes_of_value(s.subrange(4, 8));
    lemma_le_bytes_of_value(s.subrange(8, 16));
    lemma_le_bytes_of_value(s.subrange(16, 24));
    lemma_le_bytes_of_value(s.subrange(24, 32));
    lemma_le_bytes_of_value(s.subrange(32, 36));
    lemma_le_bytes_of_value(s.subrange(n - 4, n as int));
    assert(s.take(n - 4) =~= frame_body(r));
    assert(s.take(n as int) =~= frame(r));
}

/// A frame cut short anywhere is reported as truncated.
pub proof fn law_cut_frame_is_truncated(r: RecordView, k: int)
    requires
        r.fits(),
        0 <= k < frame(r).len(),
    ensures
        decoded(frame(r).take(k)) == Err::<(RecordView, nat), _>(DecodeError::Truncated),
{
    reveal(frame);
    lemma_frame_len(r);
    if k >= 36 {
        let s = frame(r).take(k);
        assert(s.take(36) =~= frame_body(r).take(36));
        lemma_header_fields(r, s);
    }
}

/// What decoding reports of a frame with a wrong byte at `i`.
pub open spec fn damage_at(i: int) -> DecodeError {
    if i < 4 {
        DecodeError::BadMagic
    } else if 4 <= i < 8 || 32 <= i < 36 {
        DecodeError::Truncated
    } else {
        DecodeError::BadCrc
    }
}

/// One wrong byte anywhere in a frame never goes unnoticed: in the magic it is
/// a bad magic, in a length field a truncation, anywhere else a bad CRC.
pub proof fn law_one_damaged_byte_is_noticed(r: RecordView, i: int, b: u8, rest: Seq<u8>)
    requires
        r.fits(),
        0 <= i < frame(r).len(),
        frame(r)[i] != b,
    ensures
        decoded(frame(r).update(i, b) + rest) == Err::<(RecordView, nat), _>(damage_at(i)),
{
    reveal(frame);
    lemma_frame_len(r);
    lemma_sealed(frame_body(r), rest);
    lemma_header_fields(r, frame(r) + rest);
    lemma_sealed_damage(r, frame_body(r), i, b, rest);
}

/// What one wrong byte changes in a sealed body.
proof fn lemma_damaged(body: Seq<u8>, i: int, b: u8, rest: Seq<u8>)
    requires
        36 <= body.len(),
        0 <= i < body.len() + 4,
        (body + le_bytes(crc32_of(body) as nat, 4))[i] != b,
    ensures
        ({
            let n = body.len() as int;
            let sealed = body + le_bytes(crc32_of(body) as nat, 4);
            let good = sealed + rest;
            let bad = sealed.update(i, b) + rest;
            &&& bad.len() == good.len() == n + 4 + rest.len()
            &&& (le_field(bad, 0, 4) == le_field(good, 0, 4)) <==> !(0 <= i < 4)
            &&& (le_field(bad, 4, 4) == le_field(good, 4, 4)) <==> !(4 <= i < 8)
            &&& (le_field(bad, 32, 4) == le_field(good, 32, 4)) <==> !(32 <= i < 36)
            &&& le_field(bad, n, 4) != crc32_of(bad.take(n))
        }),
{
    let n = body.len() as int;
    let crc = le_bytes(crc32_of(body) as nat, 4);
    let sealed = body + crc;
    let good = sealed + rest;
    let bad = sealed.update(i, b) + rest;
    lemma_le_bytes_len(crc32_of(body) as nat, 4);
    lemma_fields_differ(good, bad, i, 0, 4);
    lemma_fields_differ(good, bad, i, 4, 4);
    lemma_fields_differ(good, bad, i, 32, 4);
    lemma_fields_differ(good, bad, i, n, 4);
    lemma_sealed(body, rest);
    if i < n {
        assert(bad.take(n) =~= body.update(i, b));
        law_one_changed_byte_changes_crc(body, i, b);
    } else {
        assert(bad.take(n) =~= body);
    }
}

/// What one wrong byte makes of a sealed body with the right header.
#[verifier::spinoff_prover]
proof fn lemma_sealed_damage(r: RecordView, body: Seq<u8>, i: int, b: u8, rest: Seq<u8>)
    requires
        r.fits(),
        body.len() == r.blob.len() + 36,
        header_of(r, body + le_bytes(crc32_of(body) as nat, 4) + rest),
        0 <= i < body.len() + 4,
        (body + le_bytes(crc32_of(body) as nat, 4))[i] != b,
    ensures
        decoded((body + le_bytes(crc32_of(body) as nat, 4)).update(i, b) + rest) == Err::<
            (RecordView, nat),
            _,
        >(damage_at(i)),
{
    let sealed = body + le_bytes(crc32_of(body) as nat, 4);
    lemma_damaged(body, i, b, rest);
    lemma_header_damage(r, sealed + rest, sealed.update(i, b) + rest, i);
}

/// What bytes are rejected with that differ from a frame in one place.
proof fn lemma_header_damage(r: RecordView, good: Seq<u8>, bad: Seq<u8>, i: int)
    requires
        r.fits(),
        header_of(r, good),
        r.blob.len() + 40 <= bad.len(),
        0 <= i < r.blob.len() + 40,
        (le_field(bad, 0, 4) == le_field(good, 0, 4)) <==> !(0 <= i < 4),
        (le_field(bad, 4, 4) == le_field(good, 4, 4)) <==> !(4 <= i < 8),
        (le_field(bad, 32, 4) == le_field(good, 32, 4)) <==> !(32 <= i < 36),
        le_field(bad, (r.blob.len() + 36) as int, 4) != crc32_of(
            bad.take((r.blob.len() + 36) as int),
        ),
    ensures
        decoded(bad) == Err::<(RecordView, nat), _>(damage_at(i)),
{
    lemma_rejected(bad, r.blob.len() + 40, i);
}

/// How bytes that differ from a frame of `n` bytes in one place are rejected.
proof fn lemma_rejected(s: Seq<u8>, n: nat, i: int)
    requires
        40 <= n <= s.len(),
        0 <= i < n,
        le_field(s, 0, 4) == WAL_MAGIC <==> !(0 <= i < 4),
        le_field(s, 4, 4) == n <==> !(4 <= i < 8),
        le_field(s, 32, 4) == n - 40 <==> !(32 <= i < 36),
        le_field(s, n - 4, 4) != crc32_of(s.take(n - 4)),
    ensures
        decoded(s) == Err::<(RecordView, nat), _>(damage_at(i)),
{
}

/// A number changes exactly with its bytes.
proof fn lemma_fields_differ(s: Seq<u8>, t: Seq<u8>, i: int, at: int, width: int)
    requires
        s.len() == t.len(),
        0 <= i < s.len(),
        s[i] != t[i],
        forall|j: int| 0 <= j < s.len() && j != i ==> s[j] == t[j],
        0 <= at,
        0 <= width,
        at + width <= s.len(),
    ensures
        (le_field(s, at, width) == le_field(t, at, width)) <==> !(at <= i < at + width),
{
    let a = s.subrange(at, at + width);
    let b = t.subrange(at, at + width);
    if at <= i < at + width {
        assert(a[i - at] != b[i - at]);
        lemma_le_bytes_of_value(a);
        lemma_le_bytes_of_value(b);
    } else {
        assert(a =~= b);
    }
}

/// A bounded first-in-first-out queue of pending writes: the boundary between
/// the hot main loop and the flush worker.
pub trait Queue: Send + Sync {
    /// The queued requests, oldest first.
    spec fn items(&self) -> Seq<RequestView>;

    /// How many requests fit.
    spec fn limit(&self) -> nat;

    /// The invariant of the implementation.
    spec fn wf(&self) -> bool;

    /// Enqueues `req`, or hands it back if the queue is full. Never waits.
    fn try_enqueue(&mut self, req: WriteRequest) -> (result: Result<(), WriteRequest>)
        requires
            old(self).wf(),
        ensures
            final(self).wf(),
            final(self).limit() == old(self).limit(),
            result is Ok <==> old(self).items().len() < old(self).limit(),
            match result {
                Ok(()) => final(self).items() == old(self).items().push(req@),
                Err(back) => final(self).items() == old(self).items() && back@ == req@,
            },
    ;

    /// Takes the oldest request, if there is one. Never waits.
    fn try_dequeue(&mut self) -> (result: Option<WriteRequest>)
        requires
            old(self).wf(),
        ensures
            final(self).wf(),
            final(self).limit() == old(self).limit(),
            match result {
                Some(req) => old(self).items().len() > 0 && req@ == old(self).items()[0]
                    && final(self).items() == old(self).items().skip(1),
                None => old(self).items().len() == 0 && final(self).items() == old(self).items(),
            },
    ;

    /// Moves the oldest requests, up to `max` of them, to the end of `out`, and
    /// returns how many.
    fn drain_into(&mut self, out: &mut Vec<WriteRequest>, max: usize) -> (moved: usize)
        requires
            old(self).wf(),
        ensures
            final(self).wf(),
            final(self).limit() == old(self).limit(),
            moved == if old(self).items().len() < max {
                old(self).items().len()
            } else {
                max as nat
            },
            request_views(final(out)@) == request_views(old(out)@) + old(self).items().take(
                moved as int,
            ),
            final(self).items() == old(self).items().skip(moved as int),
    ;

    /// Number of queued requests.
    fn len(&self) -> (n: usize)
        requires
            self.wf(),
        ensures
            n == self.items().len(),
    ;

    /// How many requests fit.
    fn capacity(&self) -> (n: usize)
        requires
            self.wf(),
        ensures
            n == self.limit(),
    ;

    /// Whether nothing is queued.
    fn is_empty(&self) -> (yes: bool)
        requires
            self.wf(),
        ensures
            yes == (self.items().len() == 0),
    {
        self.len() == 0
    }
}

/// What a cache holds: the newest known state of every entity, and which of
/// them still have to be flushed.
#[verifier::ext_equal]
pub struct CacheView {
    pub entries: Map<PlayerId, StateView>,
    pub dirty: Set<PlayerId>,
}

impl CacheView {
    pub open spec fn empty() -> CacheView {
        CacheView { entries: Map::empty(), dirty: Set::empty() }
    }

    /// Entries stand under their own identity, and only entries are dirty.
    pub open spec fn ok(self) -> bool {
        &&& self.entries.dom().finite()
        &&& self.dirty.finite()
        &&& self.dirty.subset_of(self.entries.dom())
        &&& forall|id: PlayerId| #[trigger]
            self.entries.dom().contains(id) ==> self.entries[id].player_id == id
    }

    /// Whether `state` replaces what the cache holds for its entity: it is the
    /// first, or not older.
    pub open spec fn accepts(self, state: StateView) -> bool {
        !self.entries.dom().contains(state.player_id)
            || state.version >= self.entries[state.player_id].version
    }

    /// Last-write-wins: a state that is accepted replaces the entry and makes it
    /// dirty; an older one changes nothing.
    pub open spec fn merged(self, state: StateView) -> CacheView {
        if self.accepts(state) {
            CacheView {
                entries: self.entries.insert(state.player_id, state),
                dirty: self.dirty.insert(state.player_id),
            }
        } else {
            self
        }
    }

    /// Last-write-wins over several states, in order.
    pub open spec fn merged_all(self, states: Seq<StateView>) -> CacheView
        decreases states.len(),
    {
        if states.len() == 0 {
            self
        } else {
            self.merged_all(states.drop_last()).merged(states.last())
        }
    }

    /// With a state given back that could not be persisted. Where the cache holds
    /// nothing or an older state, the state is restored, to be flushed again.
    /// Where it holds one of the same version, that one stays, since it is the
    /// same or was written later, and is to be flushed again. Where it holds a
    /// newer one, nothing changes.
    pub open spec fn given_back(self, state: StateView) -> CacheView {
        let id = state.player_id;
        if !self.entries.dom().contains(id) || self.entries[id].version < state.version {
            CacheView {
                entries: self.entries.insert(id, state),
                dirty: self.dirty.insert(id),
            }
        } else if self.entries[id].version == state.version {
            CacheView { dirty: self.dirty.insert(id), ..self }
        } else {
            self
        }
    }

    /// With several states given back, in order.
    pub open spec fn given_back_all(self, states: Seq<StateView>) -> CacheView
        decreases states.len(),
    {
        if states.len() == 0 {
            self
        } else {
            self.given_back_all(states.drop_last()).given_back(states.last())
        }
    }

    /// Whether `states` are dirty entries, each once, and `after` is the cache
    /// with those marked clean.
    pub open spec fn taken(self, states: Seq<StateView>, after: CacheView) -> bool {
        &&& forall|i: int|
            0 <= i < states.len() ==> self.dirty.contains((#[trigger] states[i]).player_id)
                && states[i] == self.entries[states[i].player_id]
        &&& forall|i: int, j: int|
            0 <= i < j < states.len() ==> (#[trigger] states[i]).player_id != (
            #[trigger] states[j]).player_id
        &&& after.entries == self.entries
        &&& forall|id: PlayerId| #[trigger]
            after.dirty.contains(id) <==> self.dirty.contains(id) && !holds_player(states, id)
    }
}

/// Whether one of `states` belongs to `id`.
pub open spec fn holds_player(states: Seq<StateView>, id: PlayerId) -> bool {
    exists|i: int| 0 <= i < states.len() && (#[trigger] states[i]).player_id == id
}

/// The states that `requests` ask to persist.
pub open spec fn requested_states(requests: Seq<RequestView>) -> Seq<StateView> {
    Seq::new(requests.len(), |i: int| requests[i].state())
}

/// The write-behind cache between the ring and the store.
///
/// Many writes to one entity collapse into one dirty entry. Dirty entries are
/// taken in batches for flushing, and given back if the store refuses them.
pub trait Cache: Send + Sync {
    /// What the cache holds.
    spec fn model(&self) -> CacheView;

    /// The invariant of the implementation.
    spec fn wf(&self) -> bool;

    /// The invariant implies that of the contents.
    proof fn lemma_model_ok(&self)
        requires
            self.wf(),
        ensures
            self.model().ok(),
    ;

    /// Takes in a write, last-write-wins by version.
    fn apply(&mut self, req: &WriteRequest)
        requires
            old(self).wf(),
        ensures
            final(self).wf(),
            final(self).model() == old(self).model().merged(req@.state()),
    ;

    /// Hands out up to `max` dirty entries for flushing and marks them clean.
    /// Which of them is not determined. They stay readable.
    fn take_dirty(&mut self, max: usize) -> (states: Vec<PlayerState>)
        requires
            old(self).wf(),
        ensures
            final(self).wf(),
            old(self).model().taken(state_views(states@), final(self).model()),
            states@.len() == if old(self).model().dirty.len() < max {
                old(self).model().dirty.len()
            } else {
                max as nat
            },
            final(self).model().dirty.len() == old(self).model().dirty.len() - states@.len(),
    ;

    /// Takes back states that could not be persisted, to be flushed again. A
    /// state is restored only over an older one, so that no write that came in
    /// since it was taken is lost to it.
    fn requeue_dirty(&mut self, states: Vec<PlayerState>)
        requires
            old(self).wf(),
        ensures
            final(self).wf(),
            final(self).model() == old(self).model().given_back_all(state_views(states@)),
    ;

    /// Reads the cached state of `id`, if there is one.
    fn get(&self, id: PlayerId) -> (state: Option<PlayerState>)
        requires
            self.wf(),
        ensures
            match state {
                Some(state) => self.model().entries.dom().contains(id) && state@
                    == self.model().entries[id],
                None => !self.model().entries.dom().contains(id),
            },
    ;

    /// Number of dirty entries.
    fn dirty_len(&self) -> (n: usize)
        requires
            self.wf(),
        ensures
            n == self.model().dirty.len(),
    ;

    /// Number of entries, dirty or clean.
    fn len(&self) -> (n: usize)
        requires
            self.wf(),
        ensures
            n == self.model().entries.dom().len(),
    ;

    /// Whether there are no entries.
    fn is_empty(&self) -> (yes: bool)
        requires
            self.wf(),
        ensures
            yes == (self.model().entries.dom().len() == 0),
    {
        self.len() == 0
    }
}

/// The durability boundary: an append-only log that can be replayed after a
/// hard kill. What a log does with its files is up to the implementation, so
/// that nothing is promised here of the results.
pub trait WriteAheadLog: Send + Sync {
    /// Appends each record as a frame, forces them to stable storage if so
    /// configured, and returns the highest sequence number that is then durable.
    fn append_batch(&mut self, records: &[WalRecord]) -> std::io::Result<Lsn>;

    /// Lets go of all records up to `up_to_lsn`, which the store holds.
    fn checkpoint(&mut self, up_to_lsn: Lsn) -> std::io::Result<()>;

    /// Replays the log in order, and cuts off a torn or corrupt tail.
    fn recover(&mut self) -> std::io::Result<Vec<WalRecord>>;

    /// Forces all that was appended to stable storage.
    fn flush(&mut self) -> std::io::Result<()>;
}

/// The slow, durable backend that owns the persisted state in the end. Whether a
/// store accepts a batch is up to the implementation, so that nothing is
/// promised here of the results.
pub trait PersistenceStore: Send + Sync {
    /// Persists a batch, or fails with a classified error.
    fn persist_batch(&mut self, states: &[PlayerState]) -> Result<(), crate::error::StoreError>;

    /// Loads the persisted state of `id`, if there is one.
    fn load(&self, id: PlayerId) -> Option<PlayerState>;

    /// Number of entities that are persisted.
    fn count(&self) -> usize;
}

/// A view shows every field as it is, and batches of views are in the same order.
pub proof fn law_views_show_every_field(
    state: PlayerState,
    request: WriteRequest,
    record: WalRecord,
)
    ensures
        state@.player_id == state.player_id && state@.version == state.version && state@.blob
            == state.blob@,
        request@.player_id == request.player_id && request@.version == request.version
            && request@.blob == request.blob@ && request@.seq == request.seq,
        record@.lsn == record.lsn && record@.player_id == record.player_id && record@.version
            == record.version && record@.blob == record.blob@,
{
}

/// Batches of views are as long as the batches, and in the same order.
pub proof fn law_views_of_batches(
    states: Seq<PlayerState>,
    requests: Seq<WriteRequest>,
    records: Seq<WalRecord>,
)
    ensures
        state_views(states).len() == states.len(),
        request_views(requests).len() == requests.len(),
        record_views(records).len() == records.len(),
        forall|i: int| 0 <= i < states.len() ==> #[trigger] state_views(states)[i] == states[i]@,
        forall|i: int|
            0 <= i < requests.len() ==> #[trigger] request_views(requests)[i] == requests[i]@,
        forall|i: int|
            0 <= i < records.len() ==> #[trigger] record_views(records)[i] == records[i]@,
{
}

/// The state that a request asks to persist, and the one that a record logs, have its
/// own identity, version and payload.
pub proof fn law_states_keep_every_field(
    q: RequestView,
    r: RecordView,
    requests: Seq<RequestView>,
    i: int,
)
    ensures
        q.state().player_id == q.player_id && q.state().version == q.version && q.state().blob
            == q.blob,
        r.state().player_id == r.player_id && r.state().version == r.version && r.state().blob
            == r.blob,
        requested_states(requests).len() == requests.len(),
        0 <= i < requests.len() ==> requested_states(requests)[i] == requests[i].state(),
{
}

/// Every payload of less than 4 GiB, less the 40 bytes around it, can be logged and
/// read back.
pub proof fn law_ordinary_payloads_fit(r: RecordView)
    ensures
        r.fits() <==> r.blob.len() <= 0xFFFF_FFFF - 40,
{
}

/// Where everything stands in a frame: all numbers with their least significant byte
/// first, the payload as it is, and the CRC-32 of all before it at the end.
pub proof fn law_frame_layout(r: RecordView)
    requires
        r.fits(),
    ensures
        ({
            let s = frame(r);
            let n = r.blob.len() as int;
            &&& s.len() == n + 40
            &&& le_field(s, 0, 4) == 0x464C_5852
            &&& le_field(s, 4, 4) == n + 40
            &&& le_field(s, 8, 8) == r.lsn
            &&& le_field(s, 16, 8) == r.player_id
            &&& le_field(s, 24, 8) == r.version
            &&& le_field(s, 32, 4) == n
            &&& s.subrange(36, 36 + n) == r.blob
            &&& le_field(s, 36 + n, 4) == crc32_of(s.take(36 + n))
        }),
{
    reveal(frame);
    let s = frame(r);
    let body = frame_body(r);
    let whole = body + le_bytes(crc32_of(body) as nat, 4) + Seq::<u8>::empty();
    assert(whole =~= s);
    lemma_frame_len(r);
    lemma_sealed(body, Seq::empty());
    lemma_header_fields(r, s);
    lemma_blob_of_body(r);
}

/// Bytes are read as a record exactly if they begin with the frame of a payload that
/// fits.
pub proof fn law_exactly_frames_are_read(s: Seq<u8>)
    ensures
        decoded(s) is Ok <==> exists|r: RecordView|
            r.fits() && frame(r).len() <= s.len() && #[trigger] frame(r) == s.take(
                frame(r).len() as int,
            ),
{
    if decoded(s) is Ok {
        law_decode_accepts_only_frames(s);
        let (r, n) = decoded(s)->Ok_0;
        assert(frame(r) == s.take(frame(r).len() as int));
    }
    if exists|r: RecordView|
        r.fits() && frame(r).len() <= s.len() && #[trigger] frame(r) == s.take(
            frame(r).len() as int,
        ) {
        let r = choose|r: RecordView|
            r.fits() && frame(r).len() <= s.len() && #[trigger] frame(r) == s.take(
                frame(r).len() as int,
            );
        let rest = s.skip(frame(r).len() as int);
        assert(s =~= frame(r) + rest);
        law_decode_inverts_encode(r, rest);
    }
}

/// A cache starts with nothing in it.
pub proof fn law_empty_cache_is_empty(id: PlayerId)
    ensures
        !CacheView::empty().entries.dom().contains(id),
        !CacheView::empty().dirty.contains(id),
        CacheView::empty().ok(),
{
}

} // verus!
