//! CRC-32/ISO-HDLC, the checksum of every log frame.
//!
//! The specification is the bit-serial definition: a reflected shift register
//! over the polynomial `0xEDB88320`, preset to all ones and complemented at
//! the end. The code drives the register a byte at a time through a table.

use vstd::prelude::*;

verus! {

/// The reflected IEEE 802.3 polynomial.
pub const CRC_POLYNOMIAL: u32 = 0xEDB8_8320;

/// The value the register starts from, and the mask its final value is
/// complemented with.
pub const CRC_MASK: u32 = 0xFFFF_FFFF;

/// One shift of the register.
pub open spec fn crc_bit(c: u32) -> u32 {
    if c & 1 != 0 {
        (c >> 1) ^ CRC_POLYNOMIAL
    } else {
        c >> 1
    }
}

/// `n` shifts of the register.
pub open spec fn crc_shift(c: u32, n: nat) -> u32
    decreases n,
{
    if n == 0 {
        c
    } else {
        crc_bit(crc_shift(c, (n - 1) as nat))
    }
}

/// The register after absorbing the byte `b`.
pub open spec fn crc_absorb(c: u32, b: u8) -> u32 {
    crc_shift(c ^ (b as u32), 8)
}

/// The register after absorbing the bytes of `s` in order.
pub open spec fn crc_register(s: Seq<u8>) -> u32
    decreases s.len(),
{
    if s.len() == 0 {
        CRC_MASK
    } else {
        crc_absorb(crc_register(s.drop_last()), s.last())
    }
}

/// The CRC-32 of `s`.
pub open spec fn crc32_of(s: Seq<u8>) -> u32 {
    crc_register(s) ^ CRC_MASK
}

/// Eight shifts, written out as one expression.
spec fn shift8(c: u32) -> u32 {
    crc_bit(crc_bit(crc_bit(crc_bit(crc_bit(crc_bit(crc_bit(crc_bit(c))))))))
}

proof fn lemma_shift8(c: u32)
    ensures
        crc_shift(c, 8) == shift8(c),
{
    reveal_with_fuel(crc_shift, 9);
}

/// The high 24 bits of the register only move down while a byte is absorbed,
/// so the low byte alone selects what is mixed in.
proof fn lemma_table_step(c: u32)
    ensures
        crc_shift(c, 8) == (c >> 8) ^ crc_shift(c & 0xFF, 8),
{
    lemma_shift8(c);
    lemma_shift8(c & 0xFF);
    assert(shift8(c) == (c >> 8) ^ shift8(c & 0xFF)) by (bit_vector);
}

/// Builds the 256-entry lookup table: entry `i` is the register that eight
/// shifts make of `i`.
pub fn crc32_table() -> (table: [u32; 256])
    ensures
        forall|i: int| 0 <= i < 256 ==> #[trigger] table@[i] == crc_shift(i as u32, 8),
{
    let mut table: [u32; 256] = [0; 256];
    let mut i: usize = 0;
    while i < 256
        invariant
            i <= 256,
            forall|k: int| 0 <= k < i ==> #[trigger] table@[k] == crc_shift(k as u32, 8),
        decreases 256 - i,
    {
        let mut crc: u32 = i as u32;
        let mut j: u32 = 0;
        while j < 8
            invariant
                i < 256,
                j <= 8,
                crc == crc_shift(i as u32, j as nat),
            decreases 8 - j,
        {
            if crc & 1 != 0 {
                crc = (crc >> 1) ^ CRC_POLYNOMIAL;
            } else {
                crc = crc >> 1;
            }
            j = j + 1;
        }
        table[i] = crc;
        i = i + 1;
    }
    table
}

/// Computes the CRC-32 of `bytes`.
pub fn crc32(bytes: &[u8]) -> (crc: u32)
    ensures
        crc == crc32_of(bytes@),
{
    let table: [u32; 256] = crc32_table();
    let mut crc: u32 = CRC_MASK;
    let mut i: usize = 0;
    assert(bytes@.take(0) =~= Seq::<u8>::empty());
    while i < bytes.len()
        invariant
            i <= bytes@.len(),
            forall|k: int| 0 <= k < 256 ==> #[trigger] table@[k] == crc_shift(k as u32, 8),
            crc == crc_register(bytes@.take(i as int)),
        decreases bytes@.len() - i,
    {
        let mixed: u32 = crc ^ (bytes[i] as u32);
        let low: u32 = mixed & 0xFF;
        assert(mixed & 0xFF < 256) by (bit_vector);
        proof {
            lemma_table_step(mixed);
            let next = bytes@.take(i + 1);
            assert(next.drop_last() =~= bytes@.take(i as int));
            assert(next.last() == bytes@[i as int]);
        }
        let entry: u32 = table[low as usize];
        crc = (mixed >> 8) ^ entry;
        i = i + 1;
    }
    assert(bytes@.take(bytes@.len() as int) =~= bytes@);
    crc ^ CRC_MASK
}

/// A shift loses nothing: the top bit of the result tells which branch was
/// taken.
proof fn lemma_shift8_injective(a: u32, b: u32)
    requires
        a != b,
    ensures
        crc_shift(a, 8) != crc_shift(b, 8),
{
    lemma_shift8(a);
    lemma_shift8(b);
    assert(forall|x: u32, y: u32| crc_bit(x) == crc_bit(y) ==> x == y) by (bit_vector);
}

/// Absorbing the same byte keeps two different registers different, and
/// absorbing different bytes makes two equal registers different.
proof fn lemma_absorb_injective(c: u32, d: u32, x: u8, y: u8)
    requires
        (c != d && x == y) || (c == d && x != y),
    ensures
        crc_absorb(c, x) != crc_absorb(d, y),
{
    let p = x as u32;
    let q = y as u32;
    assert((c != d && p == q) || (c == d && p != q) ==> c ^ p != d ^ q) by (bit_vector);
    lemma_shift8_injective(c ^ p, d ^ q);
}

proof fn lemma_register_detects_change(s: Seq<u8>, i: int, b: u8)
    requires
        0 <= i < s.len(),
        s[i] != b,
    ensures
        crc_register(s.update(i, b)) != crc_register(s),
    decreases s.len(),
{
    let t = s.update(i, b);
    if i == s.len() - 1 {
        assert(t.drop_last() =~= s.drop_last());
        lemma_absorb_injective(
            crc_register(t.drop_last()),
            crc_register(s.drop_last()),
            t.last(),
            s.last(),
        );
    } else {
        lemma_register_detects_change(s.drop_last(), i, b);
        assert(t.drop_last() =~= s.drop_last().update(i, b));
        lemma_absorb_injective(
            crc_register(t.drop_last()),
            crc_register(s.drop_last()),
            t.last(),
            s.last(),
        );
    }
}

/// Changing any one byte of a message, to any other value, changes its CRC.
pub proof fn law_one_changed_byte_changes_crc(s: Seq<u8>, i: int, b: u8)
    requires
        0 <= i < s.len(),
        s[i] != b,
    ensures
        crc32_of(s.update(i, b)) != crc32_of(s),
{
    lemma_register_detects_change(s, i, b);
    let x = crc_register(s.update(i, b));
    let y = crc_register(s);
    assert(x != y ==> x ^ CRC_MASK != y ^ CRC_MASK) by (bit_vector);
}

/// The CRC-32 goes byte by byte and bit by bit: it is 0 of nothing, a byte is mixed into
/// the low end of the inverted register, and each of eight shifts mixes in the reversed
/// polynomial if a one falls out.
pub proof fn law_crc_goes_bit_by_bit(s: Seq<u8>, b: u8, c: u32, n: nat)
    ensures
        crc32_of(Seq::<u8>::empty()) == 0,
        crc32_of(s.push(b)) == crc_shift((crc32_of(s) ^ 0xFFFF_FFFFu32) ^ (b as u32), 8)
            ^ 0xFFFF_FFFFu32,
        crc_shift(c, 0) == c,
        crc_shift(c, n + 1) == if crc_shift(c, n) & 1 != 0 {
            (crc_shift(c, n) >> 1) ^ 0xEDB8_8320u32
        } else {
            crc_shift(c, n) >> 1
        },
{
    assert(s.push(b).drop_last() =~= s);
    let r = crc_register(s);
    assert((r ^ 0xFFFF_FFFFu32) ^ 0xFFFF_FFFFu32 == r) by (bit_vector);
    assert(0xFFFF_FFFFu32 ^ 0xFFFF_FFFFu32 == 0) by (bit_vector);
}

} // verus!
