//! Little-endian integers inside byte strings.

use vstd::arithmetic::div_mod::lemma_mod_breakdown;
use vstd::arithmetic::power::{lemma_pow_positive, pow};
use vstd::prelude::*;

verus! {

/// The `width` low bytes of `x`, least significant first.
pub open spec fn le_bytes(x: nat, width: nat) -> Seq<u8>
    decreases width,
{
    if width == 0 {
        Seq::empty()
    } else {
        seq![(x % 256) as u8] + le_bytes(x / 256, (width - 1) as nat)
    }
}

/// The number whose bytes are `s`, least significant first.
pub open spec fn le_value(s: Seq<u8>) -> nat
    decreases s.len(),
{
    if s.len() == 0 {
        0
    } else {
        s[0] as nat + 256 * le_value(s.skip(1))
    }
}

/// The number in the `width` bytes of `s` from `at` on.
pub open spec fn le_field(s: Seq<u8>, at: int, width: int) -> nat {
    le_value(s.subrange(at, at + width))
}

pub proof fn lemma_le_bytes_len(x: nat, width: nat)
    ensures
        le_bytes(x, width).len() == width,
    decreases width,
{
    if width > 0 {
        lemma_le_bytes_len(x / 256, (width - 1) as nat);
    }
}

/// Reading back what was written gives the number, cut to its `width` low
/// bytes.
pub proof fn lemma_le_round_trip(x: nat, width: nat)
    ensures
        le_value(le_bytes(x, width)) == x as int % pow(256, width),
    decreases width,
{
    lemma_le_bytes_len(x, width);
    if width == 0 {
        assert(pow(256, 0) == 1) by {
            reveal(pow);
        }
    } else {
        let rest = le_bytes(x / 256, (width - 1) as nat);
        let m = pow(256, (width - 1) as nat);
        assert(le_bytes(x, width).skip(1) =~= rest);
        lemma_le_round_trip(x / 256, (width - 1) as nat);
        lemma_pow_positive(256, (width - 1) as nat);
        assert(pow(256, width) == 256 * m) by {
            reveal(pow);
        }
        lemma_mod_breakdown(x as int, 256, m);
    }
}

/// The low bytes do not depend on what stands above them.
pub proof fn lemma_le_bytes_low(x: nat, width: nat, k: nat)
    requires
        width <= k,
    ensures
        le_bytes((x as int % pow(256, k)) as nat, width) == le_bytes(x, width),
    decreases width,
{
    if width > 0 {
        let m = pow(256, (k - 1) as nat);
        lemma_pow_positive(256, (k - 1) as nat);
        assert(pow(256, k) == 256 * m) by {
            reveal(pow);
        }
        lemma_mod_breakdown(x as int, 256, m);
        let low = x as int % pow(256, k);
        assert(low % 256 == x as int % 256 && low / 256 == (x as int / 256) % m);
        lemma_le_bytes_low(x / 256, (width - 1) as nat, (k - 1) as nat);
    }
}

/// Writing back what was read gives the bytes.
pub proof fn lemma_le_bytes_of_value(s: Seq<u8>)
    ensures
        le_bytes(le_value(s), s.len()) == s,
    decreases s.len(),
{
    if s.len() > 0 {
        lemma_le_bytes_of_value(s.skip(1));
        let v = le_value(s);
        assert(v % 256 == s[0] && v / 256 == le_value(s.skip(1)));
        assert(seq![s[0]] + s.skip(1) =~= s);
    } else {
        assert(le_bytes(0, 0) =~= s);
    }
}

/// A number of four bytes fits in a `u32`, one of eight in a `u64`.
pub proof fn lemma_le_value_bound(s: Seq<u8>)
    ensures
        le_value(s) < pow(256, s.len()),
    decreases s.len(),
{
    if s.len() > 0 {
        lemma_le_value_bound(s.skip(1));
        assert(pow(256, s.len()) == 256 * pow(256, (s.len() - 1) as nat)) by {
            reveal(pow);
        }
    } else {
        assert(pow(256, 0) == 1) by {
            reveal(pow);
        }
    }
}

pub proof fn lemma_pow256()
    ensures
        pow(256, 4) == 0x1_0000_0000,
        pow(256, 8) == 0x1_0000_0000_0000_0000,
{
    reveal_with_fuel(pow, 9);
}

/// Appends the `width` low bytes of `x` to `buf`, least significant first.
pub fn push_le(buf: &mut Vec<u8>, x: u64, width: usize)
    ensures
        final(buf)@ == old(buf)@ + le_bytes(x as nat, width as nat),
{
    let mut rest: u64 = x;
    let mut left: usize = width;
    assert(old(buf)@ + le_bytes(x as nat, width as nat) =~= buf@ + le_bytes(rest as nat, left as nat));
    while left > 0
        invariant
            old(buf)@ + le_bytes(x as nat, width as nat) == buf@ + le_bytes(
                rest as nat,
                left as nat,
            ),
        decreases left,
    {
        let ghost before = buf@;
        let ghost tail = le_bytes((rest / 256) as nat, (left - 1) as nat);
        buf.push((rest % 256) as u8);
        assert(before + (seq![(rest % 256) as u8] + tail) =~= buf@ + tail);
        rest = rest / 256;
        left = left - 1;
    }
    assert(buf@ + le_bytes(rest as nat, 0) =~= buf@);
}

/// Reads the number in the `width` bytes of `buf` from `at` on.
pub fn read_le(buf: &[u8], at: usize, width: usize) -> (x: u64)
    requires
        width <= 8,
        at + width <= buf@.len(),
    ensures
        x == le_field(buf@, at as int, width as int),
{
    let ghost field = buf@.subrange(at as int, at + width);
    let end: usize = buf.len();
    let mut x: u64 = 0;
    let mut left: usize = width;
    assert(field.skip(width as int) =~= Seq::<u8>::empty());
    while left > 0
        invariant
            left <= width <= 8,
            at + width <= end == buf@.len(),
            field == buf@.subrange(at as int, at + width),
            x == le_value(field.skip(left as int)),
        decreases left,
    {
        proof {
            let tail = field.skip(left as int);
            assert(field.skip(left - 1).skip(1) =~= tail);
            assert(field.skip(left - 1)[0] == buf@[at + left - 1]);
            lemma_le_value_bound(tail);
            lemma_pow_bound(tail.len());
        }
        x = buf[at + left - 1] as u64 + 256 * x;
        left = left - 1;
    }
    assert(field.skip(0) =~= field);
    x
}

proof fn lemma_pow_bound(n: nat)
    requires
        n <= 7,
    ensures
        pow(256, n) <= 0x100_0000_0000_0000,
{
    reveal_with_fuel(pow, 8);
}

/// Numbers are written with their least significant byte first.
pub proof fn law_least_significant_byte_first(x: nat, width: nat)
    requires
        width > 0,
    ensures
        le_bytes(x, width).len() == width,
        le_bytes(x, width)[0] == x % 256,
        le_bytes(x, width).skip(1) == le_bytes(x / 256, (width - 1) as nat),
{
    lemma_le_bytes_len(x, width);
    assert(le_bytes(x, width).skip(1) =~= le_bytes(x / 256, (width - 1) as nat));
}

/// A number is read with its least significant byte first.
pub proof fn law_bytes_are_read_in_order(s: Seq<u8>)
    ensures
        s.len() == 0 ==> le_value(s) == 0,
        s.len() > 0 ==> le_value(s) == s[0] + 256 * le_value(s.skip(1)),
{
}

} // verus!
