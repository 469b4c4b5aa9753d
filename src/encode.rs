//! Fixed-width big-endian integers and decimal numerals, as bytes.

use vstd::prelude::*;

verus! {

/// Four bytes, most significant first.
pub open spec fn be32(v: u32) -> Seq<u8> {
    seq![
        (v / 0x100_0000) as u8,
        (v / 0x1_0000 % 0x100) as u8,
        (v / 0x100 % 0x100) as u8,
        (v % 0x100) as u8,
    ]
}

/// Two bytes, most significant first.
pub open spec fn be16(v: u16) -> Seq<u8> {
    seq![(v / 0x100) as u8, (v % 0x100) as u8]
}

/// The value of four bytes read most significant first.
pub open spec fn read_be32(b: Seq<u8>) -> u32 {
    (b[0] as int * 0x100_0000 + b[1] as int * 0x1_0000 + b[2] as int * 0x100 + b[3] as int) as u32
}

/// The value of two bytes read most significant first.
pub open spec fn read_be16(b: Seq<u8>) -> u16 {
    (b[0] as int * 0x100 + b[1] as int) as u16
}

/// The decimal numeral of `n`, without leading zeros.
pub open spec fn decimal_of(n: nat) -> Seq<u8>
    decreases n,
{
    if n < 10 {
        seq![(48 + n) as u8]
    } else {
        decimal_of(n / 10).push((48 + n % 10) as u8)
    }
}

pub proof fn lemma_be32_round_trip(v: u32)
    ensures
        be32(v).len() == 4,
        read_be32(be32(v)) == v,
{
    let b = be32(v);
    assert(b[0] as int == v / 0x100_0000);
    assert(b[1] as int == v / 0x1_0000 % 0x100);
    assert(b[2] as int == v / 0x100 % 0x100);
    assert(b[3] as int == v % 0x100);
    assert((v / 0x100_0000) * 0x100_0000 + (v / 0x1_0000 % 0x100) * 0x1_0000 + (v / 0x100 % 0x100)
        * 0x100 + v % 0x100 == v) by (nonlinear_arith);
}

pub proof fn lemma_be16_round_trip(v: u16)
    ensures
        be16(v).len() == 2,
        read_be16(be16(v)) == v,
{
    assert((v / 0x100) * 0x100 + v % 0x100 == v) by (nonlinear_arith);
}

/// Ten to the power `k`.
pub open spec fn pow10(k: nat) -> nat
    decreases k,
{
    if k == 0 {
        1
    } else {
        10 * pow10((k - 1) as nat)
    }
}

proof fn lemma_decimal_len_below(n: nat, k: nat)
    requires
        n < pow10(k),
        k >= 1,
    ensures
        1 <= decimal_of(n).len() <= k,
    decreases n,
{
    if n >= 10 {
        assert(k >= 2) by {
            if k == 1 {
                assert(pow10(1) == 10) by {
                    reveal_with_fuel(pow10, 2);
                }
            }
        }
        assert(n / 10 < pow10((k - 1) as nat));
        lemma_decimal_len_below(n / 10, (k - 1) as nat);
    }
}

/// The numeral of a 64-bit value has at most twenty digits.
pub proof fn lemma_decimal_len(n: u64)
    ensures
        1 <= decimal_of(n as nat).len() <= 20,
{
    assert(pow10(20) == 100_000_000_000_000_000_000) by {
        reveal_with_fuel(pow10, 21);
    }
    lemma_decimal_len_below(n as nat, 20);
}

/// Appends `v` to `out` as four big-endian bytes.
pub fn push_be32(out: &mut Vec<u8>, v: u32)
    ensures
        final(out)@ == old(out)@ + be32(v),
{
    out.push((v / 0x100_0000) as u8);
    out.push((v / 0x1_0000 % 0x100) as u8);
    out.push((v / 0x100 % 0x100) as u8);
    out.push((v % 0x100) as u8);
    assert(final(out)@ =~= old(out)@ + be32(v));
}

/// Appends `v` to `out` as two big-endian bytes.
pub fn push_be16(out: &mut Vec<u8>, v: u16)
    ensures
        final(out)@ == old(out)@ + be16(v),
{
    out.push((v / 0x100) as u8);
    out.push((v % 0x100) as u8);
    assert(final(out)@ =~= old(out)@ + be16(v));
}

/// Reads four big-endian bytes of `b` from `at`.
pub fn get_be32(b: &[u8], at: usize) -> (r: u32)
    requires
        at + 4 <= b@.len(),
    ensures
        r == read_be32(b@.subrange(at as int, at + 4)),
{
    let r = (b[at] as u32) * 0x100_0000 + (b[at + 1] as u32) * 0x1_0000 + (b[at + 2] as u32)
        * 0x100 + (b[at + 3] as u32);
    r
}

/// Reads two big-endian bytes of `b` from `at`.
pub fn get_be16(b: &[u8], at: usize) -> (r: u16)
    requires
        at + 2 <= b@.len(),
    ensures
        r == read_be16(b@.subrange(at as int, at + 2)),
{
    (b[at] as u16) * 0x100 + (b[at + 1] as u16)
}

/// Appends the decimal numeral of `n` to `out`.
pub fn push_decimal(out: &mut Vec<u8>, n: u64)
    ensures
        final(out)@ == old(out)@ + decimal_of(n as nat),
    decreases n,
{
    if n < 10 {
        out.push((48 + n) as u8);
        assert(final(out)@ =~= old(out)@ + decimal_of(n as nat));
    } else {
        push_decimal(out, n / 10);
        out.push((48 + n % 10) as u8);
        assert(final(out)@ =~= old(out)@ + decimal_of(n as nat));
    }
}

} // verus!

verus! {

/// A copy of `b[lo..hi]`.
pub fn copy_range(b: &[u8], lo: usize, hi: usize) -> (r: Vec<u8>)
    requires
        lo <= hi <= b@.len(),
    ensures
        r@ == b@.subrange(lo as int, hi as int),
{
    let mut r: Vec<u8> = Vec::new();
    let mut i: usize = lo;
    while i < hi
        invariant
            lo <= i <= hi <= b@.len(),
            r@ == b@.subrange(lo as int, i as int),
        decreases hi - i,
    {
        r.push(b[i]);
        i = i + 1;
        assert(r@ =~= b@.subrange(lo as int, i as int));
    }
    r
}

} // verus!
