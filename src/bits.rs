//! Single-word bit operations used by the bit-tree set.
use bitintr::{Bzhi, Tzcnt};
use vstd::prelude::*;
use vstd::std_specs::bits::axiom_u64_trailing_zeros;

verus! {

/// Bit `b` of the word `w` is set.
pub open spec fn has_bit(w: u64, b: u64) -> bool {
    (w >> b) & 1u64 == 1u64
}

pub proof fn lemma_set_bit(w: u64, b: u64, c: u64)
    requires
        b < 64,
        c < 64,
    ensures
        has_bit(w | (1u64 << b), c) == (c == b || has_bit(w, c)),
{
    assert(((w | (1u64 << b)) >> c) & 1u64 == 1u64 <==> (c == b || (w >> c) & 1u64 == 1u64))
        by (bit_vector)
        requires
            b < 64,
            c < 64,
    ;
}

pub proof fn lemma_clear_bit(w: u64, b: u64, c: u64)
    requires
        b < 64,
        c < 64,
    ensures
        has_bit(w & !(1u64 << b), c) == (c != b && has_bit(w, c)),
{
    assert(((w & !(1u64 << b)) >> c) & 1u64 == 1u64 <==> (c != b && (w >> c) & 1u64 == 1u64))
        by (bit_vector)
        requires
            b < 64,
            c < 64,
    ;
}

/// Clearing a bit that is not set leaves the word as it was.
pub proof fn lemma_clear_absent_bit(w: u64, b: u64)
    requires
        b < 64,
        !has_bit(w, b),
    ensures
        w & !(1u64 << b) == w,
{
    assert((w >> b) & 1u64 != 1u64 ==> w & !(1u64 << b) == w) by (bit_vector)
        requires
            b < 64,
    ;
}

pub proof fn lemma_low_mask_bit(w: u64, n: u64, c: u64)
    requires
        n < 64,
        c < 64,
    ensures
        has_bit(w & !(0xffff_ffff_ffff_ffffu64 << n), c) == (c < n && has_bit(w, c)),
{
    assert(((w & !(0xffff_ffff_ffff_ffffu64 << n)) >> c) & 1u64 == 1u64 <==> (c < n && (w >> c) & 1u64
        == 1u64)) by (bit_vector)
        requires
            n < 64,
            c < 64,
    ;
}

/// A word is zero exactly when none of its 64 bits is set.
pub proof fn lemma_zero_iff_no_bits(w: u64)
    ensures
        w == 0 <==> forall|c: u64| c < 64 ==> !has_bit(w, c),
{
    broadcast use axiom_u64_trailing_zeros;

    if w == 0 {
        assert forall|c: u64| c < 64 implies !has_bit(w, c) by {
            assert((0u64 >> c) & 1u64 == 0u64) by (bit_vector);
        }
    } else {
        let t = w.trailing_zeros() as u64;
        assert(has_bit(w, t));
    }
}

/// Relies on bitintr's `Tzcnt::tzcnt` for `u64`, which returns
/// `trailing_zeros` of its argument.
#[verifier::external_body]
fn tzcnt(w: u64) -> (r: u64)
    ensures
        r == w.trailing_zeros() as u64,
{
    w.tzcnt()
}

/// Relies on bitintr's `Bzhi::bzhi` for `u64`: the bits at positions `n` and
/// above are cleared, for `n` below 64.
#[verifier::external_body]
fn bzhi(w: u64, n: u32) -> (r: u64)
    requires
        n < 64,
    ensures
        r == w & !(0xffff_ffff_ffff_ffffu64 << n as u64),
{
    w.bzhi(n)
}

/// Relies on `u64::reverse_bits`: bit `c` of the result is bit `63 - c` of
/// the argument.
#[verifier::external_body]
fn reverse_bits(w: u64) -> (r: u64)
    ensures
        forall|c: u64| c < 64 ==> has_bit(r, c) == has_bit(w, (63 - c) as u64),
{
    w.reverse_bits()
}

/// The lowest set bit of `word` that is strictly above position `x`.
pub fn next_sibling(word: u64, x: u32) -> (r: Option<usize>)
    requires
        x < 64,
    ensures
        match r {
            None => forall|c: u64| x < c < 64 ==> !has_bit(word, c),
            Some(s) => x < s < 64 && has_bit(word, s as u64) && forall|c: u64|
                x < c < s ==> !has_bit(word, c),
        },
{
    broadcast use axiom_u64_trailing_zeros;

    let reversed = reverse_bits(word);
    let kept = bzhi(reversed, 63u32 - x);
    let clear_low = reverse_bits(kept);
    assert forall|c: u64| c < 64 implies has_bit(clear_low, c) == (x < c && has_bit(word, c)) by {
        lemma_low_mask_bit(reversed, (63 - x) as u64, (63 - c) as u64);
    }
    proof {
        lemma_zero_iff_no_bits(clear_low);
    }
    if clear_low == 0 {
        None
    } else {
        let t = clear_low.trailing_zeros();
        assert(has_bit(clear_low, t as u64));
        Some(t as usize)
    }
}

/// The lowest set bit of a non-zero word.
pub fn lowest_bit(word: u64) -> (r: usize)
    requires
        word != 0,
    ensures
        r < 64,
        has_bit(word, r as u64),
        forall|c: u64| c < r ==> !has_bit(word, c),
{
    broadcast use axiom_u64_trailing_zeros;

    let t = tzcnt(word);
    t as usize
}

} // verus!
