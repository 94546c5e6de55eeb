//! Wraparound index arithmetic for capacities that are powers of two.
//!
//! Indices are stepped with wrapping machine arithmetic and brought back into
//! range with the mask `cap - 1`; the contracts state the result as a
//! remainder modulo `cap`.

use vstd::arithmetic::div_mod::lemma_fundamental_div_mod_converse_mod;
use vstd::arithmetic::power::{lemma_pow_positive, pow};
use vstd::arithmetic::power2::{
    is_pow2, is_pow2_equiv, is_pow2_exists, lemma2_to64, lemma_pow2_strictly_increases, pow2,
};
use vstd::prelude::*;

verus! {

/// Whether `cap` slots can back a ring: a power of two greater than one.
pub open spec fn valid_capacity(cap: int) -> bool {
    cap > 1 && is_pow2(cap)
}

/// The valid capacities are 2, 4, 8 and so on: the powers of two from the
/// first on.
pub proof fn lemma_valid_capacity(cap: int)
    ensures
        valid_capacity(cap) <==> exists|k: nat| k >= 1 && cap == pow2(k),
{
    is_pow2_equiv(cap);
    lemma2_to64();
    if valid_capacity(cap) {
        let k = choose|k: nat| pow(2, k) == cap;
        assert(k >= 1 && cap == pow2(k));
    }
    if exists|k: nat| k >= 1 && cap == pow2(k) {
        let k = choose|k: nat| k >= 1 && cap == pow2(k);
        lemma_pow2_strictly_increases(0, k);
        lemma_pow_positive(2, k);
        assert(pow(2, k) == cap);
        assert(is_pow2_exists(cap));
    }
}

/// The remainder modulo `cap`, written out for arguments within one lap of
/// the range `0..cap`.
pub proof fn lemma_wrap(x: int, cap: int)
    requires
        cap > 0,
        -cap <= x < 2 * cap,
    ensures
        x % cap == (if x < 0 {
            x + cap
        } else if x < cap {
            x
        } else {
            x - cap
        }),
{
    if x < 0 {
        lemma_fundamental_div_mod_converse_mod(x, cap, -1, x + cap);
    } else if x < cap {
        lemma_fundamental_div_mod_converse_mod(x, cap, 0, x);
    } else {
        lemma_fundamental_div_mod_converse_mod(x, cap, 1, x - cap);
    }
}

/// A power of two shares no bit with its predecessor, so `cap - 1` is the
/// mask of the bits below it.
proof fn lemma_mask_bits(cap: usize)
    requires
        is_pow2(cap as int),
    ensures
        cap > 0,
        cap & ((cap - 1) as usize) == 0,
    decreases cap,
{
    reveal(is_pow2);
    if cap == 1 {
        assert(1usize & 0usize == 0) by (bit_vector);
    } else {
        let half = cap / 2;
        lemma_mask_bits(half);
        assert(cap & ((cap - 1) as usize) == 0) by (bit_vector)
            requires
                half > 0,
                half & ((half - 1) as usize) == 0,
                cap == 2 * half,
        ;
    }
}

/// The index after `i` on a ring of `cap` slots.
#[inline]
pub(crate) fn step_up(i: usize, cap: usize) -> (next: usize)
    requires
        valid_capacity(cap as int),
        i < cap,
    ensures
        next == (i + 1) % (cap as int),
        next < cap,
{
    let mask = cap - 1;
    let raw = i.wrapping_add(1);
    proof {
        lemma_mask_bits(cap);
        lemma_wrap(i + 1, cap as int);
        assert(raw & mask == (if i + 1 == cap {
            0usize
        } else {
            (i + 1) as usize
        })) by (bit_vector)
            requires
                cap > 1,
                cap & ((cap - 1) as usize) == 0,
                i < cap,
                mask == (cap - 1) as usize,
                raw == i + 1,
        ;
    }
    raw & mask
}

/// The index before `i` on a ring of `cap` slots.
#[inline]
pub(crate) fn step_down(i: usize, cap: usize) -> (prev: usize)
    requires
        valid_capacity(cap as int),
        i < cap,
    ensures
        prev == (i - 1) % (cap as int),
        prev < cap,
{
    let mask = cap - 1;
    let raw = i.wrapping_sub(1);
    proof {
        // The bit-vector solver has no name for the largest `usize`. That
        // `top + 1` does not fit into a `usize` tells it which value `top` is.
        let top = usize::MAX;
        lemma_mask_bits(cap);
        lemma_wrap(i - 1, cap as int);
        assert(raw & mask == (if i == 0 {
            (cap - 1) as usize
        } else {
            (i - 1) as usize
        })) by (bit_vector)
            requires
                cap > 1,
                cap & ((cap - 1) as usize) == 0,
                i < cap,
                mask == (cap - 1) as usize,
                (top + 1) as usize != top + 1,
                raw == (if i == 0 {
                    top
                } else {
                    (i - 1) as usize
                }),
        ;
    }
    raw & mask
}

/// The number of steps from `from` up to `to` on a ring of `cap` slots.
#[inline]
pub(crate) fn span(from: usize, to: usize, cap: usize) -> (steps: usize)
    requires
        valid_capacity(cap as int),
        from < cap,
        to < cap,
    ensures
        steps == (to - from) % (cap as int),
        steps < cap,
{
    let mask = cap - 1;
    let raw = to.wrapping_sub(from);
    proof {
        // As in `step_down`, `top` stands for the largest `usize`; a
        // subtraction that wraps adds `top + 1` to the difference.
        let top = usize::MAX;
        lemma_mask_bits(cap);
        lemma_wrap(to - from, cap as int);
        assert(raw & mask == (if to >= from {
            (to - from) as usize
        } else {
            (to + cap - from) as usize
        })) by (bit_vector)
            requires
                cap > 1,
                cap & ((cap - 1) as usize) == 0,
                from < cap,
                to < cap,
                mask == (cap - 1) as usize,
                (top + 1) as usize != top + 1,
                to >= from ==> raw == to - from,
                to < from ==> raw + from == to + top + 1,
        ;
    }
    raw & mask
}

} // verus!
