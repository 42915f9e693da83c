//! Generator bitmasks: bit `b` of a mask is set when generator `b` takes part in a blade.
use vstd::arithmetic::power2::{lemma2_to64, lemma_pow2_pos, lemma_pow2_unfold, pow2};
use vstd::bits::{
    lemma_usize_low_bits_mask_is_mod, lemma_usize_pow2_no_overflow, lemma_usize_shl_is_mul,
    lemma_usize_shr_is_div, low_bits_mask,
};
use vstd::prelude::*;

verus! {

/// Number of generators in a mask (its population count).
pub open spec fn ones(x: nat) -> nat
    decreases x,
{
    if x == 0 {
        0
    } else {
        x % 2 + ones(x / 2)
    }
}

/// The `len` generators of `x` starting at generator `lo`, as a mask of its own.
pub open spec fn bit_field(x: nat, lo: nat, len: nat) -> nat {
    (x / pow2(lo)) % pow2(len)
}

/// Number of pairs of a generator `a` of `l` and a generator `b` of `r` with `a > b`:
/// the transpositions needed to sort the generators of `l` followed by those of `r`.
pub open spec fn inversions(l: nat, r: nat) -> nat
    decreases r,
{
    if l == 0 || r == 0 {
        0
    } else {
        (if r % 2 == 1 {
            ones(l / 2)
        } else {
            0
        }) + inversions(l / 2, r / 2)
    }
}

/// A mask below `2^n` has at most `n` generators.
pub proof fn lemma_ones_bound(x: nat, n: nat)
    requires
        x < pow2(n),
    ensures
        ones(x) <= n,
    decreases n,
{
    if n == 0 {
        lemma2_to64();
    } else if x != 0 {
        lemma_pow2_unfold(n);
        lemma_ones_bound(x / 2, (n - 1) as nat);
    }
}

/// Adding the generator `d` to a mask below `2^d` adds one generator.
pub proof fn lemma_ones_add_top(x: nat, d: nat)
    requires
        x < pow2(d),
    ensures
        ones(x + pow2(d)) == ones(x) + 1,
    decreases d,
{
    lemma_pow2_pos(d);
    if d == 0 {
        lemma2_to64();
        assert(x == 0);
        assert(ones(1) == 1) by {
            assert(ones(0) == 0);
        }
    } else {
        lemma_pow2_unfold(d);
        let h = pow2((d - 1) as nat);
        assert((x + pow2(d)) % 2 == x % 2);
        assert((x + pow2(d)) / 2 == x / 2 + h);
        lemma_ones_add_top(x / 2, (d - 1) as nat);
    }
}

/// The generators of `2^i` are `i` alone.
pub proof fn lemma_ones_pow2(i: nat)
    ensures
        ones(pow2(i)) == 1,
{
    lemma_pow2_pos(i);
    lemma_ones_add_top(0, i);
    assert(ones(0) == 0);
}

/// Every machine word lies below `2^usize::BITS`.
pub proof fn lemma_word_below_pow2(x: usize)
    ensures
        x < pow2(usize::BITS as nat),
{
    lemma2_to64();
    assert(usize::BITS == 32 || usize::BITS == 64);
}

/// Population count of a machine word.
pub fn count_ones(x: usize) -> (r: usize)
    ensures
        r == ones(x as nat),
        r <= usize::BITS,
{
    let mut y = x;
    let mut c: usize = 0;
    proof {
        lemma_word_below_pow2(x);
        lemma_ones_bound(x as nat, usize::BITS as nat);
    }
    while y != 0
        invariant
            ones(x as nat) == c + ones(y as nat),
            ones(x as nat) <= usize::BITS,
        decreases y,
    {
        assert(y & 1 == y % 2 && y >> 1 == y / 2) by (bit_vector);
        c = c + (y & 1);
        y = y >> 1;
    }
    c
}

/// Extracts the field of `len` generators of `x` that starts at generator `lo`.
pub fn field_of(x: usize, lo: usize, len: usize) -> (r: usize)
    requires
        lo < usize::BITS,
        len < usize::BITS,
    ensures
        r == bit_field(x as nat, lo as nat, len as nat),
{
    proof {
        lemma_usize_shr_is_div(x, lo);
        lemma_usize_pow2_no_overflow(len as nat);
        lemma_usize_shl_is_mul(1, len);
        lemma_usize_low_bits_mask_is_mod(x >> lo, len as nat);
    }
    let mask = (1usize << len) - 1;
    assert(mask == low_bits_mask(len as nat));
    (x >> lo) & mask
}

/// Whether the number of transpositions that bring the generators of `lhs` followed by
/// those of `rhs` into ascending order is odd.
pub fn odd_inversions(lhs: usize, rhs: usize) -> (r: bool)
    ensures
        r == (inversions(lhs as nat, rhs as nat) % 2 == 1),
{
    let mut l = lhs;
    let mut rest = rhs;
    let mut odd = false;
    while l != 0 && rest != 0
        invariant
            (inversions(lhs as nat, rhs as nat) % 2 == 1) == (odd != (inversions(
                l as nat,
                rest as nat,
            ) % 2 == 1)),
        decreases rest,
    {
        assert(rest & 1 == rest % 2 && rest >> 1 == rest / 2 && l >> 1 == l / 2) by (bit_vector);
        if rest & 1 == 1 {
            let c = count_ones(l >> 1);
            if c % 2 == 1 {
                odd = !odd;
            }
        }
        l = l >> 1;
        rest = rest >> 1;
    }
    odd
}

} // verus!
