//! Signatures: how many generators square to +1, to -1 and to 0.
//!
//! Generator bits are laid out as the positive generators first, then the negative ones,
//! then the null ones.
use crate::grading::{
    binomial, blade_index, blade_mask, count_grade, grade_start, lemma_binomial_above,
    lemma_binomial_bound, lemma_binomial_step, lemma_blade_index_formula,
    lemma_blade_index_injective, lemma_blade_mask, lemma_count_grade_pow2,
    lemma_grade_start_mono, lemma_grade_start_top, precedes, rank,
};
use crate::mask::{bit_field, count_ones, field_of, inversions, odd_inversions, ones};
use vstd::arithmetic::power2::{lemma_pow2_adds, lemma_pow2_pos, pow2};
use vstd::bits::{lemma_usize_pow2_no_overflow, lemma_usize_shl_is_mul};
use vstd::prelude::*;

verus! {

/// The signature of a Clifford algebra: the numbers of generators that square to +1, to -1
/// and to 0. Its dimension stays below the number of bits of a machine word, so that every
/// blade has a generator mask and a slot that fit in a `usize`.
#[derive(Clone, Copy, Debug, PartialEq, Eq, Structural)]
pub struct Clifford {
    positive: usize,
    negative: usize,
    zero: usize,
}

/// `2^e` fits in a machine word for every exponent below its number of bits.
proof fn lemma_pow2_fits(e: nat)
    requires
        e < usize::BITS,
    ensures
        0 < pow2(e) < usize::MAX,
{
    lemma_usize_pow2_no_overflow(e);
}

impl Clifford {
    #[verifier::type_invariant]
    closed spec fn well_formed(self) -> bool {
        self.positive + self.negative + self.zero < usize::BITS
    }

    /// Number of generators that square to +1.
    pub closed spec fn positive_count(self) -> nat {
        self.positive as nat
    }

    /// Number of generators that square to -1.
    pub closed spec fn negative_count(self) -> nat {
        self.negative as nat
    }

    /// Number of generators that square to 0.
    pub closed spec fn null_count(self) -> nat {
        self.zero as nat
    }

    pub open spec fn spec_dim(self) -> nat {
        self.positive_count() + self.negative_count() + self.null_count()
    }

    pub open spec fn spec_size(self) -> nat {
        pow2(self.spec_dim())
    }

    /// Whether the mask `x` holds a null generator.
    pub open spec fn touches_null(self, x: nat) -> bool {
        bit_field(x, self.positive_count() + self.negative_count(), self.null_count()) != 0
    }

    /// Whether the mask `x` holds an odd number of negative generators.
    pub open spec fn negative_parity(self, x: nat) -> bool {
        ones(bit_field(x, self.positive_count(), self.negative_count())) % 2 == 1
    }

    /// The signature with the given counts, when its dimension fits a machine word.
    pub fn new(positive: usize, negative: usize, zero: usize) -> (r: Option<Clifford>)
        ensures
            r is Some <==> positive + negative + zero < usize::BITS,
            r matches Some(c) ==> c.positive_count() == positive && c.negative_count()
                == negative && c.null_count() == zero,
    {
        if positive < usize::BITS as usize && negative < usize::BITS as usize && zero
            < usize::BITS as usize && positive + negative + zero < usize::BITS as usize {
            Some(Clifford { positive, negative, zero })
        } else {
            None
        }
    }

    /// Number of generators.
    pub fn dim(self) -> (r: usize)
        ensures
            r == self.spec_dim(),
            r < usize::BITS,
    {
        proof {
            use_type_invariant(&self);
        }
        self.positive + self.negative + self.zero
    }

    /// Number of blades, `2^dim`.
    pub fn size(self) -> (r: usize)
        ensures
            r == self.spec_size(),
            self.spec_dim() < usize::BITS,
    {
        let d = self.dim();
        proof {
            lemma_pow2_fits(d as nat);
            lemma_usize_shl_is_mul(1, d);
        }
        1usize << d
    }

    /// Mask of the negative generators: bits `positive .. positive + negative`.
    pub fn negative_bits(self) -> (r: usize)
        ensures
            r == pow2(self.positive_count() + self.negative_count()) - pow2(
                self.positive_count(),
            ),
    {
        proof {
            use_type_invariant(&self);
        }
        low_mask_shifted(self.negative, self.positive)
    }

    /// Mask of the null generators: bits `positive + negative .. dim`.
    pub fn zero_bits(self) -> (r: usize)
        ensures
            r == pow2(self.spec_dim()) - pow2(self.positive_count() + self.negative_count()),
    {
        proof {
            use_type_invariant(&self);
        }
        low_mask_shifted(self.zero, self.positive + self.negative)
    }

    /// Whether a blade with generator mask `x` holds a null generator, so that it squares
    /// to zero.
    pub fn zero_by_form(self, x: usize) -> (r: bool)
        ensures
            r == self.touches_null(x as nat),
    {
        proof {
            use_type_invariant(&self);
        }
        field_of(x, self.positive + self.negative, self.zero) != 0
    }

    /// Whether a blade with generator mask `x` holds an odd number of negative generators,
    /// so that its square carries a minus sign.
    pub fn flip_by_form(self, x: usize) -> (r: bool)
        ensures
            r == self.negative_parity(x as nat),
    {
        proof {
            use_type_invariant(&self);
        }
        count_ones(field_of(x, self.positive, self.negative)) % 2 == 1
    }

    /// Whether bringing the generators of `lhs` followed by those of `rhs` into ascending
    /// order takes an odd number of transpositions, each of which flips the sign.
    pub fn flip_by_anticommutativity(lhs: usize, rhs: usize) -> (r: bool)
        ensures
            r == (inversions(lhs as nat, rhs as nat) % 2 == 1),
    {
        odd_inversions(lhs, rhs)
    }

    /// Storage slot of the blade with generator mask `x`: the number of masks below
    /// `size` that come before it, by grade and then by value.
    pub fn bit_to_blade(self, x: usize) -> (r: usize)
        ensures
            r == blade_index(self.spec_dim(), x as nat),
    {
        let size = self.size();
        let g = count_ones(x);
        let mut n: usize = 0;
        let mut i: usize = 0;
        while i < size
            invariant
                i <= size,
                n <= i,
                n == rank(i as nat, x as nat),
                g == ones(x as nat),
                size == self.spec_size(),
            decreases size - i,
        {
            let gi = count_ones(i);
            if gi < g || (gi == g && i < x) {
                n = n + 1;
            }
            assert(rank((i + 1) as nat, x as nat) == rank(i as nat, x as nat) + if precedes(
                i as nat,
                x as nat,
            ) {
                1nat
            } else {
                0nat
            });
            i = i + 1;
        }
        n
    }

    /// Generator mask of the blade stored in slot `y`.
    pub fn blade_to_bit(self, y: usize) -> (r: usize)
        requires
            y < self.spec_size(),
        ensures
            r < self.spec_size(),
            r == blade_mask(self.spec_dim(), y as nat),
            blade_index(self.spec_dim(), r as nat) == y,
    {
        let d = self.dim();
        let ghost dn = d as nat;
        proof {
            lemma_pow2_fits(dn);
        }
        let mut g: usize = 0;
        let mut c: usize = 1;
        let mut base: usize = 0;
        proof {
            lemma_grade_start_mono(dn, 1, dn + 1);
            lemma_grade_start_top(dn, dn + 1);
        }
        while base + c <= y
            invariant
                d == dn,
                dn < usize::BITS,
                dn == self.spec_dim(),
                y < pow2(dn),
                pow2(dn) < usize::MAX,
                g <= dn,
                base == grade_start(dn, g as nat),
                c == binomial(dn, g as nat),
                base <= y,
                base + c <= pow2(dn),
            decreases dn - g,
        {
            proof {
                if g + 1 > dn {
                    lemma_grade_start_top(dn, (g + 1) as nat);
                }
            }
            base = base + c;
            c = binomial_next(d, g, c);
            g = g + 1;
            proof {
                lemma_grade_start_mono(dn, (g + 1) as nat, dn + 1);
                lemma_grade_start_top(dn, dn + 1);
            }
        }
        let target = y - base;
        let mut k: usize = 0;
        let mut j: usize = 0;
        proof {
            lemma_count_grade_pow2(dn, g as nat);
        }
        loop
            invariant
                d == dn,
                dn == self.spec_dim(),
                y < pow2(dn),
                pow2(dn) < usize::MAX,
                base == grade_start(dn, g as nat),
                y == base + target,
                target < binomial(dn, g as nat),
                binomial(dn, g as nat) == count_grade(pow2(dn), g as nat),
                k < pow2(dn),
                j == count_grade(k as nat, g as nat),
                j <= target,
            decreases pow2(dn) - k,
        {
            if count_ones(k) == g {
                if j == target {
                    proof {
                        lemma_blade_index_formula(dn, k as nat);
                        lemma_blade_mask(dn, y as nat);
                        lemma_blade_index_injective(dn, k as nat, blade_mask(dn, y as nat));
                    }
                    return k;
                }
                j = j + 1;
            }
            assert(count_grade((k + 1) as nat, g as nat) == count_grade(k as nat, g as nat) + if ones(
                k as nat,
            ) == g {
                1nat
            } else {
                0nat
            });
            k = k + 1;
        }
    }

    /// Number of blades of grade `g`: `C(dim, g)`.
    pub fn grade_len(self, g: usize) -> (r: usize)
        ensures
            r == binomial(self.spec_dim(), g as nat),
    {
        let d = self.dim();
        if g > d {
            proof {
                lemma_binomial_above(d as nat, g as nat);
            }
            return 0;
        }
        let mut c: usize = 1;
        let mut k: usize = 0;
        while k < g
            invariant
                k <= g <= d,
                d < usize::BITS,
                c == binomial(d as nat, k as nat),
            decreases g - k,
        {
            c = binomial_next(d, k, c);
            k = k + 1;
        }
        c
    }

    /// First slot of grade `g`: the number of blades of lower grade,
    /// `C(dim, 0) + ... + C(dim, g - 1)`.
    pub fn grade_offset(self, g: usize) -> (r: usize)
        ensures
            r == grade_start(self.spec_dim(), g as nat),
    {
        let d = self.dim();
        let ghost dn = d as nat;
        proof {
            lemma_pow2_fits(dn);
        }
        let top = if g > d {
            d + 1
        } else {
            g
        };
        let mut base: usize = 0;
        let mut c: usize = 1;
        let mut k: usize = 0;
        while k < top
            invariant
                d == dn,
                dn < usize::BITS,
                pow2(dn) < usize::MAX,
                k <= top <= dn + 1,
                base == grade_start(dn, k as nat),
                c == binomial(dn, k as nat),
            decreases top - k,
        {
            proof {
                lemma_grade_start_mono(dn, (k + 1) as nat, dn + 1);
                lemma_grade_start_top(dn, dn + 1);
            }
            base = base + c;
            c = binomial_next(d, k, c);
            k = k + 1;
        }
        proof {
            if g > d {
                lemma_grade_start_top(dn, dn + 1);
                lemma_grade_start_top(dn, g as nat);
            }
        }
        base
    }
}

/// `((1 << len) - 1) << lo`: the mask of bits `lo .. lo + len`.
fn low_mask_shifted(len: usize, lo: usize) -> (r: usize)
    requires
        lo + len < usize::BITS,
    ensures
        r == pow2((lo + len) as nat) - pow2(lo as nat),
{
    let ghost p = pow2(len as nat);
    let ghost q = pow2(lo as nat);
    proof {
        lemma_pow2_fits(len as nat);
        lemma_pow2_fits((lo + len) as nat);
        lemma_usize_shl_is_mul(1, len);
        lemma_pow2_adds(len as nat, lo as nat);
        lemma_pow2_pos(lo as nat);
        assert((p - 1) * q <= p * q) by (nonlinear_arith)
            requires
                p > 0,
                q > 0,
        ;
        assert((p - 1) * q == p * q - q) by (nonlinear_arith);
    }
    let m = (1usize << len) - 1;
    proof {
        lemma_usize_shl_is_mul(m, lo);
    }
    m << lo
}

/// `C(d, k + 1)` from `C(d, k)`, as `C(d, k) * (d - k) / (k + 1)`.
fn binomial_next(d: usize, k: usize, c: usize) -> (r: usize)
    requires
        k <= d < usize::BITS,
        c == binomial(d as nat, k as nat),
    ensures
        r == binomial(d as nat, (k + 1) as nat),
{
    let ghost next = binomial(d as nat, (k + 1) as nat);
    proof {
        lemma_binomial_step(d as nat, k as nat);
        lemma_binomial_bound(d as nat, (k + 1) as nat);
        lemma_pow2_fits(d as nat);
        assert(c * (d - k) <= usize::MAX * 64) by (nonlinear_arith)
            requires
                c <= usize::MAX,
                d - k <= 64,
        ;
        assert((next * (k + 1)) / (k + 1) == next) by (nonlinear_arith)
            requires
                k + 1 > 0,
        ;
    }
    let t = (c as u128) * ((d - k) as u128);
    (t / ((k + 1) as u128)) as usize
}

/// Euclidean space of dimension `d`: `d` generators squaring to +1.
pub fn vga(d: usize) -> (r: Clifford)
    requires
        d < usize::BITS,
    ensures
        r.positive_count() == d,
        r.negative_count() == 0,
        r.null_count() == 0,
{
    Clifford { positive: d, negative: 0, zero: 0 }
}

/// Conformal-style signature: `d` generators squaring to +1 and one squaring to -1.
pub fn cga(d: usize) -> (r: Clifford)
    requires
        d + 1 < usize::BITS,
    ensures
        r.positive_count() == d,
        r.negative_count() == 1,
        r.null_count() == 0,
{
    Clifford { positive: d, negative: 1, zero: 0 }
}

/// Projective signature: `d` generators squaring to +1 and one squaring to 0.
pub fn pga(d: usize) -> (r: Clifford)
    requires
        d + 1 < usize::BITS,
    ensures
        r.positive_count() == d,
        r.negative_count() == 0,
        r.null_count() == 1,
{
    Clifford { positive: d, negative: 0, zero: 1 }
}

/// Spacetime algebra: one generator squaring to +1 and three squaring to -1.
pub fn sta() -> (r: Clifford)
    ensures
        r.positive_count() == 1,
        r.negative_count() == 3,
        r.null_count() == 0,
{
    Clifford { positive: 1, negative: 3, zero: 0 }
}

} // verus!
