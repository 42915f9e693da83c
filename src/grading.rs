//! Grade-major storage order of blades, as a bijection between generator masks and slots.
//!
//! Slot order: blades of lower grade first, and within one grade by the numeric value of
//! their generator mask.
use crate::mask::{lemma_ones_add_top, lemma_ones_bound, ones};
use vstd::arithmetic::power2::{lemma2_to64, lemma_pow2_pos, lemma_pow2_unfold, pow2};
use vstd::prelude::*;

verus! {

/// The binomial coefficient `C(n, k)`, by Pascal's rule.
pub open spec fn binomial(n: nat, k: nat) -> nat
    decreases n,
{
    if k == 0 {
        1
    } else if n == 0 {
        0
    } else {
        binomial((n - 1) as nat, (k - 1) as nat) + binomial((n - 1) as nat, k)
    }
}

/// `C(d, 0) + ... + C(d, g - 1)`: the number of blades of grade below `g`, which is the
/// first slot of grade `g`.
pub open spec fn grade_start(d: nat, g: nat) -> nat
    decreases g,
{
    if g == 0 {
        0
    } else {
        grade_start(d, (g - 1) as nat) + binomial(d, (g - 1) as nat)
    }
}

/// Number of masks below `n` with exactly `g` generators.
pub open spec fn count_grade(n: nat, g: nat) -> nat
    decreases n,
{
    if n == 0 {
        0
    } else {
        count_grade((n - 1) as nat, g) + if ones((n - 1) as nat) == g {
            1nat
        } else {
            0nat
        }
    }
}

/// Number of masks below `n` with fewer than `g` generators.
pub open spec fn count_below(n: nat, g: nat) -> nat
    decreases n,
{
    if n == 0 {
        0
    } else {
        count_below((n - 1) as nat, g) + if ones((n - 1) as nat) < g {
            1nat
        } else {
            0nat
        }
    }
}

/// Whether the blade with mask `i` is stored before the blade with mask `x`.
pub open spec fn precedes(i: nat, x: nat) -> bool {
    ones(i) < ones(x) || (ones(i) == ones(x) && i < x)
}

/// Number of masks below `n` whose blades are stored before the blade with mask `x`.
pub open spec fn rank(n: nat, x: nat) -> nat
    decreases n,
{
    if n == 0 {
        0
    } else {
        rank((n - 1) as nat, x) + if precedes((n - 1) as nat, x) {
            1nat
        } else {
            0nat
        }
    }
}

/// Storage slot of the blade with generator mask `x` among the `2^d` blades of dimension `d`.
pub open spec fn blade_index(d: nat, x: nat) -> nat {
    rank(pow2(d), x)
}

/// Generator mask of the blade stored in slot `y` in dimension `d`.
pub open spec fn blade_mask(d: nat, y: nat) -> nat {
    choose|x: nat| x < pow2(d) && blade_index(d, x) == y
}

pub proof fn lemma_binomial_bound(n: nat, k: nat)
    ensures
        binomial(n, k) <= pow2(n),
    decreases n,
{
    lemma_pow2_pos(n);
    if k != 0 && n != 0 {
        lemma_pow2_unfold(n);
        lemma_binomial_bound((n - 1) as nat, (k - 1) as nat);
        lemma_binomial_bound((n - 1) as nat, k);
    }
}

pub proof fn lemma_binomial_above(n: nat, k: nat)
    requires
        k > n,
    ensures
        binomial(n, k) == 0,
    decreases n,
{
    if n != 0 {
        lemma_binomial_above((n - 1) as nat, (k - 1) as nat);
        lemma_binomial_above((n - 1) as nat, k);
    }
}

/// `C(n, k + 1) * (k + 1) == C(n, k) * (n - k)`.
pub proof fn lemma_binomial_step(n: nat, k: nat)
    requires
        k <= n,
    ensures
        binomial(n, k + 1) * (k + 1) == binomial(n, k) * (n - k),
    decreases n,
{
    if n == 0 {
        let z = binomial(n, k + 1);
        let w = binomial(n, k);
        assert(z == 0);
        assert(z * (k + 1) == w * (n - k)) by (nonlinear_arith)
            requires
                z == 0,
                k == n,
        ;
    } else {
        let m = (n - 1) as nat;
        // C(n, k + 1) = C(m, k) + C(m, k + 1)
        assert(binomial(n, k + 1) == binomial(m, k) + binomial(m, k + 1));
        if k == n {
            lemma_binomial_above(m, k);
            lemma_binomial_above(m, k + 1);
            assert(binomial(n, k + 1) == 0);
            let z = binomial(n, k + 1);
            let w = binomial(n, k);
            assert(z * (k + 1) == w * (n - k)) by (nonlinear_arith)
                requires
                    z == 0,
                    k == n,
            ;
        } else {
            lemma_binomial_step(m, k);
            // C(m, k + 1) (k + 1) = C(m, k) (m - k)
            if k == 0 {
                let b1 = binomial(m, 1);
                assert(b1 * 1 == binomial(m, 0) * (m - 0));
                assert(binomial(m, 0) == 1);
                assert(b1 == m) by (nonlinear_arith)
                    requires
                        b1 * 1 == 1 * (m - 0),
                ;
                assert(binomial(n, 0) == 1);
                assert(binomial(n, 1) == binomial(m, 0) + binomial(m, 1));
                let c1 = binomial(n, 1);
                assert(c1 * (0 + 1) == 1 * (n - 0)) by (nonlinear_arith)
                    requires
                        c1 == n,
                ;
            } else {
                lemma_binomial_step(m, (k - 1) as nat);
                // C(m, k) k = C(m, k - 1) (m - k + 1)
                let a = binomial(m, (k - 1) as nat);
                let b = binomial(m, k);
                let c = binomial(m, k + 1);
                assert(binomial(n, k) == a + b);
                assert(c * (k + 1) == b * (m - k));
                assert(b * k == a * (m - k + 1));
                assert((b + c) * (k + 1) == (a + b) * (n - k)) by (nonlinear_arith)
                    requires
                        c * (k + 1) == b * (m - k),
                        b * k == a * (m - k + 1),
                        n == m + 1,
                ;
            }
        }
    }
}

/// Masks from `2^d` up to `2^d + m` have one generator more than those below `m`.
pub proof fn lemma_count_grade_shift(d: nat, m: nat, g: nat)
    requires
        m <= pow2(d),
    ensures
        count_grade(pow2(d) + m, g) == count_grade(pow2(d), g) + if g == 0 {
            0
        } else {
            count_grade(m, (g - 1) as nat)
        },
    decreases m,
{
    if m > 0 {
        let p = (m - 1) as nat;
        lemma_count_grade_shift(d, p, g);
        lemma_ones_add_top(p, d);
        assert(count_grade(pow2(d) + m, g) == count_grade(pow2(d) + p, g) + if ones(
            (pow2(d) + p) as nat,
        ) == g {
            1nat
        } else {
            0nat
        });
    }
}

/// Exactly `C(d, g)` masks below `2^d` have `g` generators.
pub proof fn lemma_count_grade_pow2(d: nat, g: nat)
    ensures
        count_grade(pow2(d), g) == binomial(d, g),
    decreases d,
{
    if d == 0 {
        lemma2_to64();
        assert(count_grade(1, g) == count_grade(0, g) + if ones(0) == g {
            1nat
        } else {
            0nat
        });
    } else {
        let e = (d - 1) as nat;
        lemma_pow2_unfold(d);
        lemma_count_grade_shift(e, pow2(e), g);
        lemma_count_grade_pow2(e, g);
        if g > 0 {
            lemma_count_grade_pow2(e, (g - 1) as nat);
        }
    }
}

pub proof fn lemma_count_below_step(n: nat, g: nat)
    ensures
        count_below(n, g + 1) == count_below(n, g) + count_grade(n, g),
    decreases n,
{
    if n > 0 {
        lemma_count_below_step((n - 1) as nat, g);
    }
}

/// Below `2^d`, the masks of grade under `g` are as many as the blades of grade under `g`.
pub proof fn lemma_count_below_pow2(d: nat, g: nat)
    ensures
        count_below(pow2(d), g) == grade_start(d, g),
    decreases g,
{
    if g == 0 {
        lemma_count_below_zero(pow2(d));
    } else {
        let h = (g - 1) as nat;
        lemma_count_below_pow2(d, h);
        lemma_count_below_step(pow2(d), h);
        lemma_count_grade_pow2(d, h);
    }
}

proof fn lemma_count_below_zero(n: nat)
    ensures
        count_below(n, 0) == 0,
    decreases n,
{
    if n > 0 {
        lemma_count_below_zero((n - 1) as nat);
    }
}

proof fn lemma_count_below_all(n: nat, g: nat)
    requires
        forall|i: nat| i < n ==> ones(i) < g,
    ensures
        count_below(n, g) == n,
    decreases n,
{
    if n > 0 {
        lemma_count_below_all((n - 1) as nat, g);
    }
}

/// Past the top grade, the first slot is the number of all blades.
pub proof fn lemma_grade_start_top(d: nat, g: nat)
    requires
        g > d,
    ensures
        grade_start(d, g) == pow2(d),
    decreases g,
{
    if g == d + 1 {
        assert forall|i: nat| i < pow2(d) implies ones(i) < g by {
            lemma_ones_bound(i, d);
        }
        lemma_count_below_all(pow2(d), g);
        lemma_count_below_pow2(d, g);
    } else {
        lemma_grade_start_top(d, (g - 1) as nat);
        lemma_binomial_above(d, (g - 1) as nat);
    }
}

pub proof fn lemma_grade_start_mono(d: nat, g1: nat, g2: nat)
    requires
        g1 <= g2,
    ensures
        grade_start(d, g1) <= grade_start(d, g2),
    decreases g2,
{
    if g1 < g2 {
        lemma_grade_start_mono(d, g1, (g2 - 1) as nat);
    }
}

pub proof fn lemma_count_grade_mono(a: nat, b: nat, g: nat)
    requires
        a <= b,
    ensures
        count_grade(a, g) <= count_grade(b, g),
    decreases b,
{
    if a < b {
        lemma_count_grade_mono(a, (b - 1) as nat, g);
    }
}

proof fn lemma_rank_split(n: nat, x: nat)
    ensures
        rank(n, x) == count_below(n, ones(x)) + count_grade(
            if n <= x {
                n
            } else {
                x
            },
            ones(x),
        ),
    decreases n,
{
    if n > 0 {
        lemma_rank_split((n - 1) as nat, x);
    }
}

/// The slot of a blade is the first slot of its grade plus the number of masks of that
/// grade below its own.
pub proof fn lemma_blade_index_formula(d: nat, x: nat)
    requires
        x < pow2(d),
    ensures
        ones(x) <= d,
        blade_index(d, x) == grade_start(d, ones(x)) + count_grade(x, ones(x)),
        count_grade(x, ones(x)) < binomial(d, ones(x)),
        blade_index(d, x) < grade_start(d, ones(x) + 1),
{
    lemma_ones_bound(x, d);
    lemma_rank_split(pow2(d), x);
    lemma_count_below_pow2(d, ones(x));
    lemma_count_grade_mono(x + 1, pow2(d), ones(x));
    lemma_count_grade_pow2(d, ones(x));
}

pub proof fn lemma_blade_index_bound(d: nat, x: nat)
    requires
        x < pow2(d),
    ensures
        blade_index(d, x) < pow2(d),
{
    lemma_blade_index_formula(d, x);
    lemma_grade_start_mono(d, ones(x) + 1, d + 1);
    lemma_grade_start_top(d, d + 1);
}

/// Distinct masks below `2^d` are stored in distinct slots.
pub proof fn lemma_blade_index_injective(d: nat, x1: nat, x2: nat)
    requires
        x1 < pow2(d),
        x2 < pow2(d),
        blade_index(d, x1) == blade_index(d, x2),
    ensures
        x1 == x2,
{
    lemma_blade_index_formula(d, x1);
    lemma_blade_index_formula(d, x2);
    if ones(x1) < ones(x2) {
        lemma_grade_start_mono(d, ones(x1) + 1, ones(x2));
    } else if ones(x2) < ones(x1) {
        lemma_grade_start_mono(d, ones(x2) + 1, ones(x1));
    } else if x1 < x2 {
        lemma_count_grade_mono(x1 + 1, x2, ones(x1));
    } else if x2 < x1 {
        lemma_count_grade_mono(x2 + 1, x1, ones(x1));
    }
}

/// The grade whose slots hold slot `y`.
pub proof fn lemma_grade_of_slot(d: nat, y: nat, g: nat) -> (r: nat)
    requires
        grade_start(d, g) <= y,
        y < pow2(d),
    ensures
        g <= r <= d,
        grade_start(d, r) <= y < grade_start(d, r + 1),
    decreases d - g,
{
    if g > d {
        lemma_grade_start_top(d, g);
    }
    if y < grade_start(d, g + 1) {
        g
    } else {
        if g + 1 > d {
            lemma_grade_start_top(d, g + 1);
        }
        lemma_grade_of_slot(d, y, g + 1)
    }
}

/// The mask below `n` with `g` generators that has `r` such masks below it.
pub proof fn lemma_nth_of_grade(n: nat, g: nat, r: nat) -> (x: nat)
    requires
        r < count_grade(n, g),
    ensures
        x < n,
        ones(x) == g,
        count_grade(x, g) == r,
    decreases n,
{
    let p = (n - 1) as nat;
    if r < count_grade(p, g) {
        lemma_nth_of_grade(p, g, r)
    } else {
        p
    }
}

/// Every slot holds a blade: `blade_mask` inverts `blade_index`.
pub proof fn lemma_blade_mask(d: nat, y: nat)
    requires
        y < pow2(d),
    ensures
        blade_mask(d, y) < pow2(d),
        blade_index(d, blade_mask(d, y)) == y,
{
    let g = lemma_grade_of_slot(d, y, 0);
    let r = (y - grade_start(d, g)) as nat;
    lemma_count_grade_pow2(d, g);
    let x = lemma_nth_of_grade(pow2(d), g, r);
    lemma_blade_index_formula(d, x);
    assert(x < pow2(d) && blade_index(d, x) == y);
}

/// The mask of the blade stored in the slot of mask `x` is `x`.
pub proof fn lemma_blade_mask_of_index(d: nat, x: nat)
    requires
        x < pow2(d),
    ensures
        blade_mask(d, blade_index(d, x)) == x,
{
    lemma_blade_index_bound(d, x);
    lemma_blade_mask(d, blade_index(d, x));
    lemma_blade_index_injective(d, x, blade_mask(d, blade_index(d, x)));
}

} // verus!
