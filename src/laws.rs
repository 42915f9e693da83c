//! Algebraic laws of the slot bijection, of addition and of the products.
use crate::grading::{
    binomial, blade_index, blade_mask, grade_start, lemma_blade_index_bound,
    lemma_blade_index_formula, lemma_blade_index_injective, lemma_blade_mask,
    lemma_blade_mask_of_index, rank,
};
use crate::mask::{bit_field, inversions, lemma_ones_pow2, ones};
use crate::multivector::{
    coeff_sum, inner_term, inner_upto, inner_value, mask_and, mask_xor, outer_coeffs,
    outer_row, outer_rows, outer_term, zeros,
};
use crate::signature::Clifford;
use vstd::arithmetic::power2::{
    lemma2_to64, lemma_pow2_pos, lemma_pow2_strictly_increases, lemma_pow2_unfold, pow2,
};
use vstd::prelude::*;

verus! {

/// In every dimension `d`, `blade_index` and `blade_mask` are inverse to each other on
/// `[0, 2^d)`, and each of them is injective there.
pub proof fn law_slot_bijection(d: nat)
    ensures
        forall|x: nat|
            x < pow2(d) ==> #[trigger] blade_index(d, x) < pow2(d) && blade_mask(
                d,
                blade_index(d, x),
            ) == x,
        forall|y: nat|
            y < pow2(d) ==> #[trigger] blade_mask(d, y) < pow2(d) && blade_index(
                d,
                blade_mask(d, y),
            ) == y,
        forall|x1: nat, x2: nat|
            x1 < pow2(d) && x2 < pow2(d) && #[trigger] blade_index(d, x1) == #[trigger] blade_index(
                d,
                x2,
            ) ==> x1 == x2,
        forall|y1: nat, y2: nat|
            y1 < pow2(d) && y2 < pow2(d) && #[trigger] blade_mask(d, y1) == #[trigger] blade_mask(
                d,
                y2,
            ) ==> y1 == y2,
{
    assert forall|x: nat| x < pow2(d) implies #[trigger] blade_index(d, x) < pow2(d)
        && blade_mask(d, blade_index(d, x)) == x by {
        lemma_blade_index_bound(d, x);
        lemma_blade_mask_of_index(d, x);
    }
    assert forall|y: nat| y < pow2(d) implies #[trigger] blade_mask(d, y) < pow2(d)
        && blade_index(d, blade_mask(d, y)) == y by {
        lemma_blade_mask(d, y);
    }
    assert forall|x1: nat, x2: nat|
        x1 < pow2(d) && x2 < pow2(d) && #[trigger] blade_index(d, x1) == #[trigger] blade_index(
            d,
            x2,
        ) implies x1 == x2 by {
        lemma_blade_index_injective(d, x1, x2);
    }
    assert forall|y1: nat, y2: nat|
        y1 < pow2(d) && y2 < pow2(d) && #[trigger] blade_mask(d, y1) == #[trigger] blade_mask(
            d,
            y2,
        ) implies y1 == y2 by {
        lemma_blade_mask(d, y1);
        lemma_blade_mask(d, y2);
    }
}

/// The slots of grade `g` are exactly `[grade_start(d, g), grade_start(d, g) + C(d, g))`:
/// a mask with `g` generators is stored in that range.
pub proof fn law_grade_slots(d: nat, x: nat)
    requires
        x < pow2(d),
    ensures
        grade_start(d, ones(x)) <= blade_index(d, x) < grade_start(d, ones(x)) + binomial(
            d,
            ones(x),
        ),
{
    lemma_blade_index_formula(d, x);
}

/// Adding the zero multivector changes nothing.
pub proof fn law_add_zero(x: Seq<int>)
    ensures
        coeff_sum(x, zeros(x.len())) == x,
{
    assert(coeff_sum(x, zeros(x.len())) =~= x);
}

/// Addition is associative.
pub proof fn law_add_associative(x: Seq<int>, y: Seq<int>, z: Seq<int>)
    requires
        x.len() == y.len(),
        y.len() == z.len(),
    ensures
        coeff_sum(coeff_sum(x, y), z) == coeff_sum(x, coeff_sum(y, z)),
{
    assert(coeff_sum(coeff_sum(x, y), z) =~= coeff_sum(x, coeff_sum(y, z)));
}

/// Addition is commutative.
pub proof fn law_add_commutative(x: Seq<int>, y: Seq<int>)
    requires
        x.len() == y.len(),
    ensures
        coeff_sum(x, y) == coeff_sum(y, x),
{
    assert(coeff_sum(x, y) =~= coeff_sum(y, x));
}

/// With a single generator that squares to -1, the inner product of `c` times that
/// generator with itself is `-c^2`.
pub proof fn law_negative_generator_square(sig: Clifford, c: int)
    requires
        sig.positive_count() == 0,
        sig.negative_count() == 1,
        sig.null_count() == 0,
    ensures
        inner_value(sig, seq![0, c], seq![0, c]) == -(c * c),
{
    let v = seq![0, c];
    lemma2_to64();
    assert(sig.spec_size() == 2);
    assert(rank(2, 0) == 0 && rank(2, 1) == 1) by {
        assert(ones(0) == 0);
        assert(ones(1) == 1) by {
            assert(ones(1) == 1nat % 2 + ones(0));
        }
        lemma_rank_two();
    }
    lemma_blade_mask_of_index(1, 0);
    lemma_blade_mask_of_index(1, 1);
    assert(blade_mask(1, 0) == 0);
    assert(blade_mask(1, 1) == 1);
    assert(bit_field(0, 1, 0) == 0);
    assert(bit_field(1, 1, 0) == 0);
    assert(bit_field(0, 0, 1) == 0);
    assert(bit_field(1, 0, 1) == 1);
    assert(ones(0) == 0);
    assert(ones(1) == 1) by {
        assert(ones(1) == 1nat % 2 + ones(0));
    }
    assert(sig.spec_dim() == 1);
    assert(v[0] == 0 && v[1] == c);
    assert(!sig.touches_null(0));
    assert(!sig.negative_parity(0));
    assert(!sig.touches_null(1));
    assert(sig.negative_parity(1));
    assert(inner_term(sig, v, v, 0) == 0);
    assert(inner_term(sig, v, v, 1) == -(c * c));
    assert(inner_upto(sig, v, v, 2) == inner_upto(sig, v, v, 1) + inner_term(sig, v, v, 1));
    assert(inner_upto(sig, v, v, 1) == inner_upto(sig, v, v, 0) + inner_term(sig, v, v, 0));
}

proof fn lemma_rank_two()
    ensures
        rank(2, 0) == 0,
        rank(2, 1) == 1,
{
    assert(ones(0) == 0);
    assert(ones(1) == 1nat % 2 + ones(0));
    assert(rank(1, 0) == rank(0, 0));
    assert(rank(2, 0) == rank(1, 0));
    assert(rank(1, 1) == rank(0, 1) + 1);
    assert(rank(2, 1) == rank(1, 1));
}

/// A multivector whose coefficients are all on blades that hold a null generator has
/// inner product zero with every multivector.
pub proof fn law_null_blades_vanish(sig: Clifford, a: Seq<int>, b: Seq<int>)
    requires
        forall|s: nat|
            s < sig.spec_size() && !sig.touches_null(#[trigger] blade_mask(sig.spec_dim(), s))
                ==> a[s as int] == 0,
    ensures
        inner_value(sig, a, b) == 0,
{
    lemma_null_prefix_vanishes(sig, a, b, sig.spec_size());
}

proof fn lemma_null_prefix_vanishes(sig: Clifford, a: Seq<int>, b: Seq<int>, n: nat)
    requires
        n <= sig.spec_size(),
        forall|s: nat|
            s < sig.spec_size() && !sig.touches_null(#[trigger] blade_mask(sig.spec_dim(), s))
                ==> a[s as int] == 0,
    ensures
        inner_upto(sig, a, b, n) == 0,
    decreases n,
{
    if n > 0 {
        let s = (n - 1) as nat;
        lemma_null_prefix_vanishes(sig, a, b, s);
        if !sig.touches_null(blade_mask(sig.spec_dim(), s)) {
            assert(a[s as int] == 0);
            assert(a[s as int] * b[s as int] == 0);
        }
        assert(inner_term(sig, a, b, s) == 0);
    }
}

/// The multivector `e_i`: coefficient 1 on the blade of generator `i` alone, 0 elsewhere.
pub open spec fn basis_vector(d: nat, i: nat) -> Seq<int> {
    Seq::new(pow2(d), |s: int| if s == blade_index(d, pow2(i)) { 1int } else { 0int })
}

/// Reordering the generators of `2^i` followed by those of `2^j` takes one transposition
/// when `i > j` and none otherwise.
proof fn lemma_inversions_of_generators(i: nat, j: nat)
    ensures
        inversions(pow2(i), pow2(j)) == if i > j {
            1nat
        } else {
            0nat
        },
    decreases j,
{
    lemma_pow2_pos(i);
    lemma_pow2_pos(j);
    lemma2_to64();
    if i > 0 {
        lemma_pow2_unfold(i);
    }
    if j > 0 {
        lemma_pow2_unfold(j);
    }
    let l = pow2(i);
    let r = pow2(j);
    assert(inversions(l, r) == (if r % 2 == 1 {
        ones(l / 2)
    } else {
        0
    }) + inversions(l / 2, r / 2));
    if j == 0 {
        assert(r == 1);
        assert(inversions(l / 2, 0) == 0);
        if i == 0 {
            assert(l / 2 == 0);
            assert(ones(0) == 0);
        } else {
            assert(l / 2 == pow2((i - 1) as nat));
            lemma_ones_pow2((i - 1) as nat);
        }
    } else {
        assert(r % 2 == 0);
        assert(r / 2 == pow2((j - 1) as nat));
        if i == 0 {
            assert(l / 2 == 0);
            assert(inversions(0, r / 2) == 0);
        } else {
            assert(l / 2 == pow2((i - 1) as nat));
            lemma_inversions_of_generators((i - 1) as nat, (j - 1) as nat);
        }
    }
}

/// A row of the outer product vanishes when its left coefficient is zero.
proof fn lemma_outer_row_zero_left(sig: Clifford, a: Seq<int>, b: Seq<int>, p: nat, n: nat, s: nat)
    requires
        a[p as int] == 0,
    ensures
        outer_row(sig, a, b, p, n, s) == 0,
    decreases n,
{
    if n > 0 {
        lemma_outer_row_zero_left(sig, a, b, p, (n - 1) as nat, s);
        assert(a[p as int] * b[(n - 1) as int] == 0);
    }
}

/// With a left factor that has a single nonzero coefficient, in slot `pp`, only the row
/// of `pp` remains.
proof fn lemma_outer_rows_single(sig: Clifford, a: Seq<int>, b: Seq<int>, pp: nat, m: nat, s: nat)
    requires
        forall|p: int| 0 <= p < sig.spec_size() && p != pp ==> a[p] == 0,
        m <= sig.spec_size(),
    ensures
        outer_rows(sig, a, b, m, s) == if pp < m {
            outer_row(sig, a, b, pp, sig.spec_size(), s)
        } else {
            0
        },
    decreases m,
{
    if m > 0 {
        let p = (m - 1) as nat;
        lemma_outer_rows_single(sig, a, b, pp, p, s);
        if p != pp {
            lemma_outer_row_zero_left(sig, a, b, p, sig.spec_size(), s);
        }
    }
}

/// With a right factor that has a single nonzero coefficient, in slot `qq`, only the
/// pair with `qq` remains in a row.
proof fn lemma_outer_row_single(sig: Clifford, a: Seq<int>, b: Seq<int>, p: nat, qq: nat, n: nat, s: nat)
    requires
        forall|q: int| 0 <= q < sig.spec_size() && q != qq ==> b[q] == 0,
        n <= sig.spec_size(),
    ensures
        outer_row(sig, a, b, p, n, s) == if qq < n {
            outer_term(sig, a, b, p, qq, s)
        } else {
            0
        },
    decreases n,
{
    if n > 0 {
        let q = (n - 1) as nat;
        lemma_outer_row_single(sig, a, b, p, qq, q, s);
        if q != qq {
            assert(a[p as int] * b[q as int] == 0);
        }
    }
}

proof fn lemma_xor_and_generators(i: usize, j: usize)
    by (bit_vector)
    requires
        i < usize::BITS,
        j < usize::BITS,
        i != j,
    ensures
        (1usize << i) ^ (1usize << j) == (1usize << j) ^ (1usize << i),
        (1usize << i) & (1usize << j) == 0,
        (1usize << i) != (1usize << j),
{
}

/// The coefficients of the outer product of `e_i` and `e_j` (with `i != j`), in a
/// signature whose generators all square to +1: the sign of reordering `(2^i, 2^j)` on
/// the slot of `2^i ^ 2^j`, zero elsewhere.
proof fn lemma_outer_of_generators(sig: Clifford, i: nat, j: nat, s: nat)
    requires
        sig.negative_count() == 0,
        sig.null_count() == 0,
        sig.spec_dim() < usize::BITS,
        i < sig.spec_dim(),
        j < sig.spec_dim(),
        i != j,
        s < sig.spec_size(),
    ensures
        outer_coeffs(sig, basis_vector(sig.spec_dim(), i), basis_vector(sig.spec_dim(), j))[s as int]
            == if s == blade_index(sig.spec_dim(), mask_xor(pow2(i), pow2(j))) {
            if i > j {
                -1int
            } else {
                1int
            }
        } else {
            0int
        },
{
    let d = sig.spec_dim();
    let a = basis_vector(d, i);
    let b = basis_vector(d, j);
    lemma_pow2_strictly_increases(i, d);
    lemma_pow2_strictly_increases(j, d);
    let pp = blade_index(d, pow2(i));
    let qq = blade_index(d, pow2(j));
    lemma_blade_index_bound(d, pow2(i));
    lemma_blade_index_bound(d, pow2(j));
    lemma_blade_mask_of_index(d, pow2(i));
    lemma_blade_mask_of_index(d, pow2(j));
    lemma_outer_rows_single(sig, a, b, pp, sig.spec_size(), s);
    lemma_outer_row_single(sig, a, b, pp, qq, sig.spec_size(), s);
    assert(a[pp as int] == 1);
    assert(b[qq as int] == 1);
    // the generator masks as machine words
    vstd::bits::lemma_usize_pow2_no_overflow(i);
    vstd::bits::lemma_usize_pow2_no_overflow(j);
    vstd::bits::lemma_usize_shl_is_mul(1, i as usize);
    vstd::bits::lemma_usize_shl_is_mul(1, j as usize);
    lemma_xor_and_generators(i as usize, j as usize);
    let k = mask_xor(pow2(i), pow2(j));
    assert(mask_and(pow2(i), pow2(j)) == 0);
    assert(pow2(i) != pow2(j));
    // no null or negative generators
    lemma2_to64();
    assert(bit_field(k, d, 0) == 0);
    assert(bit_field(0, 0, 0) == 0);
    assert(ones(0) == 0);
    assert(!sig.touches_null(k));
    assert(!sig.negative_parity(0));
    lemma_inversions_of_generators(i, j);
}

/// In a signature whose generators all square to +1, the outer product of two distinct
/// generators is antisymmetric: `e_i ^ e_j == -(e_j ^ e_i)`.
pub proof fn law_outer_antisymmetric_on_generators(sig: Clifford, i: nat, j: nat)
    requires
        sig.negative_count() == 0,
        sig.null_count() == 0,
        sig.spec_dim() < usize::BITS,
        i < sig.spec_dim(),
        j < sig.spec_dim(),
        i != j,
    ensures
        outer_coeffs(sig, basis_vector(sig.spec_dim(), i), basis_vector(sig.spec_dim(), j))
            == outer_coeffs(
            sig,
            basis_vector(sig.spec_dim(), j),
            basis_vector(sig.spec_dim(), i),
        ).map_values(|c: int| -c),
{
    let d = sig.spec_dim();
    let lhs = outer_coeffs(sig, basis_vector(d, i), basis_vector(d, j));
    let rhs = outer_coeffs(sig, basis_vector(d, j), basis_vector(d, i));
    assert forall|s: int| 0 <= s < lhs.len() implies lhs[s] == -rhs[s] by {
        lemma_outer_of_generators(sig, i, j, s as nat);
        lemma_outer_of_generators(sig, j, i, s as nat);
        vstd::bits::lemma_usize_pow2_no_overflow(i);
        vstd::bits::lemma_usize_pow2_no_overflow(j);
        vstd::bits::lemma_usize_shl_is_mul(1, i as usize);
        vstd::bits::lemma_usize_shl_is_mul(1, j as usize);
        lemma_xor_and_generators(i as usize, j as usize);
        assert(mask_xor(pow2(i), pow2(j)) == mask_xor(pow2(j), pow2(i)));
    }
    assert(lhs =~= rhs.map_values(|c: int| -c));
}

} // verus!
