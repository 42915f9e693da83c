//! Multivectors: one integer coefficient per blade, stored in grade-major slot order, and
//! their sums and products.
use crate::grading::{
    blade_index, blade_mask, lemma_blade_index_bound, lemma_blade_index_injective, lemma_blade_mask,
    rank,
};
use crate::mask::inversions;
use crate::signature::Clifford;
use vstd::arithmetic::power2::pow2;
use vstd::bits::lemma_usize_shl_is_mul;
use vstd::prelude::*;

verus! {

pub open spec fn abs(x: int) -> int {
    if x < 0 {
        -x
    } else {
        x
    }
}

/// `|v[0]| + ... + |v[n - 1]|`.
pub open spec fn abs_sum(v: Seq<int>, n: nat) -> int
    decreases n,
{
    if n == 0 {
        0
    } else {
        abs_sum(v, (n - 1) as nat) + abs(v[n - 1])
    }
}

/// Sum of the absolute values of all coefficients.
pub open spec fn norm1(v: Seq<int>) -> int {
    abs_sum(v, v.len())
}

/// `n` zero coefficients.
pub open spec fn zeros(n: nat) -> Seq<int> {
    Seq::new(n, |s: int| 0int)
}

/// Coefficient-wise sum.
pub open spec fn coeff_sum(a: Seq<int>, b: Seq<int>) -> Seq<int> {
    Seq::new(a.len(), |s: int| a[s] + b[s])
}

/// `a` with `x` added to its scalar (grade-0) coefficient.
pub open spec fn with_scalar(a: Seq<int>, x: int) -> Seq<int> {
    a.update(0, a[0] + x)
}

/// Symmetric difference of two generator masks that fit a machine word.
pub open spec fn mask_xor(i: nat, j: nat) -> nat {
    ((i as usize) ^ (j as usize)) as nat
}

/// Common generators of two generator masks that fit a machine word.
pub open spec fn mask_and(i: nat, j: nat) -> nat {
    ((i as usize) & (j as usize)) as nat
}

/// Contribution of slot `s` to the inner product: the product of the two coefficients,
/// negated when its blade squares to -1, and nothing when it squares to 0.
pub open spec fn inner_term(sig: Clifford, a: Seq<int>, b: Seq<int>, s: nat) -> int {
    let x = blade_mask(sig.spec_dim(), s);
    if sig.touches_null(x) {
        0
    } else if sig.negative_parity(x) {
        -(a[s as int] * b[s as int])
    } else {
        a[s as int] * b[s as int]
    }
}

/// Sum of the inner-product contributions of the slots below `n`.
pub open spec fn inner_upto(sig: Clifford, a: Seq<int>, b: Seq<int>, n: nat) -> int
    decreases n,
{
    if n == 0 {
        0
    } else {
        inner_upto(sig, a, b, (n - 1) as nat) + inner_term(sig, a, b, (n - 1) as nat)
    }
}

/// The inner product: the sum over all slots.
pub open spec fn inner_value(sig: Clifford, a: Seq<int>, b: Seq<int>) -> int {
    inner_upto(sig, a, b, sig.spec_size())
}

/// Contribution to output slot `s` of the outer product of the pair of slots `(p, q)`.
/// With masks `i` and `j` of those slots, the pair counts when `i != j` and `i ^ j` holds
/// no null generator; it lands in the slot of `i ^ j`, with the sign flipped when the
/// reordering parity of `(i, j)` differs from the negative parity of `i & j`.
pub open spec fn outer_term(sig: Clifford, a: Seq<int>, b: Seq<int>, p: nat, q: nat, s: nat) -> int {
    let d = sig.spec_dim();
    let i = blade_mask(d, p);
    let j = blade_mask(d, q);
    let k = mask_xor(i, j);
    if i != j && !sig.touches_null(k) && blade_index(d, k) == s {
        let v = a[p as int] * b[q as int];
        if (inversions(i, j) % 2 == 1) != sig.negative_parity(mask_and(i, j)) {
            -v
        } else {
            v
        }
    } else {
        0
    }
}

/// Contributions to slot `s` of the pairs `(p, q)` with `q < n`.
pub open spec fn outer_row(sig: Clifford, a: Seq<int>, b: Seq<int>, p: nat, n: nat, s: nat) -> int
    decreases n,
{
    if n == 0 {
        0
    } else {
        outer_row(sig, a, b, p, (n - 1) as nat, s) + outer_term(sig, a, b, p, (n - 1) as nat, s)
    }
}

/// Contributions to slot `s` of the pairs `(p, q)` with `p < m`.
pub open spec fn outer_rows(sig: Clifford, a: Seq<int>, b: Seq<int>, m: nat, s: nat) -> int
    decreases m,
{
    if m == 0 {
        0
    } else {
        outer_rows(sig, a, b, (m - 1) as nat, s) + outer_row(
            sig,
            a,
            b,
            (m - 1) as nat,
            sig.spec_size(),
            s,
        )
    }
}

/// The coefficients of the outer product.
pub open spec fn outer_coeffs(sig: Clifford, a: Seq<int>, b: Seq<int>) -> Seq<int> {
    Seq::new(sig.spec_size(), |s: int| outer_rows(sig, a, b, sig.spec_size(), s as nat))
}

/// The coefficients of `mul`: the outer product with the inner product added to its
/// scalar part.
pub open spec fn product_coeffs(sig: Clifford, a: Seq<int>, b: Seq<int>) -> Seq<int> {
    with_scalar(outer_coeffs(sig, a, b), inner_value(sig, a, b))
}

/// Whether the products of `a` and `b` can be computed in 64-bit coefficients whatever the
/// order of summation: the sum of the absolute values of all pairwise products fits.
pub open spec fn products_fit(a: Seq<int>, b: Seq<int>) -> bool {
    norm1(a) * norm1(b) <= i64::MAX
}

/// An element of the Clifford algebra of a signature: one coefficient per blade, in
/// grade-major slot order.
#[derive(Debug, PartialEq, Eq)]
pub struct Multivector {
    sig: Clifford,
    data: Vec<i64>,
}

impl View for Multivector {
    type V = Seq<int>;

    closed spec fn view(&self) -> Seq<int> {
        self.data@.map_values(|c: i64| c as int)
    }
}

proof fn lemma_abs_sum_mono(v: Seq<int>, m: nat, n: nat)
    requires
        m <= n,
    ensures
        0 <= abs_sum(v, m) <= abs_sum(v, n),
    decreases n,
{
    if m < n {
        lemma_abs_sum_mono(v, m, (n - 1) as nat);
    } else if n > 0 {
        lemma_abs_sum_mono(v, 0, (n - 1) as nat);
    }
}

/// After adding `|x * y|` with `|y| <= Y`, the bound `A * Y + |x| * B` grows to
/// `A * Y + |x| * (B + |y|)`, which stays below `(A + |x|) * Y` when `B + |y| <= Y`.
proof fn lemma_step_bound(x: int, y: int, a: int, bb: int, yy: int)
    requires
        0 <= a,
        0 <= bb,
        bb + abs(y) <= yy,
    ensures
        abs(x * y) == abs(x) * abs(y),
        abs(x) * abs(y) >= 0,
        a * yy + abs(x) * bb + abs(x) * abs(y) == a * yy + abs(x) * (bb + abs(y)),
        a * yy + abs(x) * (bb + abs(y)) <= (a + abs(x)) * yy,
{
    assert(abs(x * y) == abs(x) * abs(y)) by (nonlinear_arith);
    assert(abs(x) * abs(y) >= 0) by (nonlinear_arith);
    assert(abs(x) * bb + abs(x) * abs(y) == abs(x) * (bb + abs(y))) by (nonlinear_arith);
    assert(abs(x) * (bb + abs(y)) <= abs(x) * yy) by (nonlinear_arith)
        requires
            bb + abs(y) <= yy,
            abs(x) >= 0,
    ;
    assert((a + abs(x)) * yy == a * yy + abs(x) * yy) by (nonlinear_arith);
}

proof fn lemma_mul_mono(a: int, b: int, c: int)
    requires
        0 <= a <= b,
        0 <= c,
    ensures
        a * c <= b * c,
{
    assert(a * c <= b * c) by (nonlinear_arith)
        requires
            0 <= a <= b,
            0 <= c,
    ;
}


proof fn lemma_xor_bits(i: usize, j: usize, d: usize)
    by (bit_vector)
    requires
        d < usize::BITS,
        i < (1usize << d),
        j < (1usize << d),
    ensures
        (i ^ j) < (1usize << d),
        ((i ^ j) == 0) == (i == j),
{
}

/// The symmetric difference of two masks of dimension `d` is a mask of dimension `d`, and
/// it is empty only when they are equal.
proof fn lemma_mask_xor(d: nat, i: nat, j: nat)
    requires
        d < usize::BITS,
        i < pow2(d),
        j < pow2(d),
    ensures
        mask_xor(i, j) < pow2(d),
        (mask_xor(i, j) == 0) == (i == j),
{
    vstd::bits::lemma_usize_pow2_no_overflow(d);
    lemma_usize_shl_is_mul(1, d as usize);
    lemma_xor_bits(i as usize, j as usize, d as usize);
}

/// Only the empty mask is stored in slot 0.
proof fn lemma_rank_of_empty(n: nat)
    ensures
        rank(n, 0) == 0,
    decreases n,
{
    if n > 0 {
        lemma_rank_of_empty((n - 1) as nat);
    }
}

/// The outer product never reaches the scalar slot: a pair of distinct masks has a
/// nonempty symmetric difference.
proof fn lemma_outer_scalar_zero(sig: Clifford, a: Seq<int>, b: Seq<int>, m: nat)
    requires
        sig.spec_dim() < usize::BITS,
        m <= sig.spec_size(),
    ensures
        outer_rows(sig, a, b, m, 0) == 0,
    decreases m,
{
    if m > 0 {
        let p = (m - 1) as nat;
        lemma_outer_scalar_zero(sig, a, b, p);
        lemma_outer_row_scalar_zero(sig, a, b, p, sig.spec_size());
    }
}

proof fn lemma_outer_row_scalar_zero(sig: Clifford, a: Seq<int>, b: Seq<int>, p: nat, n: nat)
    requires
        sig.spec_dim() < usize::BITS,
        p < sig.spec_size(),
        n <= sig.spec_size(),
    ensures
        outer_row(sig, a, b, p, n, 0) == 0,
    decreases n,
{
    if n > 0 {
        let q = (n - 1) as nat;
        let d = sig.spec_dim();
        lemma_outer_row_scalar_zero(sig, a, b, p, q);
        lemma_blade_mask(d, p);
        lemma_blade_mask(d, q);
        let i = blade_mask(d, p);
        let j = blade_mask(d, q);
        lemma_mask_xor(d, i, j);
        if i != j && blade_index(d, mask_xor(i, j)) == 0 {
            lemma_rank_of_empty(pow2(d));
            vstd::arithmetic::power2::lemma_pow2_pos(d);
            lemma_blade_index_injective(d, mask_xor(i, j), 0);
        }
    }
}

/// The generator masks of all slots, in slot order.
fn mask_table(sig: Clifford) -> (r: Vec<usize>)
    ensures
        r@.len() == sig.spec_size(),
        forall|p: int|
            0 <= p < sig.spec_size() ==> #[trigger] r@[p] == blade_mask(sig.spec_dim(), p as nat)
                && r@[p] < sig.spec_size(),
{
    let size = sig.size();
    let mut r: Vec<usize> = Vec::new();
    let mut p: usize = 0;
    while p < size
        invariant
            size == sig.spec_size(),
            p <= size,
            r@.len() == p,
            forall|t: int|
                0 <= t < p ==> #[trigger] r@[t] == blade_mask(sig.spec_dim(), t as nat) && r@[t]
                    < size,
        decreases size - p,
    {
        r.push(sig.blade_to_bit(p));
        p = p + 1;
    }
    r
}

/// The slots of all generator masks, by mask.
fn slot_table(sig: Clifford) -> (r: Vec<usize>)
    ensures
        r@.len() == sig.spec_size(),
        forall|x: int|
            0 <= x < sig.spec_size() ==> #[trigger] r@[x] == blade_index(sig.spec_dim(), x as nat)
                && r@[x] < sig.spec_size(),
{
    let size = sig.size();
    let mut r: Vec<usize> = Vec::new();
    let mut x: usize = 0;
    while x < size
        invariant
            size == sig.spec_size(),
            x <= size,
            r@.len() == x,
            forall|t: int|
                0 <= t < x ==> #[trigger] r@[t] == blade_index(sig.spec_dim(), t as nat) && r@[t]
                    < size,
        decreases size - x,
    {
        proof {
            lemma_blade_index_bound(sig.spec_dim(), x as nat);
        }
        r.push(sig.bit_to_blade(x));
        x = x + 1;
    }
    r
}

/// Adds into `out` the contributions of the pairs `(p, q)` for every `q`.
fn accumulate_outer_row(
    sig: Clifford,
    masks: &Vec<usize>,
    slots: &Vec<usize>,
    lhs: &Vec<i64>,
    rhs: &Vec<i64>,
    p: usize,
    out: &mut Vec<i64>,
)
    requires
        sig.spec_dim() < usize::BITS,
        masks@.len() == sig.spec_size(),
        slots@.len() == sig.spec_size(),
        lhs@.len() == sig.spec_size(),
        rhs@.len() == sig.spec_size(),
        old(out)@.len() == sig.spec_size(),
        p < sig.spec_size(),
        forall|t: int|
            0 <= t < sig.spec_size() ==> #[trigger] masks@[t] == blade_mask(
                sig.spec_dim(),
                t as nat,
            ) && masks@[t] < sig.spec_size(),
        forall|x: int|
            0 <= x < sig.spec_size() ==> #[trigger] slots@[x] == blade_index(
                sig.spec_dim(),
                x as nat,
            ) && slots@[x] < sig.spec_size(),
        products_fit(lhs@.map_values(|c: i64| c as int), rhs@.map_values(|c: i64| c as int)),
        forall|s: int|
            0 <= s < sig.spec_size() ==> #[trigger] old(out)@[s] as int == outer_rows(
                sig,
                lhs@.map_values(|c: i64| c as int),
                rhs@.map_values(|c: i64| c as int),
                p as nat,
                s as nat,
            ),
        forall|s: int|
            0 <= s < sig.spec_size() ==> abs(#[trigger] old(out)@[s] as int) <= abs_sum(
                lhs@.map_values(|c: i64| c as int),
                p as nat,
            ) * norm1(rhs@.map_values(|c: i64| c as int)),
    ensures
        final(out)@.len() == sig.spec_size(),
        forall|s: int|
            0 <= s < sig.spec_size() ==> #[trigger] final(out)@[s] as int == outer_rows(
                sig,
                lhs@.map_values(|c: i64| c as int),
                rhs@.map_values(|c: i64| c as int),
                (p + 1) as nat,
                s as nat,
            ),
        forall|s: int|
            0 <= s < sig.spec_size() ==> abs(#[trigger] final(out)@[s] as int) <= abs_sum(
                lhs@.map_values(|c: i64| c as int),
                (p + 1) as nat,
            ) * norm1(rhs@.map_values(|c: i64| c as int)),
{
    let ghost a = lhs@.map_values(|c: i64| c as int);
    let ghost b = rhs@.map_values(|c: i64| c as int);
    let ghost d = sig.spec_dim();
    let ghost la = norm1(a);
    let ghost lb = norm1(b);
    let ghost aa = abs_sum(a, p as nat);
    let ghost ap = abs(a[p as int]);
    let size = sig.size();
    let dim = sig.dim();
    proof {
        lemma_abs_sum_mono(a, (p + 1) as nat, size as nat);
        lemma_abs_sum_mono(b, 0, size as nat);
        lemma_abs_sum_mono(a, 0, p as nat);
        lemma_mul_mono(abs_sum(a, (p + 1) as nat), la, lb);
        assert(abs_sum(a, (p + 1) as nat) == aa + ap);
        assert(ap * 0 == 0);
    }
    let mut q: usize = 0;
    while q < size
        invariant
            size == sig.spec_size(),
            dim == d,
            d == sig.spec_dim(),
            d < usize::BITS,
            p < size,
            q <= size,
            a == lhs@.map_values(|c: i64| c as int),
            b == rhs@.map_values(|c: i64| c as int),
            masks@.len() == size,
            slots@.len() == size,
            lhs@.len() == size,
            rhs@.len() == size,
            out@.len() == size,
            forall|t: int|
                0 <= t < size ==> #[trigger] masks@[t] == blade_mask(d, t as nat) && masks@[t]
                    < size,
            forall|x: int|
                0 <= x < size ==> #[trigger] slots@[x] == blade_index(d, x as nat) && slots@[x]
                    < size,
            lb == norm1(b),
            la == norm1(a),
            aa == abs_sum(a, p as nat),
            ap == abs(a[p as int]),
            0 <= aa,
            (aa + ap) * lb <= la * lb,
            la * lb <= i64::MAX,
            forall|s: int|
                0 <= s < size ==> #[trigger] out@[s] as int == outer_rows(
                    sig,
                    a,
                    b,
                    p as nat,
                    s as nat,
                ) + outer_row(sig, a, b, p as nat, q as nat, s as nat),
            forall|s: int|
                0 <= s < size ==> abs(#[trigger] out@[s] as int) <= aa * lb + ap * abs_sum(
                    b,
                    q as nat,
                ),
        decreases size - q,
    {
        let i = masks[p];
        let j = masks[q];
        let ghost bq = b[q as int];
        let ghost bb = abs_sum(b, q as nat);
        proof {
            assert(a[p as int] == lhs@[p as int] as int);
            assert(bq == rhs@[q as int] as int);
            lemma_usize_shl_is_mul(1, dim);
            vstd::bits::lemma_usize_pow2_no_overflow(d);
            lemma_xor_bits(i, j, dim);
            lemma_abs_sum_mono(b, (q + 1) as nat, size as nat);
            lemma_abs_sum_mono(b, 0, q as nat);
            lemma_step_bound(a[p as int], bq, aa, bb, lb);
        }
        let k = i ^ j;
        let ghost prev = out@;
        let ghost t = slots@[k as int];
        let ghost term = if i != j && !sig.touches_null(k as nat) {
            let v = a[p as int] * bq;
            if (inversions(i as nat, j as nat) % 2 == 1) != sig.negative_parity((i & j) as nat) {
                -v
            } else {
                v
            }
        } else {
            0
        };
        if i != j && !sig.zero_by_form(k) {
            let v = lhs[p] * rhs[q];
            let flip = Clifford::flip_by_anticommutativity(i, j) != sig.flip_by_form(i & j);
            let slot = slots[k];
            let cur = out[slot];
            let nv = if flip {
                cur - v
            } else {
                cur + v
            };
            out.set(slot, nv);
        }
        proof {
            assert forall|s: int| 0 <= s < size implies #[trigger] out@[s] as int == outer_rows(
                sig,
                a,
                b,
                p as nat,
                s as nat,
            ) + outer_row(sig, a, b, p as nat, (q + 1) as nat, s as nat) && abs(
                out@[s] as int,
            ) <= aa * lb + ap * abs_sum(b, (q + 1) as nat) by {
                assert(outer_row(sig, a, b, p as nat, (q + 1) as nat, s as nat) == outer_row(
                    sig,
                    a,
                    b,
                    p as nat,
                    q as nat,
                    s as nat,
                ) + outer_term(sig, a, b, p as nat, q as nat, s as nat));
                if s == t {
                    assert(outer_term(sig, a, b, p as nat, q as nat, s as nat) == term);
                } else {
                    assert(outer_term(sig, a, b, p as nat, q as nat, s as nat) == 0);
                    assert(out@[s] == prev[s]);
                }
            }
        }
        q = q + 1;
    }
    proof {
        assert((aa + ap) * lb == aa * lb + ap * lb) by (nonlinear_arith);
    }
}

/// Sum of the absolute values of the coefficients, without overflow.
fn norm1_of(v: &Vec<i64>) -> (r: u128)
    ensures
        r == norm1(v@.map_values(|c: i64| c as int)),
{
    let ghost a = v@.map_values(|c: i64| c as int);
    let mut acc: u128 = 0;
    let mut s: usize = 0;
    while s < v.len()
        invariant
            a == v@.map_values(|c: i64| c as int),
            s <= v@.len(),
            acc == abs_sum(a, s as nat),
            acc <= s * 0x8000_0000_0000_0000,
        decreases v@.len() - s,
    {
        let c = v[s];
        assert(a[s as int] == c as int);
        let m: u128 = if c < 0 {
            (-(c as i128)) as u128
        } else {
            c as u128
        };
        assert(s < 0x1_0000_0000_0000_0000) by {
            assert(usize::MAX < 0x1_0000_0000_0000_0000);
        }
        acc = acc + m;
        s = s + 1;
    }
    acc
}

impl Multivector {
    #[verifier::type_invariant]
    closed spec fn well_formed(self) -> bool {
        &&& self.data@.len() == self.sig.spec_size()
        &&& self.sig.spec_dim() < usize::BITS
    }

    /// The signature of the algebra this multivector belongs to.
    pub closed spec fn spec_signature(self) -> Clifford {
        self.sig
    }

    /// The signature of the algebra this multivector belongs to.
    pub fn signature(&self) -> (r: Clifford)
        ensures
            r == self.spec_signature(),
    {
        self.sig
    }

    /// The zero multivector of a signature.
    pub fn zero_of(sig: Clifford) -> (r: Multivector)
        ensures
            r.spec_signature() == sig,
            r@ == zeros(sig.spec_size()),
    {
        let size = sig.size();
        let mut data: Vec<i64> = Vec::new();
        let mut s: usize = 0;
        while s < size
            invariant
                s <= size,
                data@.len() == s,
                forall|t: int| 0 <= t < s ==> data@[t] == 0,
            decreases size - s,
        {
            data.push(0);
            s = s + 1;
        }
        let r = Multivector { sig, data };
        assert(r@ =~= zeros(sig.spec_size()));
        r
    }

    /// The multivector with the given coefficients in slot order; `None` when their number
    /// is not the signature's size.
    pub fn from_coefficients(sig: Clifford, data: Vec<i64>) -> (r: Option<Multivector>)
        ensures
            r is Some <==> data@.len() == sig.spec_size(),
            r matches Some(m) ==> m.spec_signature() == sig && m@ == data@.map_values(
                |c: i64| c as int,
            ),
    {
        if data.len() == sig.size() {
            Some(Multivector { sig, data })
        } else {
            None
        }
    }

    /// The coefficients in slot order.
    pub fn into_coefficients(self) -> (r: Vec<i64>)
        ensures
            r@.map_values(|c: i64| c as int) == self@,
            r@.len() == self.spec_signature().spec_size(),
    {
        proof {
            use_type_invariant(&self);
        }
        self.data
    }

    /// The coefficients in slot order.
    pub fn coefficients(&self) -> (r: &Vec<i64>)
        ensures
            r@.map_values(|c: i64| c as int) == self@,
            r@.len() == self.spec_signature().spec_size(),
    {
        proof {
            use_type_invariant(self);
        }
        &self.data
    }

    /// Coefficient-wise sum.
    pub fn add(&self, other: &Multivector) -> (r: Multivector)
        requires
            other.spec_signature() == self.spec_signature(),
            forall|s: int|
                0 <= s < self.spec_signature().spec_size() ==> i64::MIN <= #[trigger] self@[s]
                    + other@[s] <= i64::MAX,
        ensures
            r.spec_signature() == self.spec_signature(),
            r@ == coeff_sum(self@, other@),
    {
        proof {
            use_type_invariant(self);
            use_type_invariant(other);
        }
        let size = self.sig.size();
        let mut data = self.data.clone();
        let ghost a = self@;
        let ghost b = other@;
        let mut s: usize = 0;
        while s < size
            invariant
                size == self.sig.spec_size(),
                a.len() == size,
                b.len() == size,
                a == self@,
                b == other@,
                other.data@.len() == size,
                s <= size,
                data@.len() == size,
                forall|t: int| 0 <= t < s ==> data@[t] as int == a[t] + b[t],
                forall|t: int| s <= t < size ==> data@[t] as int == a[t],
                forall|t: int| 0 <= t < size ==> other.data@[t] as int == b[t],
                forall|t: int|
                    0 <= t < size ==> i64::MIN <= #[trigger] a[t] + b[t] <= i64::MAX,
            decreases size - s,
        {
            assert(i64::MIN <= a[s as int] + b[s as int] <= i64::MAX);
            let c = data[s] + other.data[s];
            data.set(s, c);
            s = s + 1;
        }
        let r = Multivector { sig: self.sig, data };
        assert(r@ =~= coeff_sum(a, b));
        r
    }

    /// Adds `x` to the scalar (grade-0) coefficient.
    pub fn add_scalar(&self, x: i64) -> (r: Multivector)
        requires
            i64::MIN <= self@[0] + x <= i64::MAX,
        ensures
            r.spec_signature() == self.spec_signature(),
            r@ == with_scalar(self@, x as int),
    {
        proof {
            use_type_invariant(self);
            vstd::arithmetic::power2::lemma_pow2_pos(self.sig.spec_dim());
        }
        let mut data = self.data.clone();
        let c = data[0] + x;
        data.set(0, c);
        let r = Multivector { sig: self.sig, data };
        assert(r@ =~= with_scalar(self@, x as int));
        r
    }

    /// Inner product: over every slot whose blade holds no null generator, the product of
    /// the two coefficients, negated when the blade holds an odd number of negative
    /// generators.
    pub fn inner_product(&self, other: &Multivector) -> (r: i64)
        requires
            other.spec_signature() == self.spec_signature(),
            products_fit(self@, other@),
        ensures
            r == inner_value(self.spec_signature(), self@, other@),
    {
        proof {
            use_type_invariant(self);
            use_type_invariant(other);
        }
        let sig = self.sig;
        let size = sig.size();
        let ghost a = self@;
        let ghost b = other@;
        let ghost lb = norm1(b);
        proof {
            lemma_abs_sum_mono(a, 0, size as nat);
            lemma_abs_sum_mono(b, 0, size as nat);
        }
        let mut v: i64 = 0;
        let mut s: usize = 0;
        while s < size
            invariant
                sig == self.sig,
                size == sig.spec_size(),
                a == self@,
                b == other@,
                a.len() == size,
                b.len() == size,
                self.data@.len() == size,
                other.data@.len() == size,
                lb == norm1(b),
                lb >= 0,
                norm1(a) * lb <= i64::MAX,
                s <= size,
                v == inner_upto(sig, a, b, s as nat),
                abs(v as int) <= abs_sum(a, s as nat) * lb,
            decreases size - s,
        {
            let x = sig.blade_to_bit(s);
            let ghost av = a[s as int];
            let ghost bv = b[s as int];
            proof {
                lemma_abs_sum_mono(b, (s + 1) as nat, size as nat);
                lemma_abs_sum_mono(a, (s + 1) as nat, size as nat);
                lemma_abs_sum_mono(a, 0, s as nat);
                lemma_abs_sum_mono(b, 0, s as nat);
                assert(abs_sum(b, (s + 1) as nat) == abs_sum(b, s as nat) + abs(bv));
                lemma_step_bound(av, bv, abs_sum(a, s as nat), 0, lb);
                lemma_mul_mono(abs_sum(a, (s + 1) as nat), norm1(a), lb);
            }
            if sig.zero_by_form(x) {
            } else if sig.flip_by_form(x) {
                v = v - self.data[s] * other.data[s];
            } else {
                v = v + self.data[s] * other.data[s];
            }
            s = s + 1;
        }
        v
    }

    /// Outer product: every pair of distinct blades whose combined mask holds no null
    /// generator contributes the product of their coefficients to the slot of the
    /// combined mask, with the sign of reordering their generators, flipped again by the
    /// negative generators they share.
    pub fn outer_product(&self, other: &Multivector) -> (r: Multivector)
        requires
            other.spec_signature() == self.spec_signature(),
            products_fit(self@, other@),
        ensures
            r.spec_signature() == self.spec_signature(),
            r@ == outer_coeffs(self.spec_signature(), self@, other@),
    {
        proof {
            use_type_invariant(self);
            use_type_invariant(other);
        }
        let sig = self.sig;
        let size = sig.size();
        let masks = mask_table(sig);
        let slots = slot_table(sig);
        let ghost a = self@;
        let ghost b = other@;
        let mut out: Vec<i64> = Vec::new();
        let mut s: usize = 0;
        while s < size
            invariant
                s <= size,
                out@.len() == s,
                forall|t: int| 0 <= t < s ==> out@[t] == 0,
            decreases size - s,
        {
            out.push(0);
            s = s + 1;
        }
        let mut p: usize = 0;
        while p < size
            invariant
                sig == self.sig,
                sig.spec_dim() < usize::BITS,
                size == sig.spec_size(),
                a == self@,
                b == other@,
                a == self.data@.map_values(|c: i64| c as int),
                b == other.data@.map_values(|c: i64| c as int),
                self.data@.len() == size,
                other.data@.len() == size,
                products_fit(a, b),
                masks@.len() == size,
                slots@.len() == size,
                forall|t: int|
                    0 <= t < size ==> #[trigger] masks@[t] == blade_mask(
                        sig.spec_dim(),
                        t as nat,
                    ) && masks@[t] < size,
                forall|x: int|
                    0 <= x < size ==> #[trigger] slots@[x] == blade_index(
                        sig.spec_dim(),
                        x as nat,
                    ) && slots@[x] < size,
                p <= size,
                out@.len() == size,
                forall|t: int|
                    0 <= t < size ==> #[trigger] out@[t] as int == outer_rows(
                        sig,
                        a,
                        b,
                        p as nat,
                        t as nat,
                    ),
                forall|t: int|
                    0 <= t < size ==> abs(#[trigger] out@[t] as int) <= abs_sum(a, p as nat)
                        * norm1(b),
            decreases size - p,
        {
            accumulate_outer_row(sig, &masks, &slots, &self.data, &other.data, p, &mut out);
            p = p + 1;
        }
        let r = Multivector { sig, data: out };
        assert(r@ =~= outer_coeffs(sig, a, b));
        r
    }

    /// The product of this algebra: the outer product with the inner product added to
    /// its scalar coefficient. It agrees with the Clifford product on pairs of vectors,
    /// but it is not the full Clifford product: the inner product pairs only equal
    /// blades, and the outer product keeps pairs that share generators.
    pub fn mul(&self, other: &Multivector) -> (r: Multivector)
        requires
            other.spec_signature() == self.spec_signature(),
            products_fit(self@, other@),
        ensures
            r.spec_signature() == self.spec_signature(),
            r@ == product_coeffs(self.spec_signature(), self@, other@),
    {
        let outer = self.outer_product(other);
        let inner = self.inner_product(other);
        proof {
            use_type_invariant(self);
            vstd::arithmetic::power2::lemma_pow2_pos(self.sig.spec_dim());
            lemma_outer_scalar_zero(self.sig, self@, other@, self.sig.spec_size());
            assert(outer@[0] == 0);
        }
        outer.add_scalar(inner)
    }

    /// Whether `inner_product`, `outer_product` and `mul` accept this pair: the two
    /// belong to one signature and their products fit in 64-bit coefficients.
    pub fn can_multiply(&self, other: &Multivector) -> (r: bool)
        ensures
            r == (other.spec_signature() == self.spec_signature() && products_fit(
                self@,
                other@,
            )),
    {
        if self.sig != other.sig {
            return false;
        }
        let la = norm1_of(&self.data);
        let lb = norm1_of(&other.data);
        if la == 0 || lb == 0 {
            proof {
                assert(la * lb == 0) by (nonlinear_arith)
                    requires
                        la == 0 || lb == 0,
                ;
            }
            return true;
        }
        if la > i64::MAX as u128 || lb > i64::MAX as u128 {
            proof {
                assert(la * lb > i64::MAX) by (nonlinear_arith)
                    requires
                        la >= 1,
                        lb >= 1,
                        la > i64::MAX || lb > i64::MAX,
                ;
            }
            return false;
        }
        proof {
            assert(la * lb <= u128::MAX) by (nonlinear_arith)
                requires
                    la <= i64::MAX,
                    lb <= i64::MAX,
            ;
        }
        la * lb <= i64::MAX as u128
    }

    /// Whether `add` accepts this pair: the two belong to one signature and every
    /// coefficient sum fits in 64 bits.
    pub fn can_add(&self, other: &Multivector) -> (r: bool)
        ensures
            r == (other.spec_signature() == self.spec_signature() && forall|s: int|
                0 <= s < self.spec_signature().spec_size() ==> i64::MIN <= #[trigger] self@[s]
                    + other@[s] <= i64::MAX),
    {
        proof {
            use_type_invariant(self);
            use_type_invariant(other);
        }
        if self.sig != other.sig {
            return false;
        }
        let size = self.sig.size();
        let mut s: usize = 0;
        while s < size
            invariant
                size == self.sig.spec_size(),
                self.data@.len() == size,
                other.data@.len() == size,
                s <= size,
                forall|t: int| 0 <= t < s ==> i64::MIN <= #[trigger] self@[t] + other@[t] <= i64::MAX,
            decreases size - s,
        {
            let x = self.data[s] as i128 + other.data[s] as i128;
            assert(self@[s as int] == self.data@[s as int] as int);
            assert(other@[s as int] == other.data@[s as int] as int);
            if x < i64::MIN as i128 || x > i64::MAX as i128 {
                return false;
            }
            s = s + 1;
        }
        true
    }
}

} // verus!
