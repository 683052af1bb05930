//! The generic sum-check engine: proving `Σ_{x∈{0,1}^v} g(x) = C` for a
//! sparse multivariate polynomial `g`, given as a sum of monomials. Each
//! round the prover sends the univariate polynomial obtained by binding the
//! variables already challenged, leaving the round's variable symbolic, and
//! summing over all Boolean completions of the rest; the verifier checks
//! round consistency, the degree bound, and finally evaluates `g` itself at
//! the full challenge vector.

use vstd::prelude::*;
use vstd::arithmetic::div_mod::{
    lemma_div_denominator, lemma_fundamental_div_mod, lemma_fundamental_div_mod_converse,
    lemma_mod_bound,
};
use vstd::arithmetic::power2::{lemma2_to64, lemma_pow2_pos, lemma_pow2_unfold, pow2};

use crate::field::{
    fadd, fmul, fpow, fr_order, lemma_fadd_zero, lemma_fmul_one, lemma_fmul_swap, lemma_mod_small,
    reduced, vals, Fe,
};
use crate::ml_extension::{lemma_pow2_le, pow2_exec};
use crate::protocol::{evaluate_univariate, uni_value, ChallengeOracle};

verus! {

// ---------------------------------------------------------------------------
// Polynomials as data.
// ---------------------------------------------------------------------------

/// One monomial: a coefficient and its variables with their exponents.
pub struct Monomial {
    pub coeff: Fe,
    pub powers: Vec<(usize, usize)>,
}

/// A multivariate polynomial: a sum of monomials over `num_vars` variables.
pub struct MultiPoly {
    pub num_vars: usize,
    pub terms: Vec<Monomial>,
}

/// A univariate polynomial by its coefficients, lowest degree first.
pub struct UniPoly {
    pub coeffs: Vec<Fe>,
}

impl MultiPoly {
    /// Coefficients reduced; in each monomial the variable indices are
    /// distinct and below the variable count; the hypercube fits in `usize`.
    pub open spec fn wf(&self) -> bool {
        &&& pow2(self.num_vars as nat) <= usize::MAX as nat
        &&& forall|k: int|
            0 <= k < self.terms@.len() ==> (#[trigger] self.terms@[k]).coeff.inv()
        &&& forall|k: int, j: int|
            0 <= k < self.terms@.len() && 0 <= j < self.terms@[k].powers@.len() ==> (
            #[trigger] self.terms@[k].powers@[j]).0 < self.num_vars
        &&& forall|k: int, j1: int, j2: int|
            0 <= k < self.terms@.len() && 0 <= j1 < self.terms@[k].powers@.len() && 0 <= j2
                < self.terms@[k].powers@.len() && j1 != j2 ==> (#[trigger] self.terms@[k].powers@[j1]).0
                != (#[trigger] self.terms@[k].powers@[j2]).0
        // One more than any exponent must fit in `usize` for a coefficient
        // table indexed by degree.
        &&& forall|k: int, j: int|
            0 <= k < self.terms@.len() && 0 <= j < self.terms@[k].powers@.len() ==> (
            #[trigger] self.terms@[k].powers@[j]).1 < usize::MAX
    }
}

/// The value of a monomial's variable part at a point.
pub open spec fn term_value(pw: Seq<(usize, usize)>, pt: Seq<int>) -> int
    decreases pw.len(),
{
    if pw.len() == 0 {
        1
    } else {
        fmul(term_value(pw.drop_last(), pt), fpow(pt[pw.last().0 as int], pw.last().1 as nat))
    }
}

/// The value of a sum of monomials at a point.
pub open spec fn poly_value(terms: Seq<Monomial>, pt: Seq<int>) -> int
    decreases terms.len(),
{
    if terms.len() == 0 {
        0
    } else {
        fadd(
            poly_value(terms.drop_last(), pt),
            fmul(terms.last().coeff@, term_value(terms.last().powers@, pt)),
        )
    }
}

/// The sum of `g` over all Boolean completions of a bound prefix.
pub open spec fn tail_sum(g: MultiPoly, bound: Seq<int>) -> int
    decreases g.num_vars - bound.len(),
{
    if bound.len() >= g.num_vars {
        poly_value(g.terms@, bound)
    } else {
        fadd(tail_sum(g, bound.push(0)), tail_sum(g, bound.push(1)))
    }
}

/// The bits of `i`, most significant first, padded to width `n`.
pub open spec fn bits_of(i: nat, n: nat) -> Seq<int>
    decreases n,
{
    if n == 0 {
        Seq::empty()
    } else {
        bits_of(i / 2, (n - 1) as nat).push((i % 2) as int)
    }
}

/// `Σ_{j<n} g(prefix ++ bits_of(j, k))`: the completion sum in index order.
pub open spec fn bsum(g: MultiPoly, prefix: Seq<int>, k: nat, n: nat) -> int
    decreases n,
{
    if n == 0 {
        0
    } else {
        fadd(bsum(g, prefix, k, (n - 1) as nat), poly_value(g.terms@, prefix + bits_of((n - 1) as nat, k)))
    }
}

/// Two polynomials with the same structure and the same representatives.
pub open spec fn mp_eq(a: MultiPoly, b: MultiPoly) -> bool {
    &&& a.num_vars == b.num_vars
    &&& a.terms@.len() == b.terms@.len()
    &&& forall|k: int|
        0 <= k < a.terms@.len() ==> (#[trigger] a.terms@[k]).coeff@ == b.terms@[k].coeff@
            && a.terms@[k].powers@ == b.terms@[k].powers@
}

// ---------------------------------------------------------------------------
// Facts about values, sums and bits.
// ---------------------------------------------------------------------------

proof fn lemma_poly_value_reduced(terms: Seq<Monomial>, pt: Seq<int>)
    ensures
        0 <= poly_value(terms, pt) < fr_order(),
{
    if terms.len() == 0 {
    }
}

proof fn lemma_tail_sum_reduced(g: MultiPoly, bound: Seq<int>)
    ensures
        0 <= tail_sum(g, bound) < fr_order(),
{
    if bound.len() >= g.num_vars {
        lemma_poly_value_reduced(g.terms@, bound);
    }
}

/// Structurally equal polynomials take the same values and sums.
proof fn lemma_mp_eq_poly_value(a: Seq<Monomial>, b: Seq<Monomial>, pt: Seq<int>)
    requires
        a.len() == b.len(),
        forall|k: int|
            0 <= k < a.len() ==> (#[trigger] a[k]).coeff@ == b[k].coeff@ && a[k].powers@
                == b[k].powers@,
    ensures
        poly_value(a, pt) == poly_value(b, pt),
    decreases a.len(),
{
    if a.len() > 0 {
        lemma_mp_eq_poly_value(a.drop_last(), b.drop_last(), pt);
        assert(a.last().coeff@ == b.last().coeff@);
        assert(a.last().powers@ == b.last().powers@);
    }
}

proof fn lemma_mp_eq_tail_sum(a: MultiPoly, b: MultiPoly, bound: Seq<int>)
    requires
        mp_eq(a, b),
    ensures
        tail_sum(a, bound) == tail_sum(b, bound),
    decreases a.num_vars - bound.len(),
{
    if bound.len() >= a.num_vars {
        lemma_mp_eq_poly_value(a.terms@, b.terms@, bound);
    } else {
        lemma_mp_eq_tail_sum(a, b, bound.push(0));
        lemma_mp_eq_tail_sum(a, b, bound.push(1));
    }
}

/// Below the half range the leading bit is zero.
proof fn lemma_bits_low(j: nat, k: nat)
    requires
        k >= 1,
        j < pow2((k - 1) as nat),
    ensures
        bits_of(j, k) == seq![0int] + bits_of(j, (k - 1) as nat),
    decreases k,
{
    lemma2_to64();
    if k == 1 {
        assert(bits_of(0nat, 1nat) =~= seq![0int] + bits_of(0nat, 0nat));
    } else {
        lemma_pow2_unfold((k - 1) as nat);
        lemma_fundamental_div_mod(j as int, 2);
        lemma_bits_low(j / 2, (k - 1) as nat);
        assert(bits_of(j, k) == bits_of(j / 2, (k - 1) as nat).push((j % 2) as int));
        assert((seq![0int] + bits_of(j / 2, (k - 2) as nat)).push((j % 2) as int) =~= seq![0int]
            + bits_of(j / 2, (k - 2) as nat).push((j % 2) as int));
    }
}

/// In the upper half range the leading bit is one.
proof fn lemma_bits_high(j: nat, k: nat)
    requires
        k >= 1,
        pow2((k - 1) as nat) <= j < pow2(k),
    ensures
        bits_of(j, k) == seq![1int] + bits_of((j - pow2((k - 1) as nat)) as nat, (k - 1) as nat),
    decreases k,
{
    lemma2_to64();
    lemma_pow2_unfold(k);
    if k == 1 {
        assert(j == 1);
        assert(bits_of(1nat, 1nat) =~= seq![1int] + bits_of(0nat, 0nat));
    } else {
        lemma_pow2_unfold((k - 1) as nat);
        let h2 = pow2((k - 2) as nat) as int;
        lemma_fundamental_div_mod(j as int, 2);
        let q = j as int / 2;
        let r = j as int % 2;
        lemma_mod_bound(j as int, 2);
        assert(j as int - 2 * h2 == 2 * (q - h2) + r);
        lemma_fundamental_div_mod_converse(j as int - 2 * h2, 2, q - h2, r);
        lemma_bits_high(j / 2, (k - 1) as nat);
        assert(bits_of(j, k) == bits_of(j / 2, (k - 1) as nat).push(r));
        assert((seq![1int] + bits_of((q - h2) as nat, (k - 2) as nat)).push(r) =~= seq![1int]
            + bits_of((q - h2) as nat, (k - 2) as nat).push(r));
        assert(bits_of((j - pow2((k - 1) as nat)) as nat, (k - 1) as nat) == bits_of(
            (q - h2) as nat,
            (k - 2) as nat,
        ).push(r));
    }
}

/// The first half of the completion sum fixes the leading bit to zero.
proof fn lemma_bsum_low(g: MultiPoly, prefix: Seq<int>, k: nat, m: nat)
    requires
        k >= 1,
        m <= pow2((k - 1) as nat),
    ensures
        bsum(g, prefix, k, m) == bsum(g, prefix.push(0), (k - 1) as nat, m),
    decreases m,
{
    if m > 0 {
        lemma_bsum_low(g, prefix, k, (m - 1) as nat);
        lemma_pow2_unfold(k);
        lemma_bits_low((m - 1) as nat, k);
        assert(prefix + (seq![0int] + bits_of((m - 1) as nat, (k - 1) as nat)) =~= prefix.push(0)
            + bits_of((m - 1) as nat, (k - 1) as nat));
    }
}

/// The second half of the completion sum fixes the leading bit to one.
proof fn lemma_bsum_high(g: MultiPoly, prefix: Seq<int>, k: nat, m: nat)
    requires
        k >= 1,
        m <= pow2((k - 1) as nat),
    ensures
        bsum(g, prefix, k, (pow2((k - 1) as nat) + m) as nat) == fadd(
            bsum(g, prefix, k, pow2((k - 1) as nat)),
            bsum(g, prefix.push(1), (k - 1) as nat, m),
        ),
    decreases m,
{
    let h = pow2((k - 1) as nat);
    if m == 0 {
        lemma_bsum_reduced(g, prefix, k, h);
        lemma_fadd_zero(bsum(g, prefix, k, h));
    } else {
        lemma_bsum_high(g, prefix, k, (m - 1) as nat);
        lemma_pow2_unfold(k);
        lemma_bits_high((h + m - 1) as nat, k);
        assert(prefix + (seq![1int] + bits_of((m - 1) as nat, (k - 1) as nat)) =~= prefix.push(1)
            + bits_of((m - 1) as nat, (k - 1) as nat));
        crate::field::lemma_fadd_assoc(
            bsum(g, prefix, k, h),
            bsum(g, prefix.push(1), (k - 1) as nat, (m - 1) as nat),
            poly_value(g.terms@, prefix.push(1) + bits_of((m - 1) as nat, (k - 1) as nat)),
        );
    }
}

proof fn lemma_bsum_reduced(g: MultiPoly, prefix: Seq<int>, k: nat, n: nat)
    ensures
        0 <= bsum(g, prefix, k, n) < fr_order(),
{
    if n == 0 {
    }
}

/// The completion sum in index order equals the recursive hypercube sum.
proof fn lemma_bsum_tail(g: MultiPoly, prefix: Seq<int>, k: nat)
    requires
        prefix.len() + k == g.num_vars,
    ensures
        bsum(g, prefix, k, pow2(k)) == tail_sum(g, prefix),
    decreases k,
{
    lemma2_to64();
    if k == 0 {
        assert(bits_of(0nat, 0nat) =~= Seq::<int>::empty());
        assert(prefix + Seq::<int>::empty() =~= prefix);
        lemma_poly_value_reduced(g.terms@, prefix);
        lemma_fadd_zero(poly_value(g.terms@, prefix));
        assert(bsum(g, prefix, k, 0) == 0);
        assert(bsum(g, prefix, k, 1) == fadd(0, poly_value(g.terms@, prefix + bits_of(0nat, 0nat))));
    } else {
        lemma_pow2_unfold(k);
        let h = pow2((k - 1) as nat);
        lemma_bsum_low(g, prefix, k, h);
        lemma_bsum_high(g, prefix, k, h);
        assert(pow2(k) == (h + h) as nat);
        assert(bsum(g, prefix, k, pow2(k)) == fadd(
            bsum(g, prefix.push(0), (k - 1) as nat, h),
            bsum(g, prefix.push(1), (k - 1) as nat, h),
        ));
        lemma_bsum_tail(g, prefix.push(0), (k - 1) as nat);
        lemma_bsum_tail(g, prefix.push(1), (k - 1) as nat);
    }
}

// ---------------------------------------------------------------------------
// Degrees.
// ---------------------------------------------------------------------------

/// The variable occurs in the monomial.
pub open spec fn has_var(pw: Seq<(usize, usize)>, v: int) -> bool {
    exists|j: int| 0 <= j < pw.len() && (#[trigger] pw[j]).0 == v
}

/// The exponent of variable `v` in a monomial (zero when absent).
pub open spec fn term_deg(pw: Seq<(usize, usize)>, v: int) -> nat
    decreases pw.len(),
{
    if pw.len() == 0 {
        0
    } else {
        let m = term_deg(pw.drop_last(), v);
        if pw.last().0 == v && pw.last().1 as nat > m {
            pw.last().1 as nat
        } else {
            m
        }
    }
}

/// The largest exponent of variable `v` over all monomials.
pub open spec fn poly_max_deg(terms: Seq<Monomial>, v: int) -> nat
    decreases terms.len(),
{
    if terms.len() == 0 {
        0
    } else {
        let m = poly_max_deg(terms.drop_last(), v);
        if term_deg(terms.last().powers@, v) > m {
            term_deg(terms.last().powers@, v)
        } else {
            m
        }
    }
}

proof fn lemma_term_deg_absent(pw: Seq<(usize, usize)>, v: int)
    requires
        forall|j: int| 0 <= j < pw.len() ==> (#[trigger] pw[j]).0 != v,
    ensures
        term_deg(pw, v) == 0,
    decreases pw.len(),
{
    if pw.len() > 0 {
        assert(pw[pw.len() - 1].0 != v);
        lemma_term_deg_absent(pw.drop_last(), v);
    }
}

proof fn lemma_term_le_poly(terms: Seq<Monomial>, k: int, v: int)
    requires
        0 <= k < terms.len(),
    ensures
        term_deg(terms[k].powers@, v) <= poly_max_deg(terms, v),
    decreases terms.len(),
{
    if k < terms.len() - 1 {
        lemma_term_le_poly(terms.drop_last(), k, v);
    }
}

proof fn lemma_mp_eq_max_deg(a: Seq<Monomial>, b: Seq<Monomial>, v: int)
    requires
        a.len() == b.len(),
        forall|k: int|
            0 <= k < a.len() ==> (#[trigger] a[k]).coeff@ == b[k].coeff@ && a[k].powers@
                == b[k].powers@,
    ensures
        poly_max_deg(a, v) == poly_max_deg(b, v),
    decreases a.len(),
{
    if a.len() > 0 {
        lemma_mp_eq_max_deg(a.drop_last(), b.drop_last(), v);
        assert(a.last().powers@ == b.last().powers@);
    }
}

// ---------------------------------------------------------------------------
// Univariate accumulation.
// ---------------------------------------------------------------------------

proof fn lemma_uni_pad(c: Seq<int>, x: int)
    ensures
        uni_value(c.push(0), x) == uni_value(c, x),
    decreases c.len(),
{
    lemma_mod_small(0);
    if c.len() == 0 {
        assert(c.push(0).drop_first() =~= Seq::<int>::empty());
        assert(c.push(0).first() == 0);
        assert(uni_value(Seq::<int>::empty(), x) == 0);
        crate::field::lemma_fmul_zero(x);
    } else {
        assert(c.push(0).drop_first() =~= c.drop_first().push(0));
        assert(c.push(0).first() == c.first());
        lemma_uni_pad(c.drop_first(), x);
    }
}

proof fn lemma_uni_update(c: Seq<int>, d: int, w: int, x: int)
    requires
        0 <= d < c.len(),
        0 <= w < fr_order(),
    ensures
        uni_value(c.update(d, fadd(c[d], w)), x) == fadd(
            uni_value(c, x),
            fmul(w, fpow(x, d as nat)),
        ),
    decreases d,
{
    let c2 = c.update(d, fadd(c[d], w));
    if d == 0 {
        assert(c2.drop_first() =~= c.drop_first());
        assert(c2.first() == fadd(c[0], w));
        lemma_fmul_one(w);
        crate::field::lemma_fadd_swap(c.first(), w, fmul(x, uni_value(c.drop_first(), x)));
    } else {
        assert(c2.drop_first() =~= c.drop_first().update(d - 1, fadd(c[d], w)));
        assert(c.drop_first()[d - 1] == c[d]);
        lemma_uni_update(c.drop_first(), d - 1, w, x);
        let rest = uni_value(c.drop_first(), x);
        let wp = fmul(w, fpow(x, (d - 1) as nat));
        crate::field::lemma_fmul_distrib(x, rest, wp);
        crate::field::lemma_fmul_assoc(x, w, fpow(x, (d - 1) as nat));
        crate::field::lemma_fmul_comm(x, w);
        crate::field::lemma_fmul_assoc(w, x, fpow(x, (d - 1) as nat));
        assert(fpow(x, d as nat) == fmul(x, fpow(x, (d - 1) as nat)));
        crate::field::lemma_fadd_assoc(c.first(), fmul(x, rest), fmul(w, fpow(x, d as nat)));
    }
}

proof fn lemma_uni_take(c: Seq<int>, j: int, x: int)
    requires
        0 <= j < c.len(),
        reduced(c),
    ensures
        uni_value(c.take(j + 1), x) == fadd(uni_value(c.take(j), x), fmul(c[j], fpow(x, j as nat))),
    decreases j,
{
    lemma_mod_small(0);
    if j == 0 {
        assert(c.take(1) =~= seq![c[0]]);
        assert(c.take(0) =~= Seq::<int>::empty());
        assert(seq![c[0]].drop_first() =~= Seq::<int>::empty());
        crate::field::lemma_fmul_zero(x);
        lemma_fmul_one(c[0]);
        crate::field::lemma_fadd_zero(c[0]);
    } else {
        let cdf = c.drop_first();
        assert(c.take(j + 1).drop_first() =~= cdf.take(j));
        assert(c.take(j).drop_first() =~= cdf.take(j - 1));
        assert(c.take(j + 1).first() == c.first());
        assert(c.take(j).first() == c.first());
        assert(reduced(cdf)) by {
            assert forall|i: int| 0 <= i < cdf.len() implies 0 <= #[trigger] cdf[i]
                < fr_order() by {
                assert(cdf[i] == c[i + 1]);
            }
        }
        lemma_uni_take(cdf, j - 1, x);
        let a = uni_value(cdf.take(j - 1), x);
        let b = fmul(cdf[j - 1], fpow(x, (j - 1) as nat));
        crate::field::lemma_fmul_distrib(x, a, b);
        crate::field::lemma_fmul_assoc(x, cdf[j - 1], fpow(x, (j - 1) as nat));
        crate::field::lemma_fmul_comm(x, cdf[j - 1]);
        crate::field::lemma_fmul_assoc(cdf[j - 1], x, fpow(x, (j - 1) as nat));
        assert(fpow(x, j as nat) == fmul(x, fpow(x, (j - 1) as nat)));
        assert(cdf[j - 1] == c[j]);
        crate::field::lemma_fadd_assoc(
            c.first(),
            fmul(x, uni_value(cdf.take(j - 1), x)),
            fmul(c[j], fpow(x, j as nat)),
        );
    }
}

/// Adds `w·X^d` into a coefficient vector.
fn add_at(coeffs: &mut Vec<Fe>, d: usize, w: &Fe)
    requires
        reduced(vals(old(coeffs)@)),
        w.inv(),
        d < usize::MAX,
    ensures
        reduced(vals(final(coeffs)@)),
        final(coeffs)@.len() == (if d + 1 > old(coeffs)@.len() {
            d + 1
        } else {
            old(coeffs)@.len() as int
        }),
        forall|x: int|
            #[trigger] uni_value(vals(final(coeffs)@), x) == fadd(
                uni_value(vals(old(coeffs)@), x),
                fmul(w@, fpow(x, d as nat)),
            ),
{
    while coeffs.len() <= d
        invariant
            d < usize::MAX,
            reduced(vals(coeffs@)),
            coeffs@.len() >= old(coeffs)@.len(),
            old(coeffs)@.len() > d ==> coeffs@ == old(coeffs)@,
            old(coeffs)@.len() <= d ==> coeffs@.len() <= d + 1,
            forall|x: int|
                #[trigger] uni_value(vals(coeffs@), x) == uni_value(vals(old(coeffs)@), x),
        decreases d + 1 - coeffs@.len(),
    {
        let ghost pre = coeffs@;
        coeffs.push(Fe::zero());
        proof {
            assert(vals(coeffs@) =~= vals(pre).push(0));
            assert forall|x: int|
                #[trigger] uni_value(vals(coeffs@), x) == uni_value(vals(pre), x) by {
                lemma_uni_pad(vals(pre), x);
            }
        }
    }
    let ghost mid = coeffs@;
    let updated = coeffs[d].plus(w);
    coeffs[d] = updated;
    proof {
        assert(vals(coeffs@) =~= vals(mid).update(d as int, fadd(vals(mid)[d as int], w@)));
        assert forall|x: int|
            #[trigger] uni_value(vals(coeffs@), x) == fadd(
                uni_value(vals(old(coeffs)@), x),
                fmul(w@, fpow(x, d as nat)),
            ) by {
            lemma_uni_update(vals(mid), d as int, w@, x);
        }
    }
}

/// Adds a whole coefficient vector into the accumulator.
fn uni_accumulate(acc: &mut Vec<Fe>, extra: &Vec<Fe>)
    requires
        reduced(vals(old(acc)@)),
        reduced(vals(extra@)),
    ensures
        reduced(vals(final(acc)@)),
        final(acc)@.len() == (if extra@.len() > old(acc)@.len() {
            extra@.len() as int
        } else {
            old(acc)@.len() as int
        }),
        forall|x: int|
            #[trigger] uni_value(vals(final(acc)@), x) == fadd(
                uni_value(vals(old(acc)@), x),
                uni_value(vals(extra@), x),
            ),
{
    let n = extra.len();
    let mut j: usize = 0;
    proof {
        assert(vals(extra@).take(0) =~= Seq::<int>::empty());
        lemma_mod_small(0);
        assert forall|x: int|
            #[trigger] uni_value(vals(acc@), x) == fadd(
                uni_value(vals(old(acc)@), x),
                uni_value(vals(extra@).take(0), x),
            ) by {
            lemma_uni_reduced(vals(old(acc)@), x);
            crate::field::lemma_fadd_zero(uni_value(vals(old(acc)@), x));
            assert(uni_value(Seq::<int>::empty(), x) == 0);
        }
    }
    while j < n
        invariant
            j <= n,
            n == extra@.len(),
            reduced(vals(acc@)),
            reduced(vals(extra@)),
            acc@.len() == (if j > old(acc)@.len() {
                j as int
            } else {
                old(acc)@.len() as int
            }),
            forall|x: int|
                #[trigger] uni_value(vals(acc@), x) == fadd(
                    uni_value(vals(old(acc)@), x),
                    uni_value(vals(extra@).take(j as int), x),
                ),
        decreases n - j,
    {
        proof {
            assert(0 <= vals(extra@)[j as int] < fr_order());
        }
        add_at(acc, j, &extra[j]);
        proof {
            assert forall|x: int|
                #[trigger] uni_value(vals(acc@), x) == fadd(
                    uni_value(vals(old(acc)@), x),
                    uni_value(vals(extra@).take(j + 1), x),
                ) by {
                lemma_uni_take(vals(extra@), j as int, x);
                lemma_uni_reduced(vals(old(acc)@), x);
                lemma_uni_reduced(vals(extra@).take(j as int), x);
                crate::field::lemma_fadd_assoc(
                    uni_value(vals(old(acc)@), x),
                    uni_value(vals(extra@).take(j as int), x),
                    fmul(vals(extra@)[j as int], fpow(x, j as nat)),
                );
            }
        }
        j = j + 1;
    }
    proof {
        assert(vals(extra@).take(n as int) =~= vals(extra@));
    }
}

proof fn lemma_uni_reduced(c: Seq<int>, x: int)
    ensures
        0 <= uni_value(c, x) < fr_order(),
{
    if c.len() == 0 {
    }
}


// ---------------------------------------------------------------------------
// Points on the hypercube.
// ---------------------------------------------------------------------------

proof fn lemma_bits_len(i: nat, n: nat)
    ensures
        bits_of(i, n).len() == n,
    decreases n,
{
    if n > 0 {
        lemma_bits_len(i / 2, (n - 1) as nat);
    }
}

proof fn lemma_bits_index(i: nat, n: nat, k: int)
    requires
        0 <= k < n,
    ensures
        bits_of(i, n)[k] == ((i as int / pow2((n - 1 - k) as nat) as int) % 2),
    decreases n,
{
    lemma2_to64();
    lemma_bits_len(i, n);
    lemma_bits_len(i / 2, (n - 1) as nat);
    if k == n - 1 {
        assert(i as int / 1 == i as int);
    } else {
        lemma_bits_index(i / 2, (n - 1) as nat, k);
        lemma_pow2_unfold((n - 1 - k) as nat);
        lemma_pow2_pos((n - 2 - k) as nat);
        lemma_div_denominator(i as int, 2, pow2((n - 2 - k) as nat) as int);
        assert(bits_of(i, n)[k] == bits_of(i / 2, (n - 1) as nat)[k]);
    }
}

/// Writes `i` as a point of `{0,1}^n`, most significant bit first.
pub fn n_to_vec(i: usize, n: usize) -> (r: Vec<Fe>)
    requires
        (i as nat) < pow2(n as nat),
        pow2(n as nat) <= usize::MAX as nat,
    ensures
        r@.len() == n,
        vals(r@) == bits_of(i as nat, n as nat),
        reduced(vals(r@)),
{
    let mut out: Vec<Fe> = Vec::new();
    let mut k: usize = 0;
    proof {
        lemma_bits_len(i as nat, n as nat);
        assert(vals(out@) =~= bits_of(i as nat, n as nat).take(0));
    }
    while k < n
        invariant
            k <= n,
            (i as nat) < pow2(n as nat),
            pow2(n as nat) <= usize::MAX as nat,
            out@.len() == k,
            vals(out@) == bits_of(i as nat, n as nat).take(k as int),
            reduced(vals(out@)),
        decreases n - k,
    {
        proof {
            lemma_pow2_le((n - 1 - k) as nat, n as nat);
            lemma_pow2_pos((n - 1 - k) as nat);
        }
        let p = pow2_exec(n - 1 - k);
        let b = (i / p) % 2;
        let ghost pre = out@;
        out.push(Fe::from_u64(b as u64));
        proof {
            lemma_bits_index(i as nat, n as nat, k as int);
            lemma_bits_len(i as nat, n as nat);
            lemma_mod_small(b as int);
            assert(vals(out@) =~= vals(pre).push(b as int));
            assert(bits_of(i as nat, n as nat).take(k + 1) =~= bits_of(i as nat, n as nat).take(
                k as int,
            ).push(bits_of(i as nat, n as nat)[k as int]));
        }
        k = k + 1;
    }
    proof {
        lemma_bits_len(i as nat, n as nat);
        assert(bits_of(i as nat, n as nat).take(n as int) =~= bits_of(i as nat, n as nat));
    }
    out
}

/// Supplies one public-coin challenge from the process's randomness source.
/// For replayable sessions both parties must instead share a
/// `ChallengeOracle`.
pub fn get_r() -> (r: Option<Fe>)
    ensures
        r is Some,
        r matches Some(f) ==> f.inv(),
{
    Some(crate::field::random_fe())
}

// ---------------------------------------------------------------------------
// The prover.
// ---------------------------------------------------------------------------

/// The point a partial evaluation reads: the bound challenges, the round's
/// symbolic variable at `x`, then the Boolean completion.
pub open spec fn full_point(rv: Seq<int>, x: int, pt: Seq<int>) -> Seq<int> {
    rv + seq![x] + pt.skip(1)
}

/// One sum-check prover session: the polynomial and the challenges bound so
/// far.
pub struct Prover {
    pub g: MultiPoly,
    pub r_vec: Vec<Fe>,
}

impl Prover {
    pub open spec fn wf(&self) -> bool {
        &&& self.g.wf()
        &&& reduced(vals(self.r_vec@))
    }

    pub fn new(g: &MultiPoly) -> (p: Prover)
        requires
            g.wf(),
        ensures
            p.wf(),
            mp_eq(p.g, *g),
            p.r_vec@.len() == 0,
    {
        let mut terms: Vec<Monomial> = Vec::new();
        let n = g.terms.len();
        let mut k: usize = 0;
        while k < n
            invariant
                k <= n,
                n == g.terms@.len(),
                g.wf(),
                terms@.len() == k,
                forall|t: int|
                    0 <= t < k ==> (#[trigger] terms@[t]).coeff@ == g.terms@[t].coeff@
                        && terms@[t].powers@ == g.terms@[t].powers@,
            decreases n - k,
        {
            let src = &g.terms[k];
            let m = src.powers.len();
            let mut powers: Vec<(usize, usize)> = Vec::new();
            let mut j: usize = 0;
            while j < m
                invariant
                    j <= m,
                    m == src.powers@.len(),
                    powers@ == src.powers@.take(j as int),
                decreases m - j,
            {
                let e = src.powers[j];
                powers.push(e);
                proof {
                    assert(powers@ =~= src.powers@.take(j + 1));
                }
                j = j + 1;
            }
            proof {
                assert(src.powers@.take(m as int) =~= src.powers@);
            }
            terms.push(Monomial { coeff: src.coeff.clone(), powers });
            k = k + 1;
        }
        let p = Prover { g: MultiPoly { num_vars: g.num_vars, terms }, r_vec: Vec::new() };
        proof {
            assert(vals(p.r_vec@) =~= Seq::<int>::empty());
        }
        p
    }

    /// Evaluates one monomial with the bound challenges substituted, the
    /// round's variable left symbolic, and the completion filled in:
    /// returns the constant factor and the symbolic variable's exponent.
    pub fn evaluate_term(&self, term: &Monomial, point: &Vec<Fe>) -> (res: (Fe, Option<usize>))
        requires
            self.wf(),
            self.r_vec@.len() < self.g.num_vars,
            point@.len() == self.g.num_vars - self.r_vec@.len(),
            forall|j: int|
                0 <= j < term.powers@.len() ==> (#[trigger] term.powers@[j]).0 < self.g.num_vars,
            forall|j1: int, j2: int|
                0 <= j1 < term.powers@.len() && 0 <= j2 < term.powers@.len() && j1 != j2 ==> (
                #[trigger] term.powers@[j1]).0 != (#[trigger] term.powers@[j2]).0,
        ensures
            res.0.inv(),
            (res.1 is Some) <==> has_var(term.powers@, self.r_vec@.len() as int),
            (match res.1 {
                Some(d) => d as nat,
                None => 0,
            }) == term_deg(term.powers@, self.r_vec@.len() as int),
            forall|x: int|
                #[trigger] term_value(
                    term.powers@,
                    full_point(vals(self.r_vec@), x, vals(point@)),
                ) == fmul(
                    res.0@,
                    fpow(x, term_deg(term.powers@, self.r_vec@.len() as int)),
                ),
    {
        let rlen = self.r_vec.len();
        let m = term.powers.len();
        let mut c = Fe::one();
        let mut dopt: Option<usize> = None;
        let mut k: usize = 0;
        proof {
            assert(term.powers@.take(0) =~= Seq::<(usize, usize)>::empty());
            assert forall|x: int|
                #[trigger] term_value(
                    term.powers@.take(0),
                    full_point(vals(self.r_vec@), x, vals(point@)),
                ) == fmul(c@, fpow(x, term_deg(term.powers@.take(0), rlen as int))) by {
                lemma_fmul_one(1);
            }
        }
        while k < m
            invariant
                k <= m,
                m == term.powers@.len(),
                self.wf(),
                rlen == self.r_vec@.len(),
                rlen < self.g.num_vars,
                point@.len() == self.g.num_vars - rlen,
                forall|j: int|
                    0 <= j < term.powers@.len() ==> (#[trigger] term.powers@[j]).0
                        < self.g.num_vars,
                forall|j1: int, j2: int|
                    0 <= j1 < term.powers@.len() && 0 <= j2 < term.powers@.len() && j1 != j2
                        ==> (#[trigger] term.powers@[j1]).0 != (#[trigger] term.powers@[j2]).0,
                c.inv(),
                (dopt is Some) <==> has_var(term.powers@.take(k as int), rlen as int),
                (match dopt {
                    Some(d) => d as nat,
                    None => 0,
                }) == term_deg(term.powers@.take(k as int), rlen as int),
                forall|x: int|
                    #[trigger] term_value(
                        term.powers@.take(k as int),
                        full_point(vals(self.r_vec@), x, vals(point@)),
                    ) == fmul(
                        c@,
                        fpow(x, term_deg(term.powers@.take(k as int), rlen as int)),
                    ),
            decreases m - k,
        {
            let e = term.powers[k];
            let var = e.0;
            let power = e.1;
            let ghost tkd = term_deg(term.powers@.take(k as int), rlen as int);
            let ghost cold = c@;
            proof {
                assert(term.powers@.take(k + 1) =~= term.powers@.take(k as int).push(e));
                assert(term.powers@.take(k + 1).drop_last() =~= term.powers@.take(k as int));
            }
            if var == rlen {
                proof {
                    assert(term.powers@.take(k + 1)[k as int].0 == rlen);
                    assert forall|j: int|
                        0 <= j < term.powers@.take(k as int).len() implies (
                    #[trigger] term.powers@.take(k as int)[j]).0 != rlen as int by {
                        assert(term.powers@[j] == term.powers@.take(k as int)[j]);
                        assert(term.powers@[k as int].0 == rlen);
                    }
                    lemma_term_deg_absent(term.powers@.take(k as int), rlen as int);
                    assert forall|x: int|
                        #[trigger] term_value(
                            term.powers@.take(k + 1),
                            full_point(vals(self.r_vec@), x, vals(point@)),
                        ) == fmul(c@, fpow(x, (power as nat))) by {
                        let fp = full_point(vals(self.r_vec@), x, vals(point@));
                        assert(fp[var as int] == x);
                        assert(term_value(term.powers@.take(k as int), fp) == fmul(
                            cold,
                            fpow(x, 0),
                        ));
                        lemma_fmul_one(cold);
                    }
                }
                dopt = Some(power);
            } else {
                let factor = if var < rlen {
                    self.r_vec[var].pow_u64(power as u64)
                } else {
                    point[var - rlen].pow_u64(power as u64)
                };
                proof {
                    let fp_spec = |x: int| full_point(vals(self.r_vec@), x, vals(point@));
                    assert forall|x: int|
                        #[trigger] term_value(
                            term.powers@.take(k + 1),
                            full_point(vals(self.r_vec@), x, vals(point@)),
                        ) == fmul(fmul(cold, factor@), fpow(x, tkd)) by {
                        let fp = full_point(vals(self.r_vec@), x, vals(point@));
                        if var < rlen {
                            assert(fp[var as int] == vals(self.r_vec@)[var as int]);
                        } else {
                            assert(fp[var as int] == vals(point@).skip(1)[var - rlen - 1]);
                            assert(vals(point@).skip(1)[var - rlen - 1] == vals(point@)[var
                                - rlen]);
                        }
                        assert(term_value(term.powers@.take(k + 1), fp) == fmul(
                            term_value(term.powers@.take(k as int), fp),
                            fpow(fp[var as int], power as nat),
                        ));
                        lemma_fmul_swap(cold, fpow(x, tkd), factor@);
                        assert(term_deg(term.powers@.take(k + 1), rlen as int) == tkd);
                    }
                }
                proof {
                    assert((dopt is Some) <==> has_var(term.powers@.take(k + 1), rlen as int))
                        by {
                        if has_var(term.powers@.take(k + 1), rlen as int) {
                            let w = choose|w: int|
                                0 <= w < term.powers@.take(k + 1).len() && (
                                #[trigger] term.powers@.take(k + 1)[w]).0 == rlen as int;
                            assert(w != k);
                            assert(term.powers@.take(k as int)[w].0 == rlen as int);
                        }
                        if has_var(term.powers@.take(k as int), rlen as int) {
                            let w = choose|w: int|
                                0 <= w < term.powers@.take(k as int).len() && (
                                #[trigger] term.powers@.take(k as int)[w]).0 == rlen as int;
                            assert(term.powers@.take(k + 1)[w].0 == rlen as int);
                        }
                    }
                }
                c = c.times(&factor);
            }
            k = k + 1;
        }
        proof {
            assert(term.powers@.take(m as int) =~= term.powers@);
        }
        (c, dopt)
    }
}


impl Prover {
    /// The univariate contribution of one Boolean completion: every
    /// monomial, evaluated with the round's variable symbolic, lands on the
    /// coefficient of its symbolic exponent.
    pub fn evaluate_gj(&self, points: &Vec<Fe>) -> (u: UniPoly)
        requires
            self.wf(),
            self.r_vec@.len() < self.g.num_vars,
            point_len_ok(self, points@.len() as int),
        ensures
            reduced(vals(u.coeffs@)),
            (u.coeffs@.len() as nat) <= poly_max_deg(
                self.g.terms@,
                self.r_vec@.len() as int,
            ) + 1,
            forall|x: int|
                #[trigger] uni_value(vals(u.coeffs@), x) == poly_value(
                    self.g.terms@,
                    full_point(vals(self.r_vec@), x, vals(points@)),
                ),
    {
        let n = self.g.terms.len();
        let mut coeffs: Vec<Fe> = Vec::new();
        let mut k: usize = 0;
        proof {
            assert(self.g.terms@.take(0) =~= Seq::<Monomial>::empty());
            assert(vals(coeffs@) =~= Seq::<int>::empty());
        }
        while k < n
            invariant
                k <= n,
                n == self.g.terms@.len(),
                self.wf(),
                self.r_vec@.len() < self.g.num_vars,
                point_len_ok(self, points@.len() as int),
                reduced(vals(coeffs@)),
                (coeffs@.len() as nat) <= poly_max_deg(
                    self.g.terms@,
                    self.r_vec@.len() as int,
                ) + 1,
                forall|x: int|
                    #[trigger] uni_value(vals(coeffs@), x) == poly_value(
                        self.g.terms@.take(k as int),
                        full_point(vals(self.r_vec@), x, vals(points@)),
                    ),
            decreases n - k,
        {
            let rlen = self.r_vec.len();
            let term = &self.g.terms[k];
            let (cval, dopt) = self.evaluate_term(term, points);
            let d: usize = match dopt {
                Some(dd) => dd,
                None => 0,
            };
            let w = term.coeff.times(&cval);
            let ghost pre = coeffs@;
            proof {
                lemma_term_le_poly(self.g.terms@, k as int, rlen as int);
                lemma_term_deg_fits(term.powers@, rlen as int, self.g.num_vars as int);
            }
            add_at(&mut coeffs, d, &w);
            proof {
                assert(self.g.terms@.take(k + 1) =~= self.g.terms@.take(k as int).push(
                    self.g.terms@[k as int],
                ));
                assert(self.g.terms@.take(k + 1).drop_last() =~= self.g.terms@.take(k as int));
                assert forall|x: int|
                    #[trigger] uni_value(vals(coeffs@), x) == poly_value(
                        self.g.terms@.take(k + 1),
                        full_point(vals(self.r_vec@), x, vals(points@)),
                    ) by {
                    let fp = full_point(vals(self.r_vec@), x, vals(points@));
                    assert(term_value(term.powers@, fp) == fmul(
                        cval@,
                        fpow(x, term_deg(term.powers@, rlen as int)),
                    ));
                    crate::field::lemma_fmul_assoc(
                        term.coeff@,
                        cval@,
                        fpow(x, term_deg(term.powers@, rlen as int)),
                    );
                    assert(uni_value(vals(pre), x) == poly_value(
                        self.g.terms@.take(k as int),
                        fp,
                    ));
                }
            }
            k = k + 1;
        }
        proof {
            assert(self.g.terms@.take(n as int) =~= self.g.terms@);
        }
        UniPoly { coeffs }
    }

    /// Binds the fresh challenge, if one is given, and produces the round's
    /// univariate polynomial: the sum of `g` over all Boolean completions of
    /// the variables after the round's, as a function of the round's.
    pub fn gen_uni_polynomial(&mut self, r: Option<Fe>) -> (u: UniPoly)
        requires
            old(self).wf(),
            old(self).r_vec@.len() + (match r {
                Some(_) => 1int,
                None => 0int,
            }) < old(self).g.num_vars,
            r matches Some(f) ==> f.inv(),
        ensures
            final(self).wf(),
            final(self).g == old(self).g,
            final(self).r_vec@ == (match r {
                Some(f) => old(self).r_vec@.push(f),
                None => old(self).r_vec@,
            }),
            reduced(vals(u.coeffs@)),
            (u.coeffs@.len() as nat) <= poly_max_deg(
                final(self).g.terms@,
                final(self).r_vec@.len() as int,
            ) + 1,
            forall|x: int|
                #[trigger] uni_value(vals(u.coeffs@), x) == tail_sum(
                    final(self).g,
                    vals(final(self).r_vec@).push(x),
                ),
    {
        match r {
            Some(f) => {
                let ghost prev = self.r_vec@;
                self.r_vec.push(f);
                proof {
                    assert(vals(self.r_vec@) =~= vals(prev).push(f@));
                }
            },
            None => {},
        }
        let rlen = self.r_vec.len();
        let v = self.g.num_vars - rlen;
        proof {
            lemma_pow2_le((v - 1) as nat, self.g.num_vars as nat);
            lemma_pow2_pos((v - 1) as nat);
        }
        let half = pow2_exec(v - 1);
        let mut coeffs: Vec<Fe> = Vec::new();
        let mut i: usize = 0;
        proof {
            assert(vals(coeffs@) =~= Seq::<int>::empty());
            assert forall|x: int|
                #[trigger] uni_value(vals(coeffs@), x) == bsum(
                    self.g,
                    vals(self.r_vec@) + seq![x],
                    (v - 1) as nat,
                    0,
                ) by {}
        }
        while i < half
            invariant
                i <= half,
                self.wf(),
                rlen == self.r_vec@.len(),
                rlen < self.g.num_vars,
                v == self.g.num_vars - rlen,
                v >= 1,
                half as nat == pow2((v - 1) as nat),
                pow2(self.g.num_vars as nat) <= usize::MAX as nat,
                reduced(vals(coeffs@)),
                (coeffs@.len() as nat) <= poly_max_deg(self.g.terms@, rlen as int) + 1,
                forall|x: int|
                    #[trigger] uni_value(vals(coeffs@), x) == bsum(
                        self.g,
                        vals(self.r_vec@) + seq![x],
                        (v - 1) as nat,
                        i as nat,
                    ),
            decreases half - i,
        {
            proof {
                lemma_pow2_le(v as nat, self.g.num_vars as nat);
                lemma_pow2_unfold(v as nat);
                lemma_pow2_pos((v - 1) as nat);
            }
            let points = n_to_vec(i, v);
            let uj = self.evaluate_gj(&points);
            let ghost pre = coeffs@;
            uni_accumulate(&mut coeffs, &uj.coeffs);
            proof {
                lemma_pow2_unfold(v as nat);
                lemma_bits_low(i as nat, v as nat);
                assert forall|x: int|
                    #[trigger] uni_value(vals(coeffs@), x) == bsum(
                        self.g,
                        vals(self.r_vec@) + seq![x],
                        (v - 1) as nat,
                        (i + 1) as nat,
                    ) by {
                    let fp = full_point(vals(self.r_vec@), x, vals(points@));
                    assert(vals(points@).skip(1) =~= bits_of(i as nat, (v - 1) as nat));
                    assert(fp =~= (vals(self.r_vec@) + seq![x]) + bits_of(
                        i as nat,
                        (v - 1) as nat,
                    ));
                    assert(uni_value(vals(pre), x) == bsum(
                        self.g,
                        vals(self.r_vec@) + seq![x],
                        (v - 1) as nat,
                        i as nat,
                    ));
                    assert(uni_value(vals(uj.coeffs@), x) == poly_value(self.g.terms@, fp));
                }
            }
            i = i + 1;
        }
        proof {
            assert forall|x: int|
                #[trigger] uni_value(vals(coeffs@), x) == tail_sum(
                    self.g,
                    vals(self.r_vec@).push(x),
                ) by {
                lemma_bsum_tail(self.g, vals(self.r_vec@) + seq![x], (v - 1) as nat);
                assert(vals(self.r_vec@) + seq![x] =~= vals(self.r_vec@).push(x));
            }
        }
        UniPoly { coeffs }
    }

    /// The whole sum of `g` over the hypercube, by direct enumeration.
    pub fn slow_sum_g(&self) -> (r: Fe)
        requires
            self.wf(),
        ensures
            r@ == tail_sum(self.g, Seq::<int>::empty()),
            r.inv(),
    {
        let nv = self.g.num_vars;
        let size = pow2_exec(nv);
        let mut acc = Fe::zero();
        let mut i: usize = 0;
        proof {
            assert(bsum(self.g, Seq::<int>::empty(), nv as nat, 0) == 0);
        }
        while i < size
            invariant
                i <= size,
                self.wf(),
                nv == self.g.num_vars,
                size as nat == pow2(nv as nat),
                acc.inv(),
                acc@ == bsum(self.g, Seq::<int>::empty(), nv as nat, i as nat),
            decreases size - i,
        {
            let pt = n_to_vec(i, nv);
            let value = self.g.evaluate(&pt);
            acc = acc.plus(&value);
            proof {
                assert(Seq::<int>::empty() + bits_of(i as nat, nv as nat) =~= vals(pt@));
            }
            i = i + 1;
        }
        proof {
            lemma_bsum_tail(self.g, Seq::<int>::empty(), nv as nat);
        }
        acc
    }
}

/// The completion vector has one entry per unbound variable, the first of
/// which stands for the round's own variable and is never read.
pub open spec fn point_len_ok(p: &Prover, n: int) -> bool {
    n == p.g.num_vars - p.r_vec@.len()
}

/// The symbolic exponent fits in the machine: every exponent does.
proof fn lemma_term_deg_fits(pw: Seq<(usize, usize)>, v: int, nv: int)
    requires
        forall|j: int| 0 <= j < pw.len() ==> ((#[trigger] pw[j]).1 as int) < usize::MAX,
    ensures
        term_deg(pw, v) < usize::MAX,
    decreases pw.len(),
{
    if pw.len() > 0 {
        assert(pw[pw.len() - 1].1 < usize::MAX);
        assert forall|j: int| 0 <= j < pw.drop_last().len() implies ((
        #[trigger] pw.drop_last()[j]).1 as int) < usize::MAX by {
            assert(pw[j].1 < usize::MAX);
        }
        lemma_term_deg_fits(pw.drop_last(), v, nv);
    }
}

impl MultiPoly {
    /// Evaluates the polynomial at a point, term by term.
    pub fn evaluate(&self, point: &Vec<Fe>) -> (r: Fe)
        requires
            self.wf(),
            point@.len() == self.num_vars,
        ensures
            r@ == poly_value(self.terms@, vals(point@)),
            r.inv(),
    {
        let n = self.terms.len();
        let mut acc = Fe::zero();
        let mut k: usize = 0;
        proof {
            assert(self.terms@.take(0) =~= Seq::<Monomial>::empty());
        }
        while k < n
            invariant
                k <= n,
                n == self.terms@.len(),
                self.wf(),
                point@.len() == self.num_vars,
                acc.inv(),
                acc@ == poly_value(self.terms@.take(k as int), vals(point@)),
            decreases n - k,
        {
            let term = &self.terms[k];
            let m = term.powers.len();
            let mut tv = Fe::one();
            let mut j: usize = 0;
            proof {
                assert(term.powers@.take(0) =~= Seq::<(usize, usize)>::empty());
            }
            while j < m
                invariant
                    j <= m,
                    m == term.powers@.len(),
                    self.wf(),
                    point@.len() == self.num_vars,
                    0 <= k < self.terms@.len(),
                    term == &self.terms@[k as int],
                    tv.inv(),
                    tv@ == term_value(term.powers@.take(j as int), vals(point@)),
                decreases m - j,
            {
                let e = term.powers[j];
                proof {
                    assert(term.powers@.take(j + 1) =~= term.powers@.take(j as int).push(e));
                    assert(term.powers@.take(j + 1).drop_last() =~= term.powers@.take(j as int));
                }
                tv = tv.times(&point[e.0].pow_u64(e.1 as u64));
                j = j + 1;
            }
            proof {
                assert(term.powers@.take(m as int) =~= term.powers@);
                assert(self.terms@.take(k + 1) =~= self.terms@.take(k as int).push(
                    self.terms@[k as int],
                ));
                assert(self.terms@.take(k + 1).drop_last() =~= self.terms@.take(k as int));
            }
            acc = acc.plus(&term.coeff.times(&tv));
            k = k + 1;
        }
        proof {
            assert(self.terms@.take(n as int) =~= self.terms@);
        }
        acc
    }
}

/// The degree table: the largest exponent of each variable over all
/// monomials.
pub fn max_degrees(g: &MultiPoly) -> (lookup: Vec<usize>)
    requires
        g.wf(),
    ensures
        lookup@.len() == g.num_vars,
        forall|v: int| 0 <= v < g.num_vars ==> (#[trigger] lookup@[v] as nat) == poly_max_deg(
            g.terms@,
            v,
        ),
{
    let nv = g.num_vars;
    let mut lookup: Vec<usize> = Vec::new();
    let mut i: usize = 0;
    while i < nv
        invariant
            i <= nv,
            lookup@.len() == i,
            forall|v: int| 0 <= v < i ==> (#[trigger] lookup@[v]) == 0,
        decreases nv - i,
    {
        lookup.push(0);
        i = i + 1;
    }
    let n = g.terms.len();
    let mut k: usize = 0;
    proof {
        assert(g.terms@.take(0) =~= Seq::<Monomial>::empty());
    }
    while k < n
        invariant
            k <= n,
            n == g.terms@.len(),
            g.wf(),
            nv == g.num_vars,
            lookup@.len() == nv,
            forall|v: int|
                0 <= v < nv ==> (#[trigger] lookup@[v] as nat) == poly_max_deg(
                    g.terms@.take(k as int),
                    v,
                ),
        decreases n - k,
    {
        let term = &g.terms[k];
        let m = term.powers.len();
        let mut j: usize = 0;
        proof {
            assert(term.powers@.take(0) =~= Seq::<(usize, usize)>::empty());
        }
        while j < m
            invariant
                j <= m,
                m == term.powers@.len(),
                g.wf(),
                nv == g.num_vars,
                0 <= k < g.terms@.len(),
                term == &g.terms@[k as int],
                lookup@.len() == nv,
                forall|v: int|
                    0 <= v < nv ==> (#[trigger] lookup@[v] as nat) == (if term_deg(
                        term.powers@.take(j as int),
                        v,
                    ) > poly_max_deg(g.terms@.take(k as int), v) {
                        term_deg(term.powers@.take(j as int), v)
                    } else {
                        poly_max_deg(g.terms@.take(k as int), v)
                    }),
            decreases m - j,
        {
            let e = term.powers[j];
            proof {
                assert(term.powers@.take(j + 1) =~= term.powers@.take(j as int).push(e));
                assert(term.powers@.take(j + 1).drop_last() =~= term.powers@.take(j as int));
            }
            if e.1 > lookup[e.0] {
                lookup[e.0] = e.1;
            }
            j = j + 1;
        }
        proof {
            assert(term.powers@.take(m as int) =~= term.powers@);
            assert(g.terms@.take(k + 1) =~= g.terms@.take(k as int).push(g.terms@[k as int]));
            assert(g.terms@.take(k + 1).drop_last() =~= g.terms@.take(k as int));
        }
        k = k + 1;
    }
    proof {
        assert(g.terms@.take(n as int) =~= g.terms@);
    }
    lookup
}


// ---------------------------------------------------------------------------
// The integrated verifier of the generic engine.
// ---------------------------------------------------------------------------

/// Runs the full protocol against an honest internal prover: accepts exactly
/// when the claimed sum `c_1` is the true sum of `g` over the hypercube.
/// Each round checks `g_i(0)+g_i(1)` against the expected value and the
/// degree bound; the final round checks `g` itself at the challenge vector.
pub fn verify(g: &MultiPoly, c_1: &Fe, oracle: &mut ChallengeOracle) -> (r: bool)
    requires
        g.wf(),
        g.num_vars >= 1,
        c_1.inv(),
        old(oracle).wf(),
        old(oracle).remaining() >= g.num_vars,
    ensures
        final(oracle).wf(),
        final(oracle).challenges == old(oracle).challenges,
        r == (c_1@ == tail_sum(*g, Seq::<int>::empty())),
{
    let ghost n0 = oracle.next as int;
    let mut p = Prover::new(g);
    let mut gi = p.gen_uni_polynomial(None);
    let lookup = max_degrees(g);
    let zero = Fe::zero();
    let one = Fe::one();
    let at0 = evaluate_univariate(&gi.coeffs, &zero);
    let at1 = evaluate_univariate(&gi.coeffs, &one);
    proof {
        assert(vals(p.r_vec@) =~= Seq::<int>::empty());
        assert(vals(p.r_vec@).push(0) =~= Seq::<int>::empty().push(0));
        assert(vals(p.r_vec@).push(1) =~= Seq::<int>::empty().push(1));
        lemma_mp_eq_tail_sum(p.g, *g, Seq::<int>::empty());
        assert(tail_sum(p.g, Seq::<int>::empty()) == fadd(
            tail_sum(p.g, Seq::<int>::empty().push(0)),
            tail_sum(p.g, Seq::<int>::empty().push(1)),
        ));
    }
    if !at0.plus(&at1).equals(c_1) {
        return false;
    }
    proof {
        lemma_mp_eq_max_deg(p.g.terms@, g.terms@, 0);
    }
    if gi.coeffs.len() > 0 && gi.coeffs.len() - 1 > lookup[0] {
        return false;
    }
    let nv = g.num_vars;
    let mut j: usize = 1;
    while j < nv
        invariant
            1 <= j <= nv,
            nv == g.num_vars,
            g.wf(),
            p.wf(),
            mp_eq(p.g, *g),
            p.r_vec@.len() == j - 1,
            reduced(vals(gi.coeffs@)),
            forall|x: int|
                #[trigger] uni_value(vals(gi.coeffs@), x) == tail_sum(
                    p.g,
                    vals(p.r_vec@).push(x),
                ),
            c_1@ == tail_sum(*g, Seq::<int>::empty()),
            zero@ == 0,
            one@ == 1,
            oracle.wf(),
            oracle.challenges == old(oracle).challenges,
            oracle.next == n0 + j - 1,
            n0 == old(oracle).next,
            n0 + nv <= oracle.challenges@.len(),
            lookup@.len() == nv,
            forall|v: int|
                0 <= v < nv ==> (#[trigger] lookup@[v] as nat) == poly_max_deg(g.terms@, v),
        decreases nv - j,
    {
        let rch = oracle.next_challenge();
        let expected_c = evaluate_univariate(&gi.coeffs, &rch);
        let ghost rv_prev = p.r_vec@;
        gi = p.gen_uni_polynomial(Some(rch));
        let a0 = evaluate_univariate(&gi.coeffs, &zero);
        let a1 = evaluate_univariate(&gi.coeffs, &one);
        proof {
            assert(vals(p.r_vec@) =~= vals(rv_prev).push(rch@));
            assert(tail_sum(p.g, vals(p.r_vec@)) == fadd(
                tail_sum(p.g, vals(p.r_vec@).push(0)),
                tail_sum(p.g, vals(p.r_vec@).push(1)),
            ));
        }
        if !a0.plus(&a1).equals(&expected_c) {
            return false;
        }
        proof {
            lemma_mp_eq_max_deg(p.g.terms@, g.terms@, j as int);
        }
        if gi.coeffs.len() > 0 && gi.coeffs.len() - 1 > lookup[j] {
            return false;
        }
        j = j + 1;
    }
    let rch = oracle.next_challenge();
    let expected_c = evaluate_univariate(&gi.coeffs, &rch);
    let ghost rv_prev = p.r_vec@;
    p.r_vec.push(rch);
    proof {
        assert(vals(p.r_vec@) =~= vals(rv_prev).push(rch@));
        assert(tail_sum(p.g, vals(p.r_vec@)) == poly_value(p.g.terms@, vals(p.r_vec@)));
    }
    let new_c = p.g.evaluate(&p.r_vec);
    if !expected_c.equals(&new_c) {
        return false;
    }
    true
}

/// Round consistency law: a round polynomial whose values agree with the
/// completion sums of `g` under a bound prefix — what `gen_uni_polynomial`
/// returns — adds up, at zero and one, to the prior round's expected value:
/// the sum under the prefix itself, which is the claimed sum when the
/// prefix is empty and the prior round's polynomial read at its challenge
/// otherwise.
pub proof fn lemma_round_consistency_generic(g: MultiPoly, bound: Seq<int>, u: Seq<int>)
    requires
        bound.len() < g.num_vars,
        forall|x: int| #[trigger] uni_value(u, x) == tail_sum(g, bound.push(x)),
    ensures
        fadd(uni_value(u, 0), uni_value(u, 1)) == tail_sum(g, bound),
{
    assert(uni_value(u, 0) == tail_sum(g, bound.push(0)));
    assert(uni_value(u, 1) == tail_sum(g, bound.push(1)));
}

/// Accepts exactly when the claimed sum is the true sum, by summing `g`
/// directly over the whole hypercube.
pub fn slow_verify(g: &MultiPoly, c_1: &Fe) -> (r: bool)
    requires
        g.wf(),
        c_1.inv(),
    ensures
        r == (c_1@ == tail_sum(*g, Seq::<int>::empty())),
{
    let p = Prover::new(g);
    let manual_sum = p.slow_sum_g();
    proof {
        lemma_mp_eq_tail_sum(p.g, *g, Seq::<int>::empty());
    }
    manual_sum.equals(c_1)
}


} // verus!
