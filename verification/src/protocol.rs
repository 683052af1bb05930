//! The round-based sum-check protocol for a claim `Σ_x a(x)·b(x)` over the
//! Boolean hypercube, where `a` and `b` are multilinear functions given by
//! their tables. Each round the prover sends the three coefficients of a
//! quadratic, the verifier checks it against the running expected value,
//! both sides fold their state by the drawn challenge, and the verifier ends
//! with a subclaim for the caller to check against the original functions.

use vstd::prelude::*;
use vstd::arithmetic::power2::{lemma_pow2_pos, lemma_pow2_unfold, pow2};

use crate::field::{
    fadd, fmul, fr_order, fsub, lemma_mod_add_l, lemma_mod_add_r, lemma_mod_mul_l, lemma_mod_mul_r,
    lemma_mod_small, lemma_vals_push, reduced, vals, Fe,
};
use crate::ml_extension::DenseMLE;

verus! {

// ---------------------------------------------------------------------------
// Specification: sums, folds, messages and the verifier's chain.
// ---------------------------------------------------------------------------

/// `Σ_{j<n} a[j]·b[j]`, reduced at every step.
pub open spec fn sum_prod(a: Seq<int>, b: Seq<int>, n: nat) -> int
    decreases n,
{
    if n == 0 {
        0
    } else {
        fadd(sum_prod(a, b, (n - 1) as nat), fmul(a[n - 1], b[n - 1]))
    }
}

/// One entry of a table folded by the challenge `r`: the multilinear
/// interpolation between the low-half and high-half entries.
pub open spec fn foldpt(a0: int, a1: int, r: int) -> int {
    fadd(a0, fmul(r, fsub(a1, a0)))
}

/// The table after fixing its leading variable to `r`.
pub open spec fn foldt(t: Seq<int>, r: int) -> Seq<int> {
    Seq::new((t.len() / 2) as nat, |j: int| foldpt(t[j], t[j + t.len() / 2], r))
}

/// The table after fixing its leading variables to the challenges in order.
pub open spec fn fold_all(t: Seq<int>, ch: Seq<int>) -> Seq<int>
    decreases ch.len(),
{
    if ch.len() == 0 {
        t
    } else {
        foldt(fold_all(t, ch.drop_last()), ch.last())
    }
}

/// Folding by a concatenation is folding by the prefix, then the suffix.
pub proof fn lemma_fold_all_append(t: Seq<int>, p: Seq<int>, s: Seq<int>)
    ensures
        fold_all(t, p + s) == fold_all(fold_all(t, p), s),
    decreases s.len(),
{
    if s.len() == 0 {
        assert(p + s =~= p);
        assert(fold_all(fold_all(t, p), s) == fold_all(t, p));
    } else {
        assert((p + s).drop_last() =~= p + s.drop_last());
        lemma_fold_all_append(t, p, s.drop_last());
    }
}

/// The value of a univariate polynomial given by its coefficients, lowest
/// degree first, at `x`.
pub open spec fn uni_value(c: Seq<int>, x: int) -> int
    decreases c.len(),
{
    if c.len() == 0 {
        0
    } else {
        fadd(c.first(), fmul(x, uni_value(c.drop_first(), x)))
    }
}

/// `Σ_{j<n} a[j]·(b[j+h]-b[j]) + (a[j+h]-a[j])·b[j]`: the linear coefficient
/// of the round message.
pub open spec fn msg1_sum(a: Seq<int>, b: Seq<int>, h: int, n: nat) -> int
    decreases n,
{
    if n == 0 {
        0
    } else {
        fadd(
            msg1_sum(a, b, h, (n - 1) as nat),
            fadd(
                fmul(a[n - 1], fsub(b[n - 1 + h], b[n - 1])),
                fmul(fsub(a[n - 1 + h], a[n - 1]), b[n - 1]),
            ),
        )
    }
}

/// `Σ_{j<n} (a[j+h]-a[j])·(b[j+h]-b[j])`: the quadratic coefficient of the
/// round message.
pub open spec fn msg2_sum(a: Seq<int>, b: Seq<int>, h: int, n: nat) -> int
    decreases n,
{
    if n == 0 {
        0
    } else {
        fadd(
            msg2_sum(a, b, h, (n - 1) as nat),
            fmul(fsub(a[n - 1 + h], a[n - 1]), fsub(b[n - 1 + h], b[n - 1])),
        )
    }
}

/// The honest round message for the current tables: the coefficients of
/// `g_i(X) = Σ_s a(X,s)·b(X,s)`, a quadratic.
pub open spec fn round_msg(a: Seq<int>, b: Seq<int>) -> Seq<int> {
    seq![
        sum_prod(a, b, (a.len() / 2) as nat),
        msg1_sum(a, b, a.len() as int / 2, (a.len() / 2) as nat),
        msg2_sum(a, b, a.len() as int / 2, (a.len() / 2) as nat),
    ]
}

/// The errors of the protocol.
#[derive(PartialEq, Eq, Structural, Clone, Copy, Debug)]
pub enum ProtocolError {
    /// A length differs from what the protocol size demands.
    DimensionMismatch,
    /// A round message has more coefficients than the degree bound allows.
    DegreeTooHigh,
    /// A round's consistency check against the expected value failed.
    RoundCheckFailed,
}

/// The verifier's verdict on rounds `k..` of a message list, starting from
/// the expected value `claimed`: `None` means every remaining check passes.
pub open spec fn verdict_from(
    claimed: int,
    msgs: Seq<Seq<int>>,
    ch: Seq<int>,
    k: nat,
) -> Option<ProtocolError>
    decreases msgs.len() - k,
{
    if k >= msgs.len() {
        None
    } else if msgs[k as int].len() > 3 {
        Some(ProtocolError::DegreeTooHigh)
    } else if fadd(uni_value(msgs[k as int], 0), uni_value(msgs[k as int], 1)) != claimed {
        Some(ProtocolError::RoundCheckFailed)
    } else {
        verdict_from(uni_value(msgs[k as int], ch[k as int]), msgs, ch, (k + 1) as nat)
    }
}

/// The expected value the verifier holds after replaying rounds `k..`.
pub open spec fn final_from(claimed: int, msgs: Seq<Seq<int>>, ch: Seq<int>, k: nat) -> int
    decreases msgs.len() - k,
{
    if k >= msgs.len() {
        claimed
    } else {
        final_from(uni_value(msgs[k as int], ch[k as int]), msgs, ch, (k + 1) as nat)
    }
}

// ---------------------------------------------------------------------------
// Modular-arithmetic helpers.
// ---------------------------------------------------------------------------

proof fn lemma_mod_sum2(u: int, v: int)
    ensures
        ((u % fr_order()) + (v % fr_order())) % fr_order() == (u + v) % fr_order(),
{
    lemma_mod_add_l(u, v % fr_order());
    lemma_mod_add_r(u, v);
}

proof fn lemma_mod_sum3(u: int, v: int, w: int)
    ensures
        ((u % fr_order()) + (v % fr_order()) + (w % fr_order())) % fr_order() == (u + v + w)
            % fr_order(),
{
    lemma_mod_add_l(u, (v % fr_order()) + (w % fr_order()));
    lemma_mod_add_l(v, u + (w % fr_order()));
    lemma_mod_add_r(u + v, w);
}

/// Inner reductions of the three coefficients of a quadratic vanish under
/// the outer reduction.
proof fn lemma_mod_quad(x: int, y: int, z: int, r: int)
    ensures
        ((x % fr_order()) + ((y % fr_order()) * r) + ((z % fr_order()) * (r * r))) % fr_order() == (
        x + y * r + z * (r * r)) % fr_order(),
{
    lemma_mod_sum3(x % fr_order(), (y % fr_order()) * r, (z % fr_order()) * (r * r));
    vstd::arithmetic::div_mod::lemma_mod_twice(x, fr_order());
    lemma_mod_mul_l(y, r);
    lemma_mod_mul_l(z, r * r);
    lemma_mod_sum3(x, y * r, z * (r * r));
}

/// The quadratic built from one pair of table points, read at `r`, equals
/// the product of the two points folded by `r`.
proof fn lemma_quad_point(a0: int, a1: int, b0: int, b1: int, r: int)
    ensures
        (fmul(a0, b0) + fadd(fmul(a0, fsub(b1, b0)), fmul(fsub(a1, a0), b0)) * r + fmul(
            fsub(a1, a0),
            fsub(b1, b0),
        ) * (r * r)) % fr_order() == fmul(foldpt(a0, a1, r), foldpt(b0, b1, r)),
{
    let da = a1 - a0;
    let db = b1 - b0;
    // The three transmitted coefficients, with their inner reductions pushed out.
    lemma_mod_mul_r(a0, db);
    lemma_mod_mul_l(da, b0);
    lemma_mod_sum2(a0 * db, da * b0);
    assert(fadd(fmul(a0, fsub(b1, b0)), fmul(fsub(a1, a0), b0)) == (a0 * db + da * b0)
        % fr_order());
    lemma_mod_mul_l(da, db % fr_order());
    lemma_mod_mul_r(da, db);
    assert(fmul(fsub(a1, a0), fsub(b1, b0)) == (da * db) % fr_order());
    lemma_mod_quad(a0 * b0, a0 * db + da * b0, da * db, r);
    // The folded points, with their inner reductions pushed out.
    lemma_mod_mul_r(r, da);
    lemma_mod_add_r(a0, r * da);
    assert(foldpt(a0, a1, r) == (a0 + r * da) % fr_order());
    lemma_mod_mul_r(r, db);
    lemma_mod_add_r(b0, r * db);
    assert(foldpt(b0, b1, r) == (b0 + r * db) % fr_order());
    lemma_mod_mul_l(a0 + r * da, (b0 + r * db) % fr_order());
    lemma_mod_mul_r(a0 + r * da, b0 + r * db);
    assert(fmul(foldpt(a0, a1, r), foldpt(b0, b1, r)) == ((a0 + r * da) * (b0 + r * db))
        % fr_order());
    // The ring identity between the two unreduced forms, in small steps.
    assert((a0 + r * da) * (b0 + r * db) == a0 * b0 + a0 * (db * r) + (da * r) * b0 + (da * r) * (db
        * r)) by (nonlinear_arith);
    assert((a0 * db + da * b0) * r == a0 * (db * r) + (da * r) * b0) by (nonlinear_arith);
    assert((da * db) * (r * r) == (da * r) * (db * r)) by (nonlinear_arith);
}

/// The partial sums of the three coefficients, read as a quadratic at `r`,
/// equal the partial sum of products of the folded tables.
proof fn lemma_msg_eval_partial(a: Seq<int>, b: Seq<int>, r: int, n: nat)
    requires
        a.len() == b.len(),
        a.len() % 2 == 0,
        n <= a.len() / 2,
    ensures
        (sum_prod(a, b, n) + msg1_sum(a, b, a.len() as int / 2, n) * r + msg2_sum(
            a,
            b,
            a.len() as int / 2,
            n,
        ) * (r * r)) % fr_order() == sum_prod(foldt(a, r), foldt(b, r), n),
    decreases n,
{
    let h = a.len() as int / 2;
    if n == 0 {
        lemma_mod_small(0);
    } else {
        lemma_msg_eval_partial(a, b, r, (n - 1) as nat);
        let s0 = sum_prod(a, b, (n - 1) as nat);
        let s1 = msg1_sum(a, b, h, (n - 1) as nat);
        let s2 = msg2_sum(a, b, h, (n - 1) as nat);
        let t0 = fmul(a[n - 1], b[n - 1]);
        let t1 = fadd(fmul(a[n - 1], fsub(b[n - 1 + h], b[n - 1])), fmul(
            fsub(a[n - 1 + h], a[n - 1]),
            b[n - 1],
        ));
        let t2 = fmul(fsub(a[n - 1 + h], a[n - 1]), fsub(b[n - 1 + h], b[n - 1]));
        lemma_quad_point(a[n - 1], a[n - 1 + h], b[n - 1], b[n - 1 + h], r);
        lemma_mod_quad(s0 + t0, s1 + t1, s2 + t2, r);
        assert(s0 + t0 + (s1 + t1) * r + (s2 + t2) * (r * r) == (s0 + s1 * r + s2 * (r * r)) + (t0
            + t1 * r + t2 * (r * r))) by (nonlinear_arith);
        lemma_mod_sum2(s0 + s1 * r + s2 * (r * r), t0 + t1 * r + t2 * (r * r));
        assert(foldt(a, r)[n - 1] == foldpt(a[n - 1], a[n - 1 + h], r));
        assert(foldt(b, r)[n - 1] == foldpt(b[n - 1], b[n - 1 + h], r));
    }
}


/// Folding the zero pair gives zero.
pub proof fn lemma_foldpt_zero(r: int)
    ensures
        foldpt(0, 0, r) == 0,
{
    lemma_mod_small(0);
    crate::field::lemma_fmul_zero(r);
    assert(fsub(0, 0) == 0);
    assert(fmul(r, 0) == 0);
    assert(fadd(0, 0) == 0);
}

/// Folding is additive in the table entries.
pub proof fn lemma_foldpt_add(a0: int, a1: int, b0: int, b1: int, r: int)
    ensures
        foldpt(fadd(a0, b0), fadd(a1, b1), r) == fadd(foldpt(a0, a1, r), foldpt(b0, b1, r)),
{
    let p = fr_order();
    crate::field::lemma_mod_sub_l(a1 + b1, (a0 + b0) % p);
    crate::field::lemma_mod_sub_r(a1 + b1, a0 + b0);
    lemma_mod_mul_r(r, a1 + b1 - (a0 + b0));
    lemma_mod_add_l(a0 + b0, (r * (a1 + b1 - (a0 + b0))) % p);
    lemma_mod_add_r(a0 + b0, r * (a1 + b1 - (a0 + b0)));
    assert(foldpt(fadd(a0, b0), fadd(a1, b1), r) == (a0 + b0 + r * (a1 + b1 - (a0 + b0))) % p);
    lemma_mod_mul_r(r, a1 - a0);
    lemma_mod_add_r(a0, r * (a1 - a0));
    assert(foldpt(a0, a1, r) == (a0 + r * (a1 - a0)) % p);
    lemma_mod_mul_r(r, b1 - b0);
    lemma_mod_add_r(b0, r * (b1 - b0));
    assert(foldpt(b0, b1, r) == (b0 + r * (b1 - b0)) % p);
    lemma_mod_sum2(a0 + r * (a1 - a0), b0 + r * (b1 - b0));
    assert(a0 + b0 + r * (a1 + b1 - (a0 + b0)) == (a0 + r * (a1 - a0)) + (b0 + r * (b1 - b0)))
        by (nonlinear_arith);
}

/// Folding commutes with scaling the table entries.
pub proof fn lemma_foldpt_scale(a0: int, a1: int, c: int, r: int)
    ensures
        fmul(foldpt(a0, a1, r), c) == foldpt(fmul(a0, c), fmul(a1, c), r),
{
    let p = fr_order();
    lemma_mod_mul_r(r, a1 - a0);
    lemma_mod_add_r(a0, r * (a1 - a0));
    assert(foldpt(a0, a1, r) == (a0 + r * (a1 - a0)) % p);
    lemma_mod_mul_l(a0 + r * (a1 - a0), c);
    assert(fmul(foldpt(a0, a1, r), c) == ((a0 + r * (a1 - a0)) * c) % p);
    crate::field::lemma_mod_sub_l(a1 * c, (a0 * c) % p);
    crate::field::lemma_mod_sub_r(a1 * c, a0 * c);
    lemma_mod_mul_r(r, a1 * c - a0 * c);
    lemma_mod_add_l(a0 * c, (r * (a1 * c - a0 * c)) % p);
    lemma_mod_add_r(a0 * c, r * (a1 * c - a0 * c));
    assert(foldpt(fmul(a0, c), fmul(a1, c), r) == (a0 * c + r * (a1 * c - a0 * c)) % p);
    assert((a0 + r * (a1 - a0)) * c == a0 * c + r * (a1 * c - a0 * c)) by (nonlinear_arith);
}

/// The three coefficients of a round message are reduced.
proof fn lemma_msg_coeffs_reduced(a: Seq<int>, b: Seq<int>, h: int, n: nat)
    ensures
        0 <= sum_prod(a, b, n) < fr_order(),
        0 <= msg1_sum(a, b, h, n) < fr_order(),
        0 <= msg2_sum(a, b, h, n) < fr_order(),
{
    if n == 0 {
    }
}

/// The value of a three-coefficient message, written as a plain quadratic.
proof fn lemma_uni3(c0: int, c1: int, c2: int, x: int)
    requires
        0 <= c0 < fr_order(),
        0 <= c1 < fr_order(),
        0 <= c2 < fr_order(),
    ensures
        uni_value(seq![c0, c1, c2], x) == (c0 + c1 * x + c2 * (x * x)) % fr_order(),
{
    let s = seq![c0, c1, c2];
    assert(s.drop_first() =~= seq![c1, c2]);
    assert(seq![c1, c2].drop_first() =~= seq![c2]);
    assert(seq![c2].drop_first() =~= Seq::<int>::empty());
    assert(s.first() == c0);
    assert(seq![c1, c2].first() == c1);
    assert(seq![c2].first() == c2);
    lemma_mod_small(0);
    lemma_mod_small(c2);
    assert(uni_value(Seq::<int>::empty(), x) == 0);
    assert(fmul(x, 0) == 0);
    assert(uni_value(seq![c2], x) == c2);
    assert(uni_value(seq![c1, c2], x) == fadd(c1, fmul(x, c2)));
    assert(uni_value(s, x) == fadd(c0, fmul(x, fadd(c1, fmul(x, c2)))));
    lemma_mod_add_r(c1, x * c2);
    lemma_mod_mul_r(x, c1 + x * c2);
    lemma_mod_add_r(c0, x * (c1 + x * c2));
    assert(c0 + x * (c1 + x * c2) == c0 + c1 * x + c2 * (x * x)) by (nonlinear_arith);
}

/// Reading the honest round message at `r` gives the claim of the tables
/// folded by `r`: the next round's sum.
pub proof fn lemma_round_msg_eval(a: Seq<int>, b: Seq<int>, r: int)
    requires
        a.len() == b.len(),
        a.len() % 2 == 0,
    ensures
        uni_value(round_msg(a, b), r) == sum_prod(foldt(a, r), foldt(b, r), (a.len() / 2) as nat),
{
    let h = a.len() as int / 2;
    let n = (a.len() / 2) as nat;
    lemma_msg_coeffs_reduced(a, b, h, n);
    lemma_uni3(sum_prod(a, b, n), msg1_sum(a, b, h, n), msg2_sum(a, b, h, n), r);
    lemma_msg_eval_partial(a, b, r, n);
}

/// Folding by one selects the high half of a reduced table.
proof fn lemma_foldt_one(t: Seq<int>)
    requires
        reduced(t),
        t.len() % 2 == 0,
    ensures
        forall|j: int| 0 <= j < t.len() / 2 ==> #[trigger] foldt(t, 1)[j] == t[j + t.len() / 2],
{
    let h = t.len() as int / 2;
    assert forall|j: int| 0 <= j < h implies #[trigger] foldt(t, 1)[j] == t[j + h] by {
        let d = t[j + h] - t[j];
        vstd::arithmetic::div_mod::lemma_mod_twice(d, fr_order());
        lemma_mod_add_r(t[j], d);
        lemma_mod_small(t[j + h]);
        assert(foldt(t, 1)[j] == foldpt(t[j], t[j + h], 1));
    }
}

/// The claim splits over the two halves of the tables.
proof fn lemma_sum_prod_split(a: Seq<int>, b: Seq<int>, k: nat)
    requires
        a.len() == b.len(),
        a.len() % 2 == 0,
        reduced(a),
        reduced(b),
        k <= a.len() / 2,
    ensures
        sum_prod(a, b, (a.len() / 2 + k) as nat) == fadd(
            sum_prod(a, b, (a.len() / 2) as nat),
            sum_prod(foldt(a, 1), foldt(b, 1), k),
        ),
    decreases k,
{
    let h = (a.len() / 2) as nat;
    lemma_msg_coeffs_reduced(a, b, a.len() as int / 2, h);
    if k == 0 {
        crate::field::lemma_fadd_zero(sum_prod(a, b, h));
    } else {
        lemma_sum_prod_split(a, b, (k - 1) as nat);
        lemma_foldt_one(a);
        lemma_foldt_one(b);
        assert(foldt(a, 1)[k - 1] == a[k - 1 + a.len() / 2]);
        assert(foldt(b, 1)[k - 1] == b[k - 1 + b.len() / 2]);
        crate::field::lemma_fadd_assoc(
            sum_prod(a, b, h),
            sum_prod(foldt(a, 1), foldt(b, 1), (k - 1) as nat),
            fmul(a[h + k - 1], b[h + k - 1]),
        );
    }
}

/// Round consistency of the honest message: its values at zero and one add
/// up to the claim about the current tables.
pub proof fn lemma_round_msg_consistency(a: Seq<int>, b: Seq<int>)
    requires
        a.len() == b.len(),
        a.len() % 2 == 0,
        reduced(a),
        reduced(b),
    ensures
        fadd(uni_value(round_msg(a, b), 0), uni_value(round_msg(a, b), 1)) == sum_prod(
            a,
            b,
            a.len(),
        ),
{
    let h = a.len() as int / 2;
    let n = (a.len() / 2) as nat;
    lemma_msg_coeffs_reduced(a, b, h, n);
    lemma_uni3(sum_prod(a, b, n), msg1_sum(a, b, h, n), msg2_sum(a, b, h, n), 0);
    lemma_mod_small(sum_prod(a, b, n));
    assert(uni_value(round_msg(a, b), 0) == sum_prod(a, b, n));
    lemma_round_msg_eval(a, b, 1);
    lemma_sum_prod_split(a, b, n);
}

/// Folding keeps tables reduced and halves their length.
pub proof fn lemma_fold_all_shape(t: Seq<int>, ch: Seq<int>, l: nat)
    requires
        t.len() == pow2(l),
        reduced(t),
        ch.len() <= l,
    ensures
        fold_all(t, ch).len() == pow2((l - ch.len()) as nat),
        reduced(fold_all(t, ch)),
    decreases ch.len(),
{
    if ch.len() > 0 {
        lemma_fold_all_shape(t, ch.drop_last(), l);
        let prev = fold_all(t, ch.drop_last());
        lemma_pow2_unfold((l - ch.len() + 1) as nat);
        assert(fold_all(t, ch) == foldt(prev, ch.last()));
        assert forall|j: int|
            0 <= j < foldt(prev, ch.last()).len() implies 0 <= #[trigger] foldt(
            prev,
            ch.last(),
        )[j] < fr_order() by {
            assert(foldt(prev, ch.last())[j] == foldpt(prev[j], prev[j + prev.len() / 2], ch.last()));
        }
    }
}

/// Completeness of one sum-check session: against the honest messages for
/// two reduced tables and the true claim, every check of the verifier's
/// chain passes, and the final expected value is the claim about the fully
/// folded tables.
pub proof fn lemma_session_completeness(
    a: Seq<int>,
    b: Seq<int>,
    ch: Seq<int>,
    msgs: Seq<Seq<int>>,
    l: nat,
    k: nat,
)
    requires
        a.len() == pow2(l),
        b.len() == pow2(l),
        reduced(a),
        reduced(b),
        ch.len() == l,
        msgs.len() == l,
        k <= l,
        forall|i: int|
            0 <= i < l ==> #[trigger] msgs[i] == round_msg(
                fold_all(a, ch.take(i)),
                fold_all(b, ch.take(i)),
            ),
    ensures
        verdict_from(
            sum_prod(
                fold_all(a, ch.take(k as int)),
                fold_all(b, ch.take(k as int)),
                pow2((l - k) as nat),
            ),
            msgs,
            ch,
            k,
        ) == None::<ProtocolError>,
        final_from(
            sum_prod(
                fold_all(a, ch.take(k as int)),
                fold_all(b, ch.take(k as int)),
                pow2((l - k) as nat),
            ),
            msgs,
            ch,
            k,
        ) == sum_prod(fold_all(a, ch), fold_all(b, ch), 1),
    decreases l - k,
{
    let ta = fold_all(a, ch.take(k as int));
    let tb = fold_all(b, ch.take(k as int));
    lemma_fold_all_shape(a, ch.take(k as int), l);
    lemma_fold_all_shape(b, ch.take(k as int), l);
    if k == l {
        assert(ch.take(l as int) =~= ch);
        vstd::arithmetic::power2::lemma2_to64();
    } else {
        lemma_pow2_unfold((l - k) as nat);
        assert(msgs[k as int] == round_msg(ta, tb));
        assert(round_msg(ta, tb).len() == 3);
        lemma_round_msg_consistency(ta, tb);
        lemma_round_msg_eval(ta, tb, ch[k as int]);
        assert(ch.take(k as int + 1).drop_last() =~= ch.take(k as int));
        assert(ch.take(k as int + 1).last() == ch[k as int]);
        assert(foldt(ta, ch[k as int]) == fold_all(a, ch.take(k as int + 1)));
        assert(foldt(tb, ch[k as int]) == fold_all(b, ch.take(k as int + 1)));
        lemma_session_completeness(a, b, ch, msgs, l, (k + 1) as nat);
    }
}

/// The representatives of a list of messages.
pub open spec fn msgs_view(s: Seq<Vec<Fe>>) -> Seq<Seq<int>> {
    s.map_values(|v: Vec<Fe>| vals(v@))
}

/// The messages an honest prover sends for the claim `Σ a·b` under the given
/// challenges: round `i` speaks of the tables folded by the first `i`.
pub open spec fn honest_msgs(a: Seq<int>, b: Seq<int>, ch: Seq<int>) -> Seq<Seq<int>> {
    Seq::new(ch.len(), |i: int| round_msg(fold_all(a, ch.take(i)), fold_all(b, ch.take(i))))
}

/// Folding by zero selects the low half of a reduced table.
proof fn lemma_foldt_zero(t: Seq<int>)
    requires
        reduced(t),
        t.len() % 2 == 0,
    ensures
        forall|j: int| 0 <= j < t.len() / 2 ==> #[trigger] foldt(t, 0)[j] == t[j],
{
    let h = t.len() as int / 2;
    assert forall|j: int| 0 <= j < h implies #[trigger] foldt(t, 0)[j] == t[j] by {
        crate::field::lemma_fmul_zero(fsub(t[j + h], t[j]));
        crate::field::lemma_fadd_zero(t[j]);
        assert(foldt(t, 0)[j] == foldpt(t[j], t[j + h], 0));
    }
}

/// Folding a reduced table by Boolean challenges reads the sub-table the
/// challenge bits select: the multilinear fold agrees with the Boolean-point
/// lookup on Boolean challenges.
pub proof fn lemma_fold_all_boolean(t: Seq<int>, ch: Seq<int>, l: nat)
    requires
        t.len() == pow2(l),
        reduced(t),
        ch.len() <= l,
        forall|i: int| 0 <= i < ch.len() ==> ch[i] == 0 || ch[i] == 1,
    ensures
        forall|j: int|
            0 <= j < pow2((l - ch.len()) as nat) ==> #[trigger] fold_all(t, ch)[j] == t[
                crate::ml_extension::bool_index(ch) * pow2((l - ch.len()) as nat) + j
            ],
    decreases ch.len(),
{
    lemma_fold_all_shape(t, ch, l);
    if ch.len() > 0 {
        let chp = ch.drop_last();
        lemma_fold_all_boolean(t, chp, l);
        lemma_fold_all_shape(t, chp, l);
        let prev = fold_all(t, chp);
        let k = ch.len() as int;
        let h = pow2((l - k) as nat) as int;
        let bp = crate::ml_extension::bool_index(chp);
        lemma_pow2_unfold((l - k + 1) as nat);
        lemma_foldt_zero(prev);
        lemma_foldt_one(prev);
        crate::ml_extension::lemma_bool_index_bound(chp);
        assert forall|j: int|
            0 <= j < pow2((l - ch.len()) as nat) implies #[trigger] fold_all(t, ch)[j] == t[
            crate::ml_extension::bool_index(ch) * pow2((l - ch.len()) as nat) + j
        ] by {
            assert(fold_all(t, ch) == foldt(prev, ch.last()));
            lemma_pow2_pos((l - k) as nat);
            assert(pow2((l - chp.len()) as nat) == 2 * h);
            assert(0 <= j < pow2((l - chp.len()) as nat));
            assert((2 * bp) * h == bp * (2 * h)) by (nonlinear_arith);
            assert((2 * bp + 1) * h == bp * (2 * h) + h) by (nonlinear_arith);
            assert(crate::ml_extension::bool_index(ch) == 2 * bp + crate::field::bool_val(
                ch.last(),
            ));
            if ch.last() == 0 {
                assert(foldt(prev, 0)[j] == prev[j]);
                assert(fold_all(t, chp)[j] == t[bp * pow2((l - chp.len()) as nat) + j]);
                assert(t[bp * pow2((l - chp.len()) as nat) + j] == t[bp * (2 * h) + j]);
            } else {
                assert(foldt(prev, 1)[j] == prev[j + h]);
                assert(fold_all(t, chp)[j + h] == t[bp * pow2((l - chp.len()) as nat) + j + h]);
                assert(t[bp * pow2((l - chp.len()) as nat) + j + h] == t[bp * (2 * h) + j + h]);
            }
        }
    } else {
        assert forall|j: int|
            0 <= j < pow2((l - ch.len()) as nat) implies #[trigger] fold_all(t, ch)[j] == t[
            crate::ml_extension::bool_index(ch) * pow2((l - ch.len()) as nat) + j
        ] by {
            assert(fold_all(t, ch) == t);
            assert(crate::ml_extension::bool_index(ch) == 0);
        }
    }
}


/// Round consistency law: in every round of an honest session the message's
/// values at zero and one add up to the prior round's expected value, and in
/// the first round to the claimed sum itself.
pub proof fn lemma_round_consistency_law(a: Seq<int>, b: Seq<int>, ch: Seq<int>, l: nat, i: int)
    requires
        a.len() == pow2(l),
        b.len() == pow2(l),
        reduced(a),
        reduced(b),
        ch.len() == l,
        0 <= i < l,
    ensures
        i == 0 ==> fadd(
            uni_value(honest_msgs(a, b, ch)[i], 0),
            uni_value(honest_msgs(a, b, ch)[i], 1),
        ) == sum_prod(a, b, pow2(l)),
        i > 0 ==> fadd(
            uni_value(honest_msgs(a, b, ch)[i], 0),
            uni_value(honest_msgs(a, b, ch)[i], 1),
        ) == uni_value(honest_msgs(a, b, ch)[i - 1], ch[i - 1]),
{
    let ai = fold_all(a, ch.take(i));
    let bi = fold_all(b, ch.take(i));
    lemma_fold_all_shape(a, ch.take(i), l);
    lemma_fold_all_shape(b, ch.take(i), l);
    lemma_pow2_unfold((l - i) as nat);
    assert(honest_msgs(a, b, ch)[i] == round_msg(ai, bi));
    lemma_round_msg_consistency(ai, bi);
    if i == 0 {
        assert(ch.take(0) =~= Seq::<int>::empty());
        assert(ai == a);
        assert(bi == b);
    } else {
        let ap = fold_all(a, ch.take(i - 1));
        let bp = fold_all(b, ch.take(i - 1));
        lemma_fold_all_shape(a, ch.take(i - 1), l);
        lemma_fold_all_shape(b, ch.take(i - 1), l);
        lemma_pow2_unfold((l - i + 1) as nat);
        assert(honest_msgs(a, b, ch)[i - 1] == round_msg(ap, bp));
        lemma_round_msg_eval(ap, bp, ch[i - 1]);
        assert(ch.take(i).drop_last() =~= ch.take(i - 1));
        assert(ch.take(i).last() == ch[i - 1]);
        assert(foldt(ap, ch[i - 1]) == ai);
        assert(foldt(bp, ch[i - 1]) == bi);
    }
}


// ---------------------------------------------------------------------------
// The randomness oracle.
// ---------------------------------------------------------------------------

/// The public-coin challenges of a proof session. Both parties must read the
/// same oracle for a transcript to replay; binding the sequence to the
/// transcript (Fiat-Shamir) is the caller's responsibility.
pub struct ChallengeOracle {
    pub challenges: Vec<Fe>,
    pub next: usize,
}

impl ChallengeOracle {
    pub open spec fn wf(&self) -> bool {
        &&& self.next <= self.challenges@.len()
        &&& reduced(vals(self.challenges@))
    }

    /// How many challenges are still unread.
    pub open spec fn remaining(&self) -> int {
        self.challenges@.len() - self.next
    }

    pub fn new(challenges: Vec<Fe>) -> (r: ChallengeOracle)
        requires
            reduced(vals(challenges@)),
        ensures
            r.wf(),
            r.challenges == challenges,
            r.next == 0,
    {
        ChallengeOracle { challenges, next: 0 }
    }

    /// Hands out the next challenge.
    pub fn next_challenge(&mut self) -> (r: Fe)
        requires
            old(self).wf(),
            old(self).remaining() > 0,
        ensures
            final(self).wf(),
            final(self).challenges == old(self).challenges,
            final(self).next == old(self).next + 1,
            r@ == vals(old(self).challenges@)[old(self).next as int],
            r.inv(),
    {
        let n = self.challenges.len();
        let r = self.challenges[self.next].clone();
        self.next = self.next + 1;
        proof {
            assert(0 <= vals(self.challenges@)[self.next - 1] < fr_order());
        }
        r
    }
}

// ---------------------------------------------------------------------------
// Executable prover and verifier state machines.
// ---------------------------------------------------------------------------

/// Copies a table of field elements.
pub(crate) fn copy_elements(v: &Vec<Fe>) -> (r: Vec<Fe>)
    ensures
        r@.len() == v@.len(),
        vals(r@) == vals(v@),
{
    let mut out: Vec<Fe> = Vec::new();
    let mut i: usize = 0;
    proof {
        assert(vals(out@) =~= vals(v@).take(0));
    }
    while i < v.len()
        invariant
            i <= v@.len(),
            out@.len() == i,
            vals(out@) == vals(v@).take(i as int),
        decreases v@.len() - i,
    {
        let ghost pre = out@;
        out.push(v[i].clone());
        proof {
            assert(vals(out@) =~= vals(v@).take(i + 1));
        }
        i = i + 1;
    }
    proof {
        assert(vals(v@).take(v@.len() as int) =~= vals(v@));
    }
    out
}

/// Evaluates a univariate polynomial, lowest coefficient first, at `x`.
pub fn evaluate_univariate(coeffs: &Vec<Fe>, x: &Fe) -> (r: Fe)
    ensures
        r@ == uni_value(vals(coeffs@), x@),
        r.inv(),
{
    let mut acc = Fe::zero();
    let mut i: usize = coeffs.len();
    proof {
        assert(vals(coeffs@).skip(coeffs@.len() as int) =~= Seq::<int>::empty());
    }
    while i > 0
        invariant
            i <= coeffs@.len(),
            acc@ == uni_value(vals(coeffs@).skip(i as int), x@),
            acc.inv(),
        decreases i,
    {
        proof {
            let cv = vals(coeffs@);
            assert(cv.skip(i - 1).drop_first() =~= cv.skip(i as int));
            assert(cv.skip(i - 1).first() == cv[i - 1]);
        }
        acc = coeffs[i - 1].plus(&x.times(&acc));
        i = i - 1;
    }
    proof {
        assert(vals(coeffs@).skip(0) =~= vals(coeffs@));
    }
    acc
}

/// The prover's memory within one session: the two tables of the claim,
/// folded once per drawn challenge.
pub struct ProverState {
    pub num_vars: usize,
    pub round: usize,
    pub table_a: Vec<Fe>,
    pub table_b: Vec<Fe>,
}

impl ProverState {
    pub open spec fn wf(&self) -> bool {
        &&& self.round <= self.num_vars
        &&& self.table_a@.len() == pow2((self.num_vars - self.round) as nat)
        &&& self.table_b@.len() == pow2((self.num_vars - self.round) as nat)
        &&& reduced(vals(self.table_a@))
        &&& reduced(vals(self.table_b@))
    }
}

/// Starts a session proving `Σ_x a(x)·b(x)`.
pub fn prover_init(a: &DenseMLE, b: &DenseMLE) -> (st: ProverState)
    requires
        a.wf(),
        b.wf(),
        a.num_vars == b.num_vars,
    ensures
        st.wf(),
        st.num_vars == a.num_vars,
        st.round == 0,
        vals(st.table_a@) == vals(a.evaluations@),
        vals(st.table_b@) == vals(b.evaluations@),
{
    ProverState {
        num_vars: a.num_vars,
        round: 0,
        table_a: copy_elements(&a.evaluations),
        table_b: copy_elements(&b.evaluations),
    }
}

/// Produces the current round's message: the three coefficients of the
/// quadratic `g_i(X) = Σ_s a(X,s)·b(X,s)` over the remaining variables.
pub fn prove_round(st: &ProverState) -> (msg: Vec<Fe>)
    requires
        st.wf(),
        st.round < st.num_vars,
    ensures
        msg@.len() == 3,
        reduced(vals(msg@)),
        vals(msg@) == round_msg(vals(st.table_a@), vals(st.table_b@)),
{
    let n = st.table_a.len();
    proof {
        lemma_pow2_unfold((st.num_vars - st.round) as nat);
    }
    let h = n / 2;
    let ghost ta = vals(st.table_a@);
    let ghost tb = vals(st.table_b@);
    let mut c0 = Fe::zero();
    let mut c1 = Fe::zero();
    let mut c2 = Fe::zero();
    let mut j: usize = 0;
    while j < h
        invariant
            j <= h,
            n == st.table_a@.len(),
            n == st.table_b@.len(),
            n == 2 * h,
            ta == vals(st.table_a@),
            tb == vals(st.table_b@),
            c0@ == sum_prod(ta, tb, j as nat),
            c1@ == msg1_sum(ta, tb, h as int, j as nat),
            c2@ == msg2_sum(ta, tb, h as int, j as nat),
        decreases h - j,
    {
        let a0 = &st.table_a[j];
        let a1 = &st.table_a[j + h];
        let b0 = &st.table_b[j];
        let b1 = &st.table_b[j + h];
        let da = a1.minus(a0);
        let db = b1.minus(b0);
        c0 = c0.plus(&a0.times(b0));
        c1 = c1.plus(&a0.times(&db).plus(&da.times(b0)));
        c2 = c2.plus(&da.times(&db));
        j = j + 1;
    }
    let mut msg: Vec<Fe> = Vec::new();
    msg.push(c0);
    msg.push(c1);
    msg.push(c2);
    proof {
        assert(vals(msg@) =~= round_msg(ta, tb));
    }
    msg
}

/// Folds a table by a challenge: fixes its leading variable to `r` by
/// multilinear interpolation between the two halves.
pub(crate) fn fold_table(t: &Vec<Fe>, r: &Fe) -> (o: Vec<Fe>)
    requires
        t@.len() % 2 == 0,
    ensures
        o@.len() == t@.len() / 2,
        vals(o@) == foldt(vals(t@), r@),
        reduced(vals(o@)),
{
    let n = t.len();
    let h = n / 2;
    let ghost tv = vals(t@);
    let mut out: Vec<Fe> = Vec::new();
    let mut j: usize = 0;
    while j < h
        invariant
            j <= h,
            n == t@.len(),
            n == 2 * h,
            tv == vals(t@),
            out@.len() == j,
            forall|i: int| 0 <= i < j ==> vals(out@)[i] == foldpt(tv[i], tv[i + h], r@),
            forall|i: int| 0 <= i < j ==> 0 <= #[trigger] vals(out@)[i] < fr_order(),
        decreases h - j,
    {
        let ghost pre = out@;
        let v = t[j].plus(&r.times(&t[j + h].minus(&t[j])));
        out.push(v);
        proof {
            assert(vals(out@) =~= vals(pre).push(v@));
        }
        j = j + 1;
    }
    proof {
        assert(vals(out@) =~= foldt(tv, r@));
    }
    out
}

/// Folds the prover's tables by the drawn challenge, moving to the next
/// round.
pub fn apply_challenge(st: &mut ProverState, r: &Fe)
    requires
        old(st).wf(),
        old(st).round < old(st).num_vars,
    ensures
        final(st).wf(),
        final(st).num_vars == old(st).num_vars,
        final(st).round == old(st).round + 1,
        vals(final(st).table_a@) == foldt(vals(old(st).table_a@), r@),
        vals(final(st).table_b@) == foldt(vals(old(st).table_b@), r@),
{
    proof {
        lemma_pow2_unfold((st.num_vars - st.round) as nat);
    }
    let a = fold_table(&st.table_a, r);
    let b = fold_table(&st.table_b, r);
    st.table_a = a;
    st.table_b = b;
    st.round = st.round + 1;
}

/// The verifier's memory within one session: the running expected value,
/// the last message awaiting its challenge, and the challenges drawn.
pub struct VerifierState {
    pub num_vars: usize,
    pub current_sum: Fe,
    pub msgs_seen: usize,
    pub pending: Vec<Fe>,
    pub point: Vec<Fe>,
}

impl VerifierState {
    pub open spec fn wf(&self) -> bool {
        &&& self.point@.len() <= self.num_vars
        &&& self.current_sum.inv()
        &&& reduced(vals(self.point@))
    }
}

/// Starts verifying a session against the claimed sum.
pub fn verifier_init(num_vars: usize, claimed_sum: &Fe) -> (st: VerifierState)
    requires
        claimed_sum.inv(),
    ensures
        st.wf(),
        st.num_vars == num_vars,
        st.current_sum@ == claimed_sum@,
        st.msgs_seen == 0,
        st.pending@.len() == 0,
        st.point@.len() == 0,
{
    let st = VerifierState {
        num_vars,
        current_sum: claimed_sum.clone(),
        msgs_seen: 0,
        pending: Vec::new(),
        point: Vec::new(),
    };
    proof {
        assert(vals(st.pending@) =~= Seq::<int>::empty());
        assert(vals(st.point@) =~= Seq::<int>::empty());
    }
    st
}

/// Checks one round message: the degree bound, and that its values at zero
/// and one add up to the expected value. On success the message is held
/// until the round's challenge arrives.
pub fn verify_round(st: &mut VerifierState, msg: &Vec<Fe>) -> (res: Result<(), ProtocolError>)
    requires
        old(st).wf(),
        old(st).msgs_seen == old(st).point@.len(),
        old(st).point@.len() < old(st).num_vars,
    ensures
        res is Err ==> *final(st) == *old(st),
        (res is Ok) <==> (msg@.len() <= 3 && fadd(
            uni_value(vals(msg@), 0),
            uni_value(vals(msg@), 1),
        ) == old(st).current_sum@),
        msg@.len() > 3 ==> res == Err::<(), ProtocolError>(ProtocolError::DegreeTooHigh),
        msg@.len() <= 3 && fadd(uni_value(vals(msg@), 0), uni_value(vals(msg@), 1)) != old(
            st,
        ).current_sum@ ==> res == Err::<(), ProtocolError>(ProtocolError::RoundCheckFailed),
        res is Ok ==> final(st).wf() && final(st).num_vars == old(st).num_vars && vals(
            final(st).pending@,
        ) == vals(msg@) && final(st).pending@.len() == msg@.len() && final(st).current_sum == old(
            st,
        ).current_sum && final(st).point == old(st).point && final(st).msgs_seen == old(
            st,
        ).msgs_seen + 1,
{
    if msg.len() > 3 {
        return Err(ProtocolError::DegreeTooHigh);
    }
    let zero = Fe::zero();
    let one = Fe::one();
    let at0 = evaluate_univariate(msg, &zero);
    let at1 = evaluate_univariate(msg, &one);
    if !at0.plus(&at1).equals(&st.current_sum) {
        return Err(ProtocolError::RoundCheckFailed);
    }
    st.pending = copy_elements(msg);
    st.msgs_seen = st.msgs_seen + 1;
    Ok(())
}

/// Folds the drawn challenge into the verifier's state: the next expected
/// value is the held message read at the challenge.
pub fn apply_challenge_verifier(st: &mut VerifierState, r: &Fe)
    requires
        old(st).wf(),
        old(st).msgs_seen == old(st).point@.len() + 1,
        old(st).point@.len() < old(st).num_vars,
        r.inv(),
    ensures
        final(st).wf(),
        final(st).num_vars == old(st).num_vars,
        final(st).msgs_seen == old(st).msgs_seen,
        final(st).current_sum@ == uni_value(vals(old(st).pending@), r@),
        final(st).pending@.len() == 0,
        vals(final(st).point@) == vals(old(st).point@).push(r@),
        final(st).point@.len() == old(st).point@.len() + 1,
{
    let e = evaluate_univariate(&st.pending, r);
    st.current_sum = e;
    st.pending = Vec::new();
    let ghost prepoint = st.point@;
    st.point.push(r.clone());
    proof {
        assert(vals(st.pending@) =~= Seq::<int>::empty());
        assert(vals(st.point@) =~= vals(prepoint).push(r@));
    }
}

/// An evaluation claim left to the caller: the claim's polynomial, read at
/// `point`, should equal `expected_value`.
pub struct Subclaim {
    pub point: Vec<Fe>,
    pub expected_value: Fe,
}

/// Closes a session: demands that every round ran, and hands the caller the
/// accumulated challenge point and the final expected value.
pub fn finalize(st: VerifierState) -> (res: Result<Subclaim, ProtocolError>)
    requires
        st.wf(),
    ensures
        (res is Ok) <==> (st.point@.len() == st.num_vars && st.msgs_seen == st.num_vars),
        res matches Ok(sc) ==> sc.point == st.point && sc.expected_value == st.current_sum,
        res matches Err(e) ==> e == ProtocolError::DimensionMismatch,
{
    if st.point.len() == st.num_vars && st.msgs_seen == st.num_vars {
        Ok(Subclaim { point: st.point, expected_value: st.current_sum })
    } else {
        Err(ProtocolError::DimensionMismatch)
    }
}


} // verus!
