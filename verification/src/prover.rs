//! The prover of the single-layer linear GKR reduction: the claim
//! `Σ_{x,y} f1(g,x,y)·f2(x)·f3(y)` is reduced to two sequential sum-check
//! sessions, one over `x` and one over `y`, each run by the generic
//! table-based engine.

use vstd::prelude::*;
use vstd::arithmetic::div_mod::{
    lemma_fundamental_div_mod, lemma_fundamental_div_mod_converse, lemma_mod_bound,
};
use vstd::arithmetic::power2::{lemma_pow2_adds, lemma_pow2_pos, pow2};

use crate::field::{fadd, fmul, fr_order, lemma_fadd_zero, lemma_fmul_zero, reduced, vals, Fe};
use crate::ml_extension::{
    has_index, lemma_pow2_le, lemma_sparse_at_absent, lemma_sparse_table_reduced, pow2_exec,
    sparse_at, sparse_table, DenseMLE, SparseMLE,
};
use crate::protocol::{
    apply_challenge, fold_all, foldpt, foldt, honest_msgs, lemma_fold_all_shape, lemma_foldpt_add,
    lemma_foldpt_scale, lemma_foldpt_zero, msgs_view, prove_round, prover_init, round_msg,
    sum_prod, ChallengeOracle,
};

verus! {

// ---------------------------------------------------------------------------
// The reduced data of the two phases, as specification values.
// ---------------------------------------------------------------------------

/// `Σ_{y<n} f1[base + x·2^l + y] · f3[y]`: the partial inner sum of the
/// phase-one table entry at `x`.
pub open spec fn hg_partial(
    entries: Seq<(usize, Fe)>,
    f3v: Seq<int>,
    base: int,
    l: nat,
    x: int,
    n: nat,
) -> int
    decreases n,
{
    if n == 0 {
        0
    } else {
        fadd(
            hg_partial(entries, f3v, base, l, x, (n - 1) as nat),
            fmul(sparse_at(entries, base + x * pow2(l) + (n - 1)), f3v[n - 1]),
        )
    }
}

/// `Σ_{y<n} t[off + y]·b[y]`: an inner product read at an offset.
pub open spec fn inner_sum(t: Seq<int>, b: Seq<int>, off: int, n: nat) -> int
    decreases n,
{
    if n == 0 {
        0
    } else {
        fadd(inner_sum(t, b, off, (n - 1) as nat), fmul(t[off + (n - 1)], b[n - 1]))
    }
}

/// The table `h_g(x) = Σ_y f1(g,x,y)·f3(y)` of phase one, with `f1`'s
/// leading variables fixed multilinearly at `g`.
pub open spec fn phase1_table(f1: SparseMLE, f3: DenseMLE, g: Seq<int>) -> Seq<int> {
    let l = f3.num_vars as nat;
    Seq::new(
        pow2(l),
        |x: int|
            inner_sum(
                fold_all(sparse_table(f1), g),
                vals(f3.evaluations@),
                x * pow2(l),
                pow2(l),
            ),
    )
}

/// The table `f1(g,u,y)·f2(u)` of phase two, with the fixings and the
/// evaluation of `f2` taken multilinearly.
pub open spec fn phase2_table(
    f1: SparseMLE,
    f2: DenseMLE,
    f3: DenseMLE,
    g: Seq<int>,
    u: Seq<int>,
) -> Seq<int> {
    let l = f3.num_vars as nat;
    let f2u = fold_all(vals(f2.evaluations@), u)[0];
    Seq::new(pow2(l), |y: int| fmul(fold_all(fold_all(sparse_table(f1), g), u)[y], f2u))
}

/// The sum phase one proves: `Σ_x h_g(x)·f2(x)`.
pub open spec fn phase1_claim(f1: SparseMLE, f2: DenseMLE, f3: DenseMLE, g: Seq<int>) -> int {
    sum_prod(phase1_table(f1, f3, g), vals(f2.evaluations@), pow2(f3.num_vars as nat))
}

// ---------------------------------------------------------------------------
// Facts about the phase-one table.
// ---------------------------------------------------------------------------

/// A fresh entry contributes to exactly one term of one partial sum.
proof fn lemma_hg_extend(
    entries: Seq<(usize, Fe)>,
    e: (usize, Fe),
    f3v: Seq<int>,
    l: nat,
    x: int,
    n: nat,
)
    requires
        n <= pow2(l),
        !has_index(entries, e.0 as int),
    ensures
        ({
            let xe = e.0 as int / pow2(l) as int;
            let ye = e.0 as int % pow2(l) as int;
            &&& ((x != xe || ye >= n) ==> hg_partial(entries.push(e), f3v, 0, l, x, n)
                == hg_partial(entries, f3v, 0, l, x, n))
            &&& ((x == xe && ye < n) ==> hg_partial(entries.push(e), f3v, 0, l, x, n) == fadd(
                hg_partial(entries, f3v, 0, l, x, n),
                fmul(e.1@, f3v[ye]),
            ))
        }),
    decreases n,
{
    lemma_pow2_pos(l);
    let pl = pow2(l) as int;
    let xe = e.0 as int / pl;
    let ye = e.0 as int % pl;
    lemma_fundamental_div_mod(e.0 as int, pl);
    lemma_mod_bound(e.0 as int, pl);
    if n > 0 {
        lemma_hg_extend(entries, e, f3v, l, x, (n - 1) as nat);
        let i = x * pl + (n - 1);
        assert(entries.push(e).drop_last() =~= entries);
        assert(entries.push(e).last() == e);
        if e.0 as int == i {
            lemma_fundamental_div_mod_converse(i, pl, x, n - 1);
            assert(xe == x && ye == n - 1);
            lemma_sparse_at_absent(entries, i);
            lemma_fmul_zero(f3v[n - 1]);
            lemma_fadd_zero(hg_partial(entries, f3v, 0, l, x, (n - 1) as nat));
        } else {
            assert(sparse_at(entries.push(e), i) == sparse_at(entries, i));
            if x == xe && ye < n {
                assert(ye != n - 1) by {
                    if ye == n - 1 {
                        assert(e.0 as int == pl * xe + ye);
                        assert(pl * xe == xe * pl) by (nonlinear_arith);
                    }
                }
                crate::field::lemma_fadd_swap(
                    hg_partial(entries, f3v, 0, l, x, (n - 1) as nat),
                    fmul(e.1@, f3v[ye]),
                    fmul(sparse_at(entries, i), f3v[n - 1]),
                );
            }
        }
    }
}

/// Every partial sum is reduced.
proof fn lemma_hg_reduced(entries: Seq<(usize, Fe)>, f3v: Seq<int>, base: int, l: nat, x: int, n: nat)
    ensures
        0 <= hg_partial(entries, f3v, base, l, x, n) < fr_order(),
{
    if n == 0 {
    }
}

/// Entries that agree with a table pointwise give the same inner sums.
proof fn lemma_hg_to_inner(
    entries: Seq<(usize, Fe)>,
    t: Seq<int>,
    b: Seq<int>,
    l: nat,
    x: int,
    n: nat,
)
    requires
        forall|y: int|
            0 <= y < n ==> #[trigger] sparse_at(entries, x * pow2(l) + y) == t[x * pow2(l) + y],
    ensures
        hg_partial(entries, b, 0, l, x, n) == inner_sum(t, b, x * pow2(l), n),
    decreases n,
{
    if n > 0 {
        lemma_hg_to_inner(entries, t, b, l, x, (n - 1) as nat);
    }
}

/// Every partial inner sum is reduced.
pub proof fn lemma_inner_reduced(t: Seq<int>, b: Seq<int>, off: int, n: nat)
    ensures
        0 <= inner_sum(t, b, off, n) < fr_order(),
{
    if n == 0 {
    }
}

/// At offset zero the inner sum is the plain sum of products.
pub proof fn lemma_inner_off_zero(t: Seq<int>, b: Seq<int>, n: nat)
    ensures
        inner_sum(t, b, 0, n) == sum_prod(t, b, n),
    decreases n,
{
    if n > 0 {
        lemma_inner_off_zero(t, b, (n - 1) as nat);
    }
}

/// One fold of the outer table is the inner sum of the folded inner table:
/// folding is linear, so it passes through the sum.
proof fn lemma_fold_inner_step(t: Seq<int>, b: Seq<int>, r: int, off: int, n: nat)
    requires
        t.len() % 2 == 0,
        0 <= off,
        off + n <= t.len() / 2,
    ensures
        foldpt(
            inner_sum(t, b, off, n),
            inner_sum(t, b, off + t.len() / 2, n),
            r,
        ) == inner_sum(foldt(t, r), b, off, n),
    decreases n,
{
    let bigh = t.len() as int / 2;
    if n == 0 {
        lemma_foldpt_zero(r);
    } else {
        lemma_fold_inner_step(t, b, r, off, (n - 1) as nat);
        let s0 = inner_sum(t, b, off, (n - 1) as nat);
        let s1 = inner_sum(t, b, off + bigh, (n - 1) as nat);
        let t0 = fmul(t[off + (n - 1)], b[n - 1]);
        let t1 = fmul(t[off + bigh + (n - 1)], b[n - 1]);
        lemma_foldpt_add(s0, s1, t0, t1, r);
        lemma_foldpt_scale(t[off + (n - 1)], t[off + bigh + (n - 1)], b[n - 1], r);
        assert(foldt(t, r)[off + (n - 1)] == foldpt(t[off + (n - 1)], t[off + (n - 1) + bigh], r));
    }
}

/// Folding the table of inner sums by challenges is taking the inner sums
/// of the folded table.
pub proof fn lemma_fold_inner_all(
    t: Seq<int>,
    hg: Seq<int>,
    b: Seq<int>,
    p: nat,
    q: nat,
    ch: Seq<int>,
)
    requires
        t.len() == pow2((p + q) as nat),
        reduced(t),
        hg.len() == pow2(p),
        reduced(hg),
        forall|x: int|
            0 <= x < pow2(p) ==> #[trigger] hg[x] == inner_sum(t, b, x * pow2(q), pow2(q)),
        ch.len() <= p,
    ensures
        forall|x: int|
            0 <= x < pow2((p - ch.len()) as nat) ==> #[trigger] fold_all(hg, ch)[x] == inner_sum(
                fold_all(t, ch),
                b,
                x * pow2(q),
                pow2(q),
            ),
    decreases ch.len(),
{
    if ch.len() == 0 {
        assert forall|x: int|
            0 <= x < pow2((p - ch.len()) as nat) implies #[trigger] fold_all(hg, ch)[x]
            == inner_sum(fold_all(t, ch), b, x * pow2(q), pow2(q)) by {
            assert(fold_all(hg, ch) == hg);
            assert(fold_all(t, ch) == t);
        }
    } else {
        let chp = ch.drop_last();
        let k = ch.len() as int;
        lemma_fold_inner_all(t, hg, b, p, q, chp);
        lemma_fold_all_shape(t, chp, (p + q) as nat);
        lemma_fold_all_shape(hg, chp, p);
        let prev_t = fold_all(t, chp);
        let prev_hg = fold_all(hg, chp);
        vstd::arithmetic::power2::lemma_pow2_unfold((p - k + 1) as nat);
        vstd::arithmetic::power2::lemma_pow2_unfold((p + q - k + 1) as nat);
        lemma_pow2_adds((p - k) as nat, q);
        assert forall|x: int|
            0 <= x < pow2((p - ch.len()) as nat) implies #[trigger] fold_all(hg, ch)[x]
            == inner_sum(fold_all(t, ch), b, x * pow2(q), pow2(q)) by {
            let hh = pow2((p - k) as nat) as int;
            let pq = pow2(q) as int;
            vstd::arithmetic::power2::lemma_pow2_pos(q);
            vstd::arithmetic::power2::lemma_pow2_pos((p - k) as nat);
            assert(fold_all(hg, ch) == foldt(prev_hg, ch.last()));
            assert(fold_all(t, ch) == foldt(prev_t, ch.last()));
            assert(foldt(prev_hg, ch.last())[x] == foldpt(prev_hg[x], prev_hg[x + hh], ch.last()));
            assert(prev_hg[x] == inner_sum(prev_t, b, x * pq, pow2(q)));
            assert(prev_hg[x + hh] == inner_sum(prev_t, b, (x + hh) * pq, pow2(q)));
            assert(prev_t.len() as int / 2 == hh * pq);
            assert((x + hh) * pq == x * pq + hh * pq) by (nonlinear_arith);
            assert((x + 1) * pq <= hh * pq) by (nonlinear_arith)
                requires
                    x + 1 <= hh,
                    pq > 0,
            ;
            assert((x + 1) * pq == x * pq + pq) by (nonlinear_arith);
            vstd::arithmetic::power2::lemma_pow2_pos(q);
            lemma_fold_inner_step(prev_t, b, ch.last(), x * pq, pow2(q));
        }
    }
}

/// A quotient by the half-size is bounded by the table size.
/// A quotient by the half-size is bounded by the table size.
proof fn lemma_split_index(idx: int, a: int, b: int)
    requires
        0 <= idx,
        idx < a * b,
        b > 0,
    ensures
        0 <= idx / b < a,
        0 <= idx % b < b,
        idx == (idx / b) * b + idx % b,
{
    lemma_fundamental_div_mod(idx, b);
    lemma_mod_bound(idx, b);
    let q = idx / b;
    let r = idx % b;
    assert(0 <= q && q < a) by (nonlinear_arith)
        requires
            idx == b * q + r,
            0 <= r < b,
            0 <= idx,
            idx < a * b,
            b > 0,
    ;
    assert(q * b == b * q) by (nonlinear_arith);
}

// ---------------------------------------------------------------------------
// The reduction steps.
// ---------------------------------------------------------------------------

/// Fixes `f1`'s leading `l` variables to `g` and computes
/// `h_g(x) = Σ_y f1(g,x,y)·f3(y)` by walking only the entries of the fixed
/// function, splitting each flat index into its `x` (high) and `y` (low)
/// halves.
pub fn initialize_phase_one(f1: &SparseMLE, f3: &DenseMLE, g: &Vec<Fe>) -> (res: (
    DenseMLE,
    SparseMLE,
))
    requires
        f1.wf(),
        f3.wf(),
        f1.num_vars as int == 3 * g@.len(),
        f3.num_vars as int == g@.len(),
    ensures
        res.1.wf(),
        res.1.num_vars as int == 2 * g@.len(),
        forall|j: int|
            0 <= j < pow2(res.1.num_vars as nat) ==> sparse_at(res.1.evaluations@, j) == fold_all(
                sparse_table(*f1),
                vals(g@),
            )[j],
        res.0.wf(),
        res.0.num_vars == f3.num_vars,
        vals(res.0.evaluations@) == phase1_table(*f1, *f3, vals(g@)),
{
    let l = f3.num_vars;
    let f1_fixed_g = f1.fix_variables(g);
    proof {
        lemma_pow2_le(l as nat, f1.num_vars as nat);
        lemma_pow2_pos(l as nat);
    }
    let size_l = pow2_exec(l);
    let mut h_evals: Vec<Fe> = Vec::new();
    let mut i: usize = 0;
    while i < size_l
        invariant
            i <= size_l,
            h_evals@.len() == i,
            forall|x: int| 0 <= x < i ==> vals(h_evals@)[x] == 0,
        decreases size_l - i,
    {
        let ghost pre = h_evals@;
        h_evals.push(Fe::zero());
        proof {
            assert(vals(h_evals@) =~= vals(pre).push(0));
        }
        i = i + 1;
    }
    let ghost fe = f1_fixed_g.evaluations@;
    let ghost f3v = vals(f3.evaluations@);
    let n = f1_fixed_g.evaluations.len();
    let mut k: usize = 0;
    proof {
        assert(fe.take(0) =~= Seq::<(usize, Fe)>::empty());
        assert forall|x: int| 0 <= x < size_l implies vals(h_evals@)[x] == hg_partial(
            fe.take(0),
            f3v,
            0,
            l as nat,
            x,
            pow2(l as nat),
        ) by {
            lemma_hg_zero_entries(f3v, l as nat, x, pow2(l as nat));
        }
    }
    while k < n
        invariant
            k <= n,
            n == fe.len(),
            fe == f1_fixed_g.evaluations@,
            f1_fixed_g.wf(),
            f1_fixed_g.num_vars as int == 2 * l,
            l == f3.num_vars,
            f3.wf(),
            f3v == vals(f3.evaluations@),
            size_l as nat == pow2(l as nat),
            h_evals@.len() == size_l,
            forall|x: int|
                0 <= x < size_l ==> vals(h_evals@)[x] == hg_partial(
                    fe.take(k as int),
                    f3v,
                    0,
                    l as nat,
                    x,
                    pow2(l as nat),
                ),
            forall|x: int|
                0 <= x < size_l ==> 0 <= #[trigger] vals(h_evals@)[x] < fr_order(),
        decreases n - k,
    {
        let idx = f1_fixed_g.evaluations[k].0;
        let ghost e = fe[k as int];
        proof {
            assert(fe.take(k + 1) =~= fe.take(k as int).push(e));
            assert(!has_index(fe.take(k as int), e.0 as int)) by {
                if has_index(fe.take(k as int), e.0 as int) {
                    let w = choose|w: int|
                        0 <= w < fe.take(k as int).len() && (#[trigger] fe.take(k as int)[w]).0
                            == e.0 as int;
                    assert(fe[w].0 == fe[k as int].0);
                }
            }
            lemma_pow2_adds(l as nat, l as nat);
            assert(pow2((2 * l) as nat) == pow2(l as nat) * pow2(l as nat));
            lemma_split_index(idx as int, size_l as int, size_l as int);
        }
        if f1_fixed_g.evaluations[k].1.is_zero() {
            proof {
                assert forall|x: int| 0 <= x < size_l implies vals(h_evals@)[x] == hg_partial(
                    fe.take(k + 1),
                    f3v,
                    0,
                    l as nat,
                    x,
                    pow2(l as nat),
                ) by {
                    assert(vals(h_evals@)[x] == hg_partial(
                        fe.take(k as int),
                        f3v,
                        0,
                        l as nat,
                        x,
                        pow2(l as nat),
                    ));
                    lemma_hg_extend(fe.take(k as int), e, f3v, l as nat, x, pow2(l as nat));
                    lemma_pow2_pos(l as nat);
                    let pl2 = pow2(l as nat) as int;
                    let xe = e.0 as int / pl2;
                    let ye = e.0 as int % pl2;
                    lemma_mod_bound(e.0 as int, pl2);
                    assert(e.1@ == 0);
                    if x == xe {
                        assert(ye < pl2);
                        lemma_fmul_zero(f3v[ye]);
                        assert(fmul(e.1@, f3v[ye]) == 0);
                        lemma_hg_reduced(fe.take(k as int), f3v, 0, l as nat, x, pow2(l as nat));
                        lemma_fadd_zero(
                            hg_partial(fe.take(k as int), f3v, 0, l as nat, x, pow2(l as nat)),
                        );
                        assert(hg_partial(fe.take(k as int).push(e), f3v, 0, l as nat, x, pow2(
                            l as nat,
                        )) == hg_partial(fe.take(k as int), f3v, 0, l as nat, x, pow2(l as nat)));
                    } else {
                        assert(hg_partial(fe.take(k as int).push(e), f3v, 0, l as nat, x, pow2(
                            l as nat,
                        )) == hg_partial(fe.take(k as int), f3v, 0, l as nat, x, pow2(l as nat)));
                    }
                    assert(fe.take(k + 1) == fe.take(k as int).push(e));
                    assert(hg_partial(fe.take(k + 1), f3v, 0, l as nat, x, pow2(l as nat))
                        == hg_partial(
                        fe.take(k as int).push(e),
                        f3v,
                        0,
                        l as nat,
                        x,
                        pow2(l as nat),
                    ));
                    assert(vals(h_evals@)[x] == hg_partial(
                        fe.take(k + 1),
                        f3v,
                        0,
                        l as nat,
                        x,
                        pow2(l as nat),
                    ));
                }
            }
        } else {
            let x_idx = idx / size_l;
            let y_idx = idx % size_l;
            let v = f1_fixed_g.evaluations[k].1.clone();
            let delta = v.times(&f3.evaluations[y_idx]);
            let ghost pre = h_evals@;
            let updated = h_evals[x_idx].plus(&delta);
            h_evals[x_idx] = updated;
            proof {
                assert(vals(h_evals@) =~= vals(pre).update(x_idx as int, updated@));
                assert forall|x: int| 0 <= x < size_l implies vals(h_evals@)[x] == hg_partial(
                    fe.take(k + 1),
                    f3v,
                    0,
                    l as nat,
                    x,
                    pow2(l as nat),
                ) by {
                    assert(vals(pre)[x] == hg_partial(
                        fe.take(k as int),
                        f3v,
                        0,
                        l as nat,
                        x,
                        pow2(l as nat),
                    ));
                    lemma_hg_extend(fe.take(k as int), e, f3v, l as nat, x, pow2(l as nat));
                    lemma_pow2_pos(l as nat);
                    let pl2 = pow2(l as nat) as int;
                    assert(size_l as int == pl2);
                    assert(e.0 as int == idx as int);
                    assert(x_idx as int == e.0 as int / pl2);
                    assert(y_idx as int == e.0 as int % pl2);
                    assert(fe.take(k + 1) == fe.take(k as int).push(e));
                    if x == x_idx as int {
                        assert(vals(h_evals@)[x] == updated@);
                        assert(updated@ == fadd(vals(pre)[x], fmul(v@, f3v[y_idx as int])));
                        assert(e.1@ == v@);
                    } else {
                        assert(vals(h_evals@)[x] == vals(pre)[x]);
                    }
                }
            }
        }
        k = k + 1;
    }
    proof {
        assert(fe.take(n as int) =~= fe);
    }
    let h_g = DenseMLE::from_evaluations_vec(l, h_evals);
    proof {
        let ghost t1 = fold_all(sparse_table(*f1), vals(g@));
        assert(vals(h_g.evaluations@) =~= phase1_table(*f1, *f3, vals(g@))) by {
            assert forall|x: int| 0 <= x < size_l implies vals(h_g.evaluations@)[x]
                == phase1_table(*f1, *f3, vals(g@))[x] by {
                lemma_pow2_adds(l as nat, l as nat);
                lemma_pow2_pos(l as nat);
                let pl = pow2(l as nat) as int;
                assert forall|y: int| 0 <= y < pow2(l as nat) implies #[trigger] sparse_at(
                    fe,
                    x * pow2(l as nat) + y,
                ) == t1[x * pow2(l as nat) + y] by {
                    assert(0 <= x * pl + y < pl * pl) by (nonlinear_arith)
                        requires
                            0 <= x < pl,
                            0 <= y < pl,
                    ;
                    assert(sparse_at(fe, x * pl + y) == t1[x * pl + y]);
                }
                lemma_hg_to_inner(fe, t1, f3v, l as nat, x, pow2(l as nat));
            }
        }
    }
        (h_g, f1_fixed_g)
}

/// With no entries every inner sum is zero.
proof fn lemma_hg_zero_entries(f3v: Seq<int>, l: nat, x: int, n: nat)
    ensures
        hg_partial(Seq::<(usize, Fe)>::empty(), f3v, 0, l, x, n) == 0,
    decreases n,
{
    if n > 0 {
        lemma_hg_zero_entries(f3v, l, x, (n - 1) as nat);
        lemma_fmul_zero(f3v[n - 1]);
        lemma_fadd_zero(0);
    }
}

/// Fixes the remaining `x` variables of `f1(g,·,·)` to the phase-one
/// challenges, leaving a dense function of `y` alone.
pub fn initialize_phase_two(f1_fixed_g: &SparseMLE, u: &Vec<Fe>) -> (r: DenseMLE)
    requires
        f1_fixed_g.wf(),
        u@.len() <= f1_fixed_g.num_vars,
    ensures
        r.wf(),
        r.num_vars == f1_fixed_g.num_vars - u@.len(),
        forall|y: int|
            0 <= y < pow2(r.num_vars as nat) ==> vals(r.evaluations@)[y] == fold_all(
                sparse_table(*f1_fixed_g),
                vals(u@),
            )[y],
{
    let fixed = f1_fixed_g.fix_variables(u);
    let r = fixed.to_dense_multilinear_extension();
    proof {
        assert forall|y: int| 0 <= y < pow2(r.num_vars as nat) implies vals(r.evaluations@)[y]
            == fold_all(sparse_table(*f1_fixed_g), vals(u@))[y] by {
            assert(vals(r.evaluations@)[y] == sparse_at(fixed.evaluations@, y));
            assert(sparse_at(fixed.evaluations@, y) == fold_all(
                sparse_table(*f1_fixed_g),
                vals(u@),
            )[y]);
        }
    }
    r
}

/// `Σ_x h_g(x)·f2(x)`: the claimed sum of phase one.
pub fn compute_claimed_sum(h_g: &DenseMLE, f2: &DenseMLE) -> (r: Fe)
    requires
        h_g.wf(),
        f2.wf(),
        h_g.num_vars == f2.num_vars,
    ensures
        r@ == sum_prod(
            vals(h_g.evaluations@),
            vals(f2.evaluations@),
            h_g.evaluations@.len() as nat,
        ),
        r.inv(),
{
    let n = h_g.evaluations.len();
    let mut acc = Fe::zero();
    let mut i: usize = 0;
    while i < n
        invariant
            i <= n,
            n == h_g.evaluations@.len(),
            n == f2.evaluations@.len(),
            acc@ == sum_prod(vals(h_g.evaluations@), vals(f2.evaluations@), i as nat),
            acc.inv(),
        decreases n - i,
    {
        acc = acc.plus(&h_g.evaluations[i].times(&f2.evaluations[i]));
        i = i + 1;
    }
    acc
}

/// `Σ_y f1(g,u,y)·f3(y)`: the inner sum of phase two.
pub fn compute_dense_sum(f1_fixed_gu: &DenseMLE, f3: &DenseMLE) -> (r: Fe)
    requires
        f1_fixed_gu.wf(),
        f3.wf(),
        f1_fixed_gu.num_vars == f3.num_vars,
    ensures
        r@ == sum_prod(
            vals(f1_fixed_gu.evaluations@),
            vals(f3.evaluations@),
            f1_fixed_gu.evaluations@.len() as nat,
        ),
        r.inv(),
{
    let n = f1_fixed_gu.evaluations.len();
    let mut acc = Fe::zero();
    let mut i: usize = 0;
    while i < n
        invariant
            i <= n,
            n == f1_fixed_gu.evaluations@.len(),
            n == f3.evaluations@.len(),
            acc@ == sum_prod(vals(f1_fixed_gu.evaluations@), vals(f3.evaluations@), i as nat),
            acc.inv(),
        decreases n - i,
    {
        acc = acc.plus(&f1_fixed_gu.evaluations[i].times(&f3.evaluations[i]));
        i = i + 1;
    }
    acc
}

// ---------------------------------------------------------------------------
// The prover.
// ---------------------------------------------------------------------------

/// The proof of the two-phase reduction: one message per variable in each
/// phase.
pub struct LinearGKRProof {
    pub phase1_msgs: Vec<Vec<Fe>>,
    pub phase2_msgs: Vec<Vec<Fe>>,
}

pub struct LinearGKRProver;

impl LinearGKRProver {
    /// Produces the two message lists of the reduction, drawing one
    /// challenge per round from the oracle. The messages are exactly the
    /// honest transcripts of the two sessions: phase one over
    /// `(h_g, f2)`, phase two over `(f1(g,u,·)·f2(u), f3)` with `u` the
    /// phase-one challenges.
    pub fn prove(
        f1: &SparseMLE,
        f2: &DenseMLE,
        f3: &DenseMLE,
        g: &Vec<Fe>,
        oracle: &mut ChallengeOracle,
    ) -> (prf: LinearGKRProof)
        requires
            f1.wf(),
            f2.wf(),
            f3.wf(),
            f1.num_vars as int == 3 * g@.len(),
            f2.num_vars as int == g@.len(),
            f3.num_vars as int == g@.len(),
            old(oracle).wf(),
            old(oracle).remaining() >= 2 * g@.len(),
        ensures
            final(oracle).wf(),
            final(oracle).challenges == old(oracle).challenges,
            final(oracle).next == old(oracle).next + 2 * g@.len(),
            ({
                let l = g@.len() as int;
                let ch = vals(old(oracle).challenges@);
                let n0 = old(oracle).next as int;
                let ch1 = ch.subrange(n0, n0 + l);
                let ch2 = ch.subrange(n0 + l, n0 + 2 * l);
                &&& prf.phase1_msgs@.len() == l
                &&& prf.phase2_msgs@.len() == l
                &&& msgs_view(prf.phase1_msgs@) == honest_msgs(
                    phase1_table(*f1, *f3, vals(g@)),
                    vals(f2.evaluations@),
                    ch1,
                )
                &&& msgs_view(prf.phase2_msgs@) == honest_msgs(
                    phase2_table(*f1, *f2, *f3, vals(g@), ch1),
                    vals(f3.evaluations@),
                    ch2,
                )
            }),
    {
        let l = g.len();
        let ghost ch = vals(oracle.challenges@);
        let ghost n0 = oracle.next as int;
        let ghost ch1 = ch.subrange(n0, n0 + l as int);
        let ghost ch2 = ch.subrange(n0 + l as int, n0 + 2 * l as int);

        let (h_g, f1_fixed_g) = initialize_phase_one(f1, f3, g);
        let ghost a1 = phase1_table(*f1, *f3, vals(g@));
        let ghost b1 = vals(f2.evaluations@);
        let mut st1 = prover_init(&h_g, f2);
        let mut phase1_msgs: Vec<Vec<Fe>> = Vec::new();
        let mut u: Vec<Fe> = Vec::new();
        let mut i: usize = 0;
        proof {
            assert(ch1.take(0) =~= Seq::<int>::empty());
            assert(vals(u@) =~= Seq::<int>::empty());
        }
        while i < l
            invariant
                i <= l,
                st1.wf(),
                st1.num_vars == l,
                st1.round == i,
                vals(st1.table_a@) == fold_all(a1, ch1.take(i as int)),
                vals(st1.table_b@) == fold_all(b1, ch1.take(i as int)),
                phase1_msgs@.len() == i,
                forall|j: int|
                    0 <= j < i ==> vals((#[trigger] phase1_msgs@[j])@) == round_msg(
                        fold_all(a1, ch1.take(j)),
                        fold_all(b1, ch1.take(j)),
                    ),
                u@.len() == i,
                vals(u@) == ch1.take(i as int),
                oracle.wf(),
                oracle.challenges == old(oracle).challenges,
                oracle.next == n0 + i,
                n0 == old(oracle).next,
                ch == vals(oracle.challenges@),
                ch1 == ch.subrange(n0, n0 + l as int),
                l == g@.len(),
                n0 + 2 * l <= ch.len(),
            decreases l - i,
        {
            let msg = prove_round(&st1);
            phase1_msgs.push(msg);
            let r = oracle.next_challenge();
            u.push(r.clone());
            proof {
                assert(ch1[i as int] == ch[n0 + i]);
                assert(ch1.take(i + 1).drop_last() =~= ch1.take(i as int));
                assert(ch1.take(i + 1).last() == ch1[i as int]);
                assert(vals(u@) =~= ch1.take(i + 1));
            }
            apply_challenge(&mut st1, &r);
            i = i + 1;
        }
        proof {
            assert(ch1.take(l as int) =~= ch1);
        }

        let f1_fixed_gu = initialize_phase_two(&f1_fixed_g, &u);
        let ghost f1_fixed_gu_snapshot = f1_fixed_gu.evaluations@;
        let f2_at_u = f2.evaluate(&u);
        let mut a2_mle = f1_fixed_gu;
        a2_mle.scale(&f2_at_u);
        let ghost a2 = phase2_table(*f1, *f2, *f3, vals(g@), ch1);
        let ghost b2 = vals(f3.evaluations@);
        proof {
            lemma_pow2_adds(l as nat, l as nat);
            lemma_pow2_pos(l as nat);
            lemma_sparse_table_reduced(*f1);
            lemma_fold_all_shape(sparse_table(*f1), vals(g@), f1.num_vars as nat);
            assert(sparse_table(f1_fixed_g) =~= fold_all(sparse_table(*f1), vals(g@)));
            assert(vals(a2_mle.evaluations@) =~= a2) by {
                assert forall|y: int| 0 <= y < pow2(l as nat) implies vals(
                    a2_mle.evaluations@,
                )[y] == a2[y] by {
                    assert(vals(f1_fixed_gu_snapshot)[y] == fold_all(
                        sparse_table(f1_fixed_g),
                        vals(u@),
                    )[y]);
                }
            }
        }
        let mut st2 = prover_init(&a2_mle, f3);
        let mut phase2_msgs: Vec<Vec<Fe>> = Vec::new();
        let mut i2: usize = 0;
        proof {
            assert(ch2.take(0) =~= Seq::<int>::empty());
        }
        while i2 < l
            invariant
                i2 <= l,
                st2.wf(),
                st2.num_vars == l,
                st2.round == i2,
                vals(st2.table_a@) == fold_all(a2, ch2.take(i2 as int)),
                vals(st2.table_b@) == fold_all(b2, ch2.take(i2 as int)),
                phase2_msgs@.len() == i2,
                forall|j: int|
                    0 <= j < i2 ==> vals((#[trigger] phase2_msgs@[j])@) == round_msg(
                        fold_all(a2, ch2.take(j)),
                        fold_all(b2, ch2.take(j)),
                    ),
                oracle.wf(),
                oracle.challenges == old(oracle).challenges,
                oracle.next == n0 + l + i2,
                n0 == old(oracle).next,
                ch == vals(oracle.challenges@),
                ch2 == ch.subrange(n0 + l as int, n0 + 2 * l as int),
                l == g@.len(),
                n0 + 2 * l <= ch.len(),
            decreases l - i2,
        {
            let msg = prove_round(&st2);
            phase2_msgs.push(msg);
            let r = oracle.next_challenge();
            proof {
                assert(ch2[i2 as int] == ch[n0 + l + i2]);
                assert(ch2.take(i2 + 1).drop_last() =~= ch2.take(i2 as int));
                assert(ch2.take(i2 + 1).last() == ch2[i2 as int]);
            }
            apply_challenge(&mut st2, &r);
            i2 = i2 + 1;
        }
        proof {
            assert(msgs_view(phase1_msgs@) =~= honest_msgs(a1, b1, ch1));
            assert(msgs_view(phase2_msgs@) =~= honest_msgs(a2, b2, ch2));
        }
        LinearGKRProof { phase1_msgs, phase2_msgs }
    }
}

} // verus!
