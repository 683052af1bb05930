//! The verifier of the single-layer linear GKR reduction: it replays the two
//! sum-check sessions against the proof's messages and, when every round
//! check passes, returns the subclaim the caller must still confirm against
//! `f1(g,u,v)·f2(u)·f3(v)` by direct oracle access.

use vstd::prelude::*;
use vstd::arithmetic::power2::{lemma_pow2_pos, pow2};

use crate::field::{fadd, fmul, fr_order, lemma_fadd_zero, lemma_fmul_assoc, lemma_fmul_comm,
    lemma_fmul_distrib, lemma_fmul_zero, reduced, vals, Fe};
use crate::ml_extension::{lemma_sparse_table_reduced, sparse_table, DenseMLE, SparseMLE};
use crate::protocol::{
    apply_challenge_verifier, final_from, finalize, fold_all, honest_msgs, lemma_fold_all_shape,
    lemma_session_completeness, msgs_view, sum_prod, verdict_from, verifier_init, verify_round,
    ChallengeOracle, ProtocolError, Subclaim,
};
use crate::prover::{
    inner_sum, lemma_fold_inner_all, lemma_inner_off_zero, lemma_inner_reduced, phase1_claim,
    phase1_table, phase2_table, LinearGKRProof,
};

verus! {

/// The subclaim the reduction leaves open: `expected_value` should equal
/// `f1(g,u,v)·f2(u)·f3(v)`, checked by the caller against the true functions.
pub struct LinearGKRSubclaim {
    pub u: Vec<Fe>,
    pub v: Vec<Fe>,
    pub expected_value: Fe,
}

pub struct LinearGKRVerifier;

/// Runs one sum-check session of `l` rounds against `msgs`, drawing one
/// challenge per round.
fn run_session(
    l: usize,
    claimed_sum: &Fe,
    msgs: &Vec<Vec<Fe>>,
    oracle: &mut ChallengeOracle,
) -> (res: Result<Subclaim, ProtocolError>)
    requires
        claimed_sum.inv(),
        msgs@.len() == l,
        old(oracle).wf(),
        old(oracle).remaining() >= l,
    ensures
        final(oracle).wf(),
        final(oracle).challenges == old(oracle).challenges,
        old(oracle).next <= final(oracle).next <= old(oracle).next + l,
        ({
            let ch = vals(old(oracle).challenges@).subrange(
                old(oracle).next as int,
                old(oracle).next + l,
            );
            let m = msgs_view(msgs@);
            &&& ((res is Ok) <==> verdict_from(claimed_sum@, m, ch, 0) is None)
            &&& (res matches Err(e) ==> verdict_from(claimed_sum@, m, ch, 0) == Some(e))
            &&& (res matches Ok(sc) ==> vals(sc.point@) == ch && sc.expected_value@ == final_from(
                claimed_sum@,
                m,
                ch,
                0,
            ) && sc.expected_value.inv() && final(oracle).next == old(oracle).next + l)
        }),
{
    let ghost ch = vals(oracle.challenges@).subrange(oracle.next as int, oracle.next + l as int);
    let ghost m = msgs_view(msgs@);
    let ghost n0 = oracle.next as int;
    let mut st = verifier_init(l, claimed_sum);
    let mut i: usize = 0;
    proof {
        assert(vals(st.point@) =~= ch.take(0));
    }
    while i < l
        invariant
            i <= l,
            st.wf(),
            st.num_vars == l,
            st.msgs_seen == i,
            st.point@.len() == i,
            vals(st.point@) == ch.take(i as int),
            st.current_sum.inv(),
            verdict_from(claimed_sum@, m, ch, 0) == verdict_from(st.current_sum@, m, ch, i as nat),
            final_from(claimed_sum@, m, ch, 0) == final_from(st.current_sum@, m, ch, i as nat),
            oracle.wf(),
            oracle.challenges == old(oracle).challenges,
            oracle.next == n0 + i,
            n0 == old(oracle).next,
            msgs@.len() == l,
            m == msgs_view(msgs@),
            ch == vals(oracle.challenges@).subrange(n0, n0 + l as int),
            n0 + l <= vals(oracle.challenges@).len(),
        decreases l - i,
    {
        let outcome = verify_round(&mut st, &msgs[i]);
        proof {
            assert(m[i as int] == vals(msgs@[i as int]@));
        }
        match outcome {
            Err(e) => {
                return Err(e);
            },
            Ok(()) => {},
        }
        let r = oracle.next_challenge();
        proof {
            assert(ch[i as int] == vals(oracle.challenges@)[n0 + i]);
        }
        apply_challenge_verifier(&mut st, &r);
        proof {
            assert(vals(st.point@) =~= ch.take(i + 1));
        }
        i = i + 1;
    }
    let out = finalize(st);
    proof {
        assert(ch.take(l as int) =~= ch);
    }
    match out {
        Ok(sc) => Ok(sc),
        Err(e) => {
            proof {
                assert(false);
            }
            Err(e)
        },
    }
}

impl LinearGKRVerifier {
    /// Replays both phases against the proof. A proof whose message lists
    /// are not of length `f2_num_vars` is rejected before any round logic
    /// runs; each round's checks reject immediately on failure. On
    /// acceptance, phase two's claimed sum is phase one's final expected
    /// value, and the returned subclaim holds the two challenge vectors and
    /// the final expected value.
    pub fn verify(
        f2_num_vars: usize,
        claimed_sum: &Fe,
        prf: &LinearGKRProof,
        oracle: &mut ChallengeOracle,
    ) -> (res: Result<LinearGKRSubclaim, ProtocolError>)
        requires
            claimed_sum.inv(),
            old(oracle).wf(),
            old(oracle).remaining() >= 2 * f2_num_vars,
        ensures
            final(oracle).wf(),
            final(oracle).challenges == old(oracle).challenges,
            ({
                let l = f2_num_vars as int;
                let ch = vals(old(oracle).challenges@);
                let n0 = old(oracle).next as int;
                let ch1 = ch.subrange(n0, n0 + l);
                let ch2 = ch.subrange(n0 + l, n0 + 2 * l);
                let m1 = msgs_view(prf.phase1_msgs@);
                let m2 = msgs_view(prf.phase2_msgs@);
                let lens_ok = prf.phase1_msgs@.len() == l && prf.phase2_msgs@.len() == l;
                let v1 = verdict_from(claimed_sum@, m1, ch1, 0);
                let e1 = final_from(claimed_sum@, m1, ch1, 0);
                let v2 = verdict_from(e1, m2, ch2, 0);
                &&& (!lens_ok ==> res == Err::<LinearGKRSubclaim, ProtocolError>(
                    ProtocolError::DimensionMismatch,
                ) && *final(oracle) == *old(oracle))
                &&& (lens_ok ==> ((res is Ok) <==> (v1 is None && v2 is None)))
                &&& ((lens_ok && res is Err) ==> (res matches Err(e) ==> (v1 == Some(e) || (
                v1 is None && v2 == Some(e)))))
                &&& (res matches Ok(sc) ==> vals(sc.u@) == ch1 && vals(sc.v@) == ch2
                    && sc.expected_value@ == final_from(e1, m2, ch2, 0) && final(oracle).next
                    == old(oracle).next + 2 * l)
            }),
    {
        let l = f2_num_vars;
        if prf.phase1_msgs.len() != l || prf.phase2_msgs.len() != l {
            return Err(ProtocolError::DimensionMismatch);
        }
        let ghost ch = vals(oracle.challenges@);
        let ghost n0 = oracle.next as int;
        let sub1 = match run_session(l, claimed_sum, &prf.phase1_msgs, oracle) {
            Ok(sc) => sc,
            Err(e) => {
                return Err(e);
            },
        };
        let sub2 = match run_session(l, &sub1.expected_value, &prf.phase2_msgs, oracle) {
            Ok(sc) => sc,
            Err(e) => {
                return Err(e);
            },
        };
        Ok(
            LinearGKRSubclaim {
                u: sub1.point,
                v: sub2.point,
                expected_value: sub2.expected_value,
            },
        )
    }
}

// ---------------------------------------------------------------------------
// Completeness of the whole reduction.
// ---------------------------------------------------------------------------

/// A table of scaled entries sums to the scaled sum of products.
proof fn lemma_scaled_inner(a2: Seq<int>, t: Seq<int>, b: Seq<int>, c: int, n: nat)
    requires
        forall|y: int| 0 <= y < n ==> #[trigger] a2[y] == fmul(t[y], c),
    ensures
        sum_prod(a2, b, n) == fmul(c, sum_prod(t, b, n)),
    decreases n,
{
    if n == 0 {
        lemma_fmul_zero(c);
    } else {
        lemma_scaled_inner(a2, t, b, c, (n - 1) as nat);
        let s = sum_prod(t, b, (n - 1) as nat);
        let ty = t[n - 1];
        let fy = b[n - 1];
        lemma_fmul_distrib(c, s, fmul(ty, fy));
        lemma_fmul_comm(ty, c);
        lemma_fmul_assoc(c, ty, fy);
        assert(a2[n - 1] == fmul(ty, c));
        assert(fmul(fmul(ty, c), fy) == fmul(fmul(c, ty), fy));
    }
}

/// Completeness: for any well-formed `(f1, f2, f3, g)` of matching sizes,
/// the correctly computed claimed sum, and any oracle challenges shared by
/// both parties, every check of the verifier passes: both phase verdicts on
/// the honest transcripts are clean, and phase two's claimed sum equals
/// phase one's final expected value. The phase link holds at arbitrary
/// field challenges because fixing and evaluation are multilinear: folding
/// the `h_g` table commutes with the inner sum over `y`.
pub proof fn lemma_gkr_completeness(
    f1: SparseMLE,
    f2: DenseMLE,
    f3: DenseMLE,
    g: Seq<int>,
    ch: Seq<int>,
)
    requires
        f1.wf(),
        f2.wf(),
        f3.wf(),
        f1.num_vars as int == 3 * g.len(),
        f2.num_vars as int == g.len(),
        f3.num_vars as int == g.len(),
        ch.len() == 2 * g.len(),
    ensures
        ({
            let l = g.len() as int;
            let ch1 = ch.subrange(0, l);
            let ch2 = ch.subrange(l, 2 * l);
            let a1 = phase1_table(f1, f3, g);
            let b1 = vals(f2.evaluations@);
            let m1 = honest_msgs(a1, b1, ch1);
            let e1 = final_from(phase1_claim(f1, f2, f3, g), m1, ch1, 0);
            let a2 = phase2_table(f1, f2, f3, g, ch1);
            let b2 = vals(f3.evaluations@);
            let m2 = honest_msgs(a2, b2, ch2);
            &&& verdict_from(phase1_claim(f1, f2, f3, g), m1, ch1, 0) == None::<ProtocolError>
            &&& e1 == sum_prod(a2, b2, pow2(g.len()))
            &&& verdict_from(e1, m2, ch2, 0) == None::<ProtocolError>
        }),
{
    let l = g.len();
    let ln = l as nat;
    let ch1 = ch.subrange(0, l as int);
    let ch2 = ch.subrange(l as int, 2 * l as int);
    let a1 = phase1_table(f1, f3, g);
    let b1 = vals(f2.evaluations@);
    let m1 = honest_msgs(a1, b1, ch1);
    let a2 = phase2_table(f1, f2, f3, g, ch1);
    let b2 = vals(f3.evaluations@);
    let m2 = honest_msgs(a2, b2, ch2);
    let t1 = fold_all(sparse_table(f1), g);
    lemma_pow2_pos(ln);
    lemma_sparse_table_reduced(f1);
    lemma_fold_all_shape(sparse_table(f1), g, f1.num_vars as nat);
    assert(t1.len() == pow2((ln + ln) as nat));
    assert(reduced(a1)) by {
        assert forall|x: int| 0 <= x < a1.len() implies 0 <= #[trigger] a1[x] < fr_order() by {
            lemma_inner_reduced(t1, vals(f3.evaluations@), x * pow2(ln), pow2(ln));
        }
    }
    assert(reduced(a2)) by {
        assert forall|x: int| 0 <= x < a2.len() implies 0 <= #[trigger] a2[x] < fr_order() by {
            assert(a2[x] == fmul(
                fold_all(t1, ch1)[x],
                fold_all(vals(f2.evaluations@), ch1)[0],
            ));
        }
    }
    // Phase 1 is a complete session for the true claim.
    assert forall|i: int| 0 <= i < l implies #[trigger] m1[i] == crate::protocol::round_msg(
        fold_all(a1, ch1.take(i)),
        fold_all(b1, ch1.take(i)),
    ) by {}
    assert(ch1.take(0) =~= Seq::<int>::empty());
    lemma_session_completeness(a1, b1, ch1, m1, ln, 0);
    // Phase one's final expected value is the product of the two fully
    // folded tables.
    lemma_fold_all_shape(a1, ch1, ln);
    lemma_fold_all_shape(b1, ch1, ln);
    vstd::arithmetic::power2::lemma2_to64();
    let fa = fold_all(a1, ch1);
    let fb = fold_all(b1, ch1);
    assert(sum_prod(fa, fb, 0) == 0);
    assert(sum_prod(fa, fb, 1) == fadd(0, fmul(fa[0], fb[0])));
    lemma_fadd_zero(fmul(fa[0], fb[0]));
    // Folding h_g commutes with the inner sum: the folded h_g at the single
    // remaining point is the inner sum of the x-folded f1 against f3.
    lemma_fold_inner_all(t1, a1, vals(f3.evaluations@), ln, ln, ch1);
    let t2 = fold_all(t1, ch1);
    assert(fa[0] == inner_sum(t2, vals(f3.evaluations@), 0 * pow2(ln) as int, pow2(ln)));
    lemma_inner_off_zero(t2, vals(f3.evaluations@), pow2(ln));
    assert(fa[0] == sum_prod(t2, b2, pow2(ln)));
    // The phase-two claim is the same value.
    let f2u = fold_all(vals(f2.evaluations@), ch1)[0];
    assert(fb[0] == f2u);
    assert forall|y: int| 0 <= y < pow2(ln) implies #[trigger] a2[y] == fmul(t2[y], f2u) by {}
    lemma_scaled_inner(a2, t2, b2, f2u, pow2(ln));
    lemma_fmul_comm(fa[0], fb[0]);
    assert(sum_prod(a2, b2, pow2(ln)) == final_from(phase1_claim(f1, f2, f3, g), m1, ch1, 0));
    // Phase 2 is a complete session for that claim.
    assert forall|i: int| 0 <= i < l implies #[trigger] m2[i] == crate::protocol::round_msg(
        fold_all(a2, ch2.take(i)),
        fold_all(b2, ch2.take(i)),
    ) by {}
    assert(ch2.take(0) =~= Seq::<int>::empty());
    lemma_session_completeness(a2, b2, ch2, m2, ln, 0);
}

} // verus!
