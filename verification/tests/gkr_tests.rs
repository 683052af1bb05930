use gkr::field::Fe;
use gkr::gkr_verifier::LinearGKRVerifier;
use gkr::ml_extension::{DenseMLE, SparseMLE};
use gkr::protocol::{
    apply_challenge, apply_challenge_verifier, evaluate_univariate, finalize, prove_round,
    prover_init, verifier_init, verify_round, ChallengeOracle, ProtocolError,
};
use gkr::prover::{
    compute_claimed_sum, compute_dense_sum, initialize_phase_one, initialize_phase_two,
    LinearGKRProof, LinearGKRProver,
};
use gkr::sumcheck::{get_r, max_degrees, n_to_vec, slow_verify, verify, Monomial, MultiPoly, Prover};

fn fe(x: u64) -> Fe {
    Fe::from_u64(x)
}

fn fev(xs: &[u64]) -> Vec<Fe> {
    xs.iter().map(|&x| fe(x)).collect()
}

fn oracle_of(xs: &[u64]) -> ChallengeOracle {
    ChallengeOracle::new(fev(xs))
}

#[test]
fn field_arithmetic() {
    assert!(fe(2).plus(&fe(3)).equals(&fe(5)));
    assert!(fe(6).times(&fe(7)).equals(&fe(42)));
    assert!(fe(2).minus(&fe(3)).plus(&fe(3)).equals(&fe(2)));
    assert!(fe(2).pow_u64(10).equals(&fe(1024)));
    assert!(Fe::zero().is_zero());
    assert!(!Fe::one().is_zero());
    assert!(Fe::one().equals(&fe(1)));
}

#[test]
fn dense_evaluate_is_msb_first_lookup() {
    let f = DenseMLE::from_evaluations_vec(2, fev(&[10, 11, 12, 13]));
    assert!(f.evaluate(&fev(&[0, 0])).equals(&fe(10)));
    assert!(f.evaluate(&fev(&[0, 1])).equals(&fe(11)));
    assert!(f.evaluate(&fev(&[1, 0])).equals(&fe(12)));
    assert!(f.evaluate(&fev(&[1, 1])).equals(&fe(13)));
    // At field points the value is the multilinear interpolation:
    // f(9,0) = 10 + 9*(12-10) = 28 and f(2,3) = 14 + 3*(15-14) = 17.
    assert!(f.evaluate(&fev(&[9, 0])).equals(&fe(28)));
    assert!(f.evaluate(&fev(&[2, 3])).equals(&fe(17)));
}

#[test]
fn scale_multiplies_every_entry() {
    let mut f = DenseMLE::from_evaluations_vec(1, fev(&[2, 3]));
    f.scale(&fe(4));
    assert!(f.evaluations[0].equals(&fe(8)));
    assert!(f.evaluations[1].equals(&fe(12)));
}

#[test]
fn fix_variables_keeps_matching_prefix() {
    let f = SparseMLE { num_vars: 2, evaluations: vec![(0, fe(5)), (3, fe(7))] };
    let g = f.fix_variables(&fev(&[1]));
    assert_eq!(g.num_vars, 1);
    let d = g.to_dense_multilinear_extension();
    assert!(d.evaluate(&fev(&[0])).equals(&Fe::zero()));
    assert!(d.evaluate(&fev(&[1])).equals(&fe(7)));
}

#[test]
fn sparse_dense_equivalence_scenario() {
    let f = SparseMLE { num_vars: 3, evaluations: vec![(5, fe(9))] };
    let d = f.to_dense_multilinear_extension();
    assert!(d.evaluate(&fev(&[1, 0, 1])).equals(&fe(9)));
    assert!(d.evaluate(&fev(&[0, 0, 0])).equals(&Fe::zero()));
}

#[test]
fn fix_then_evaluate_scenario() {
    let f = SparseMLE {
        num_vars: 3,
        evaluations: vec![(1, fe(2)), (5, fe(9)), (6, fe(4))],
    };
    let fixed = f.fix_variables(&fev(&[1]));
    let lhs = fixed.to_dense_multilinear_extension().evaluate(&fev(&[0, 1]));
    let rhs = f.to_dense_multilinear_extension().evaluate(&fev(&[1, 0, 1]));
    assert!(lhs.equals(&rhs));
    assert!(lhs.equals(&fe(9)));
    // The law holds at field prefixes too: fixing the first variable at 7
    // interpolates, and 0 + 7*(9-0) = 63 becomes 2 + 7*(9-2) = 51 at index 1,
    // 0 + 7*(4-0) = 28 at index 2.
    let fixed7 = f.fix_variables(&fev(&[7]));
    let lhs7 = fixed7.to_dense_multilinear_extension().evaluate(&fev(&[1, 0]));
    let rhs7 = f.to_dense_multilinear_extension().evaluate(&fev(&[7, 1, 0]));
    assert!(lhs7.equals(&rhs7));
    assert!(lhs7.equals(&fe(28)));
}

#[test]
fn protocol_session_accepts_true_claim() {
    let a = DenseMLE::from_evaluations_vec(1, fev(&[2, 3]));
    let b = DenseMLE::from_evaluations_vec(1, fev(&[4, 5]));
    let mut pst = prover_init(&a, &b);
    let msg = prove_round(&pst);
    // g(0) + g(1) = 2*4 + 3*5 = 23.
    let at0 = evaluate_univariate(&msg, &Fe::zero());
    let at1 = evaluate_univariate(&msg, &Fe::one());
    assert!(at0.plus(&at1).equals(&fe(23)));

    let mut vst = verifier_init(1, &fe(23));
    assert!(verify_round(&mut vst, &msg).is_ok());
    let r = fe(7);
    apply_challenge_verifier(&mut vst, &r);
    apply_challenge(&mut pst, &r);
    let sub = finalize(vst).unwrap();
    assert!(sub.expected_value.equals(&evaluate_univariate(&msg, &r)));
    assert_eq!(sub.point.len(), 1);
    assert!(sub.point[0].equals(&r));
}

#[test]
fn protocol_rejects_wrong_claim_and_degree() {
    let a = DenseMLE::from_evaluations_vec(1, fev(&[2, 3]));
    let b = DenseMLE::from_evaluations_vec(1, fev(&[4, 5]));
    let pst = prover_init(&a, &b);
    let msg = prove_round(&pst);
    let mut vst = verifier_init(1, &fe(24));
    assert_eq!(verify_round(&mut vst, &msg), Err(ProtocolError::RoundCheckFailed));

    let mut vst2 = verifier_init(1, &fe(23));
    let long_msg = fev(&[1, 2, 3, 4]);
    assert_eq!(verify_round(&mut vst2, &long_msg), Err(ProtocolError::DegreeTooHigh));
}

fn all_ones_f1() -> SparseMLE {
    let entries: Vec<(usize, Fe)> = (0..8).map(|i| (i, fe(1))).collect();
    SparseMLE { num_vars: 3, evaluations: entries }
}

#[test]
fn phase_one_table_of_constant_circuit() {
    let f1 = all_ones_f1();
    let f3 = DenseMLE::from_evaluations_vec(1, fev(&[4, 5]));
    let g = fev(&[1]);
    let (h_g, f1_fixed_g) = initialize_phase_one(&f1, &f3, &g);
    assert_eq!(h_g.num_vars, 1);
    // h_g(x) = 4 + 5 = 9 for every x.
    assert!(h_g.evaluations[0].equals(&fe(9)));
    assert!(h_g.evaluations[1].equals(&fe(9)));
    let f2 = DenseMLE::from_evaluations_vec(1, fev(&[2, 3]));
    // claimed_sum = 9*2 + 9*3 = 45.
    assert!(compute_claimed_sum(&h_g, &f2).equals(&fe(45)));
    // Phase two: fix x = 1, leaving f1(g,1,y) = 1 for both y.
    let f1_fixed_gu = initialize_phase_two(&f1_fixed_g, &fev(&[1]));
    assert_eq!(f1_fixed_gu.num_vars, 1);
    assert!(compute_dense_sum(&f1_fixed_gu, &f3).equals(&fe(9)));
}

#[test]
fn gkr_scenario_accepts_45_rejects_44() {
    let f1 = all_ones_f1();
    let f2 = DenseMLE::from_evaluations_vec(1, fev(&[2, 3]));
    let f3 = DenseMLE::from_evaluations_vec(1, fev(&[4, 5]));
    let g = fev(&[1]);
    // Both parties read the same Boolean challenges.
    let mut prover_oracle = oracle_of(&[1, 0]);
    let proof = LinearGKRProver::prove(&f1, &f2, &f3, &g, &mut prover_oracle);
    assert_eq!(proof.phase1_msgs.len(), 1);
    assert_eq!(proof.phase2_msgs.len(), 1);

    let mut verifier_oracle = oracle_of(&[1, 0]);
    let sub = LinearGKRVerifier::verify(1, &fe(45), &proof, &mut verifier_oracle).unwrap();
    assert_eq!(sub.u.len(), 1);
    assert_eq!(sub.v.len(), 1);
    assert!(sub.u[0].equals(&fe(1)));
    assert!(sub.v[0].equals(&Fe::zero()));
    // expected_value should be f1(g,u,v)*f2(u)*f3(v) = 1*3*4 = 12.
    assert!(sub.expected_value.equals(&fe(12)));

    let mut verifier_oracle2 = oracle_of(&[1, 0]);
    let rejected = LinearGKRVerifier::verify(1, &fe(44), &proof, &mut verifier_oracle2);
    assert_eq!(rejected.err(), Some(ProtocolError::RoundCheckFailed));
}

#[test]
fn gkr_accepts_at_field_challenges() {
    // Completeness does not need Boolean challenges: with u = 7 and v = 11
    // the same claim 45 verifies, and the subclaim's expected value is
    // f1(g,u,v)*f2(u)*f3(v) = 1 * (2+7) * (4+11) = 135.
    let f1 = all_ones_f1();
    let f2 = DenseMLE::from_evaluations_vec(1, fev(&[2, 3]));
    let f3 = DenseMLE::from_evaluations_vec(1, fev(&[4, 5]));
    let g = fev(&[1]);
    let mut prover_oracle = oracle_of(&[7, 11]);
    let proof = LinearGKRProver::prove(&f1, &f2, &f3, &g, &mut prover_oracle);
    let mut verifier_oracle = oracle_of(&[7, 11]);
    let sub = LinearGKRVerifier::verify(1, &fe(45), &proof, &mut verifier_oracle).unwrap();
    assert!(sub.u[0].equals(&fe(7)));
    assert!(sub.v[0].equals(&fe(11)));
    assert!(sub.expected_value.equals(&fe(135)));

    let mut verifier_oracle2 = oracle_of(&[7, 11]);
    let rejected = LinearGKRVerifier::verify(1, &fe(44), &proof, &mut verifier_oracle2);
    assert_eq!(rejected.err(), Some(ProtocolError::RoundCheckFailed));
}

#[test]
fn malformed_proof_is_rejected_before_rounds() {
    let msg = fev(&[1, 2, 3]);
    let proof = LinearGKRProof { phase1_msgs: vec![], phase2_msgs: vec![msg] };
    let mut oracle = oracle_of(&[1, 0]);
    let res = LinearGKRVerifier::verify(1, &fe(45), &proof, &mut oracle);
    assert_eq!(res.err(), Some(ProtocolError::DimensionMismatch));
    // No challenge was drawn.
    assert_eq!(oracle.next, 0);
}

fn example_poly() -> MultiPoly {
    // g(x0, x1) = 2*x0*x1 + x1; the sum over {0,1}^2 is 0 + 1 + 0 + 3 = 4.
    MultiPoly {
        num_vars: 2,
        terms: vec![
            Monomial { coeff: fe(2), powers: vec![(0, 1), (1, 1)] },
            Monomial { coeff: fe(1), powers: vec![(1, 1)] },
        ],
    }
}

#[test]
fn generic_engine_slow_verify() {
    let g = example_poly();
    assert!(slow_verify(&g, &fe(4)));
    assert!(!slow_verify(&g, &fe(5)));
}

#[test]
fn generic_engine_interactive_verify() {
    let g = example_poly();
    let mut oracle = oracle_of(&[7, 11]);
    assert!(verify(&g, &fe(4), &mut oracle));
    let mut oracle2 = oracle_of(&[7, 11]);
    assert!(!verify(&g, &fe(5), &mut oracle2));
}

#[test]
fn generic_engine_pieces() {
    let g = example_poly();
    let lookup = max_degrees(&g);
    assert_eq!(lookup, vec![1, 1]);
    assert!(g.evaluate(&fev(&[1, 1])).equals(&fe(3)));
    assert!(g.evaluate(&fev(&[4, 5])).equals(&fe(4 * 5 * 2 + 5)));
    let bits = n_to_vec(5, 3);
    assert!(bits[0].equals(&fe(1)));
    assert!(bits[1].equals(&Fe::zero()));
    assert!(bits[2].equals(&fe(1)));
    let p = Prover::new(&g);
    assert!(p.slow_sum_g().equals(&fe(4)));
}

#[test]
fn round_messages_are_consistent() {
    // Round consistency across a whole generic-engine session, by hand.
    let g = example_poly();
    let mut p = Prover::new(&g);
    let g1 = p.gen_uni_polynomial(None);
    let s = evaluate_univariate(&g1.coeffs, &Fe::zero()).plus(
        &evaluate_univariate(&g1.coeffs, &Fe::one()),
    );
    assert!(s.equals(&fe(4)));
    let r1 = fe(7);
    let expected = evaluate_univariate(&g1.coeffs, &r1);
    let g2 = p.gen_uni_polynomial(Some(r1));
    let s2 = evaluate_univariate(&g2.coeffs, &Fe::zero()).plus(
        &evaluate_univariate(&g2.coeffs, &Fe::one()),
    );
    assert!(s2.equals(&expected));
}

#[test]
fn randomness_source_yields_a_value() {
    let r = get_r();
    assert!(r.is_some());
}

#[test]
fn oracle_replays_in_order() {
    let mut oracle = oracle_of(&[3, 1, 4]);
    assert!(oracle.next_challenge().equals(&fe(3)));
    assert!(oracle.next_challenge().equals(&fe(1)));
    assert!(oracle.next_challenge().equals(&fe(4)));
}

#[test]
fn univariate_evaluation_is_horner() {
    let coeffs = fev(&[1, 2, 3]);
    assert!(evaluate_univariate(&coeffs, &fe(2)).equals(&fe(1 + 2 * 2 + 3 * 4)));
    assert!(evaluate_univariate(&coeffs, &Fe::zero()).equals(&fe(1)));
}

#[test]
fn linear_gkr_test() {
    // The constant-one circuit over three variables, f2 = [2,3], f3 = [4,5],
    // g = [1]: the claimed sum 45 must verify.
    let f1 = all_ones_f1();
    let f2 = DenseMLE::from_evaluations_vec(1, fev(&[2, 3]));
    let f3 = DenseMLE::from_evaluations_vec(1, fev(&[4, 5]));
    let g = fev(&[1]);
    let mut prover_oracle = oracle_of(&[0, 1]);
    let proof = LinearGKRProver::prove(&f1, &f2, &f3, &g, &mut prover_oracle);
    let claimed_sum_phase1 = fe(45);
    let mut verifier_oracle = oracle_of(&[0, 1]);
    let subclaim = LinearGKRVerifier::verify(1, &claimed_sum_phase1, &proof, &mut verifier_oracle);
    assert!(subclaim.is_ok(), "Linear GKR proof verification failed");
}
