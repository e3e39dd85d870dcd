use rand::rngs::StdRng;
use rand::{RngCore, SeedableRng};
use titan::field::{fr_add, fr_from_raw, fr_from_u64, fr_mul, fr_one, fr_sub, fr_zero, Fr};
use titan::snark_prover::{R1csCombine, ReduceCombine};
use titan::field_sumcheck::{prove, verify, IdentityCombine, ProductCombine};
use titan::multilinear::MultilinearPoly;
use titan::transcript::TitanTranscript;

fn fs_rand_scalar(rng: &mut StdRng) -> Fr {
    let mut b = [0u8; 32];
    rng.fill_bytes(&mut b);
    fr_from_raw(&b)
}

#[test]
fn test_identity_sumcheck() {
    let mut rng = StdRng::seed_from_u64(42);
    let num_vars = 4;
    let n = 1 << num_vars;
    let coeffs: Vec<Fr> = (0..n).map(|_| fs_rand_scalar(&mut rng)).collect();
    let poly = MultilinearPoly::new(coeffs.clone());
    let expected_sum = coeffs.iter().fold(fr_zero(), |acc, x| fr_add(&acc, x));

    let mut prover_transcript = TitanTranscript::new("field_sumcheck_test");
    let (proof, challenges) = prove(vec![poly.clone()], &IdentityCombine, 1, &mut prover_transcript);

    let mut verifier_transcript = TitanTranscript::new("field_sumcheck_test");
    let subclaim = verify(&proof, expected_sum, num_vars, 1, &mut verifier_transcript).unwrap();
    assert_eq!(subclaim.point, challenges);

    let oracle_eval = poly.evaluate(&subclaim.point);
    assert_eq!(oracle_eval, subclaim.expected_evaluation);
}

#[test]
fn test_product_sumcheck() {
    let mut rng = StdRng::seed_from_u64(42);
    let num_vars = 5;
    let n = 1 << num_vars;
    let coeffs_p: Vec<Fr> = (0..n).map(|_| fs_rand_scalar(&mut rng)).collect();
    let coeffs_q: Vec<Fr> = (0..n).map(|_| fs_rand_scalar(&mut rng)).collect();
    let poly_p = MultilinearPoly::new(coeffs_p.clone());
    let poly_q = MultilinearPoly::new(coeffs_q.clone());
    let expected_sum = coeffs_p
        .iter()
        .zip(coeffs_q.iter())
        .fold(fr_zero(), |acc, (a, b)| fr_add(&acc, &fr_mul(a, b)));

    let mut prover_transcript = TitanTranscript::new("field_sumcheck_product");
    let (proof, challenges) = prove(
        vec![poly_p.clone(), poly_q.clone()],
        &ProductCombine,
        2,
        &mut prover_transcript,
    );

    let mut verifier_transcript = TitanTranscript::new("field_sumcheck_product");
    let subclaim = verify(&proof, expected_sum, num_vars, 2, &mut verifier_transcript).unwrap();
    assert_eq!(subclaim.point, challenges);

    let eval_p = poly_p.evaluate(&subclaim.point);
    let eval_q = poly_q.evaluate(&subclaim.point);
    assert_eq!(fr_mul(&eval_p, &eval_q), subclaim.expected_evaluation);
}

#[test]
fn test_soundness_rejection() {
    let mut rng = StdRng::seed_from_u64(42);
    let num_vars = 3;
    let n = 1 << num_vars;
    let coeffs: Vec<Fr> = (0..n).map(|_| fs_rand_scalar(&mut rng)).collect();
    let poly = MultilinearPoly::new(coeffs.clone());
    let expected_sum = coeffs.iter().fold(fr_zero(), |acc, x| fr_add(&acc, x));

    let mut prover_transcript = TitanTranscript::new("field_sumcheck_soundness");
    let (mut proof, _challenges) = prove(vec![poly.clone()], &IdentityCombine, 1, &mut prover_transcript);

    proof.round_evals[0][0] = fr_add(&proof.round_evals[0][0], &fr_one());

    let mut verifier_transcript = TitanTranscript::new("field_sumcheck_soundness");
    let result = verify(&proof, expected_sum, num_vars, 1, &mut verifier_transcript);
    assert!(result.is_err());
    assert_eq!(result.unwrap_err(), "round check failed: g(0) + g(1) != prev_claim");
}

#[test]
fn sumcheck_rejects_wrong_round_count() {
    let coeffs: Vec<Fr> = (0..4u64).map(fr_from_u64).collect();
    let poly = MultilinearPoly::new(coeffs);
    let mut prover_transcript = TitanTranscript::new("rounds");
    let (proof, _) = prove(vec![poly], &IdentityCombine, 1, &mut prover_transcript);
    let mut verifier_transcript = TitanTranscript::new("rounds");
    let result = verify(&proof, fr_from_u64(6), 3, 1, &mut verifier_transcript);
    assert_eq!(result.unwrap_err(), "wrong number of rounds in proof");
}

#[test]
fn sumcheck_proof_size_counts_all_messages() {
    let coeffs: Vec<Fr> = (0..8u64).map(fr_from_u64).collect();
    let poly = MultilinearPoly::new(coeffs);
    let mut t = TitanTranscript::new("size");
    let (proof, ch) = prove(vec![poly], &IdentityCombine, 1, &mut t);
    assert_eq!(ch.len(), 3);
    assert_eq!(proof.get_proof_size(), 6);
    // first round: g(0) = 0 + 2 + 4 + 6 = 12, g(1) = 1 + 3 + 5 + 7 = 16
    assert_eq!(proof.round_evals[0], vec![fr_from_u64(12), fr_from_u64(16)]);
}

#[test]
fn r1cs_combine_sumcheck_accepts_honest_proof() {
    let mut rng = StdRng::seed_from_u64(11);
    let num_vars = 4;
    let n = 1 << num_vars;
    let tabs: Vec<Vec<Fr>> = (0..4).map(|_| (0..n).map(|_| fs_rand_scalar(&mut rng)).collect()).collect();
    let polys: Vec<MultilinearPoly<Fr>> = tabs.iter().map(|t| MultilinearPoly::new(t.clone())).collect();
    let mut expected_sum = fr_zero();
    for b in 0..n {
        let g = fr_mul(&tabs[0][b], &fr_sub(&fr_mul(&tabs[1][b], &tabs[2][b]), &tabs[3][b]));
        expected_sum = fr_add(&expected_sum, &g);
    }
    let mut prover_transcript = TitanTranscript::new("field_sumcheck_r1cs");
    let (proof, challenges) = prove(polys.clone(), &R1csCombine, 3, &mut prover_transcript);
    let mut verifier_transcript = TitanTranscript::new("field_sumcheck_r1cs");
    let subclaim = verify(&proof, expected_sum, num_vars, 3, &mut verifier_transcript).unwrap();
    assert_eq!(subclaim.point, challenges);
    let ev: Vec<Fr> = polys.iter().map(|p| p.evaluate(&subclaim.point)).collect();
    let g = fr_mul(&ev[0], &fr_sub(&fr_mul(&ev[1], &ev[2]), &ev[3]));
    assert_eq!(g, subclaim.expected_evaluation);
}

#[test]
fn reduce_combine_sumcheck_accepts_honest_proof() {
    let mut rng = StdRng::seed_from_u64(12);
    let num_vars = 3;
    let n = 1 << num_vars;
    let rho = fs_rand_scalar(&mut rng);
    let tabs: Vec<Vec<Fr>> = (0..4).map(|_| (0..n).map(|_| fs_rand_scalar(&mut rng)).collect()).collect();
    let polys: Vec<MultilinearPoly<Fr>> = tabs.iter().map(|t| MultilinearPoly::new(t.clone())).collect();
    let mut expected_sum = fr_zero();
    for b in 0..n {
        let g = fr_add(&fr_mul(&tabs[0][b], &tabs[1][b]), &fr_mul(&rho, &fr_mul(&tabs[2][b], &tabs[3][b])));
        expected_sum = fr_add(&expected_sum, &g);
    }
    let comb = ReduceCombine { rho };
    let mut prover_transcript = TitanTranscript::new("field_sumcheck_reduce");
    let (proof, challenges) = prove(polys.clone(), &comb, 2, &mut prover_transcript);
    let mut verifier_transcript = TitanTranscript::new("field_sumcheck_reduce");
    let subclaim = verify(&proof, expected_sum, num_vars, 2, &mut verifier_transcript).unwrap();
    assert_eq!(subclaim.point, challenges);
    let ev: Vec<Fr> = polys.iter().map(|p| p.evaluate(&subclaim.point)).collect();
    let g = fr_add(&fr_mul(&ev[0], &ev[1]), &fr_mul(&rho, &fr_mul(&ev[2], &ev[3])));
    assert_eq!(g, subclaim.expected_evaluation);
}
