use rand::rngs::StdRng;
use rand::{RngCore, SeedableRng};
use titan::config::ProtoSumCheckGroup;
use titan::field::{fr_from_raw, Fr};
use titan::group::{pt_add, pt_eq, pt_generator, pt_scale, Pt};
use titan::multilinear::MultilinearPoly;
use titan::sumcheck::{
    check_openings_batch, opening_evaluations, SumCheckGroupBatchInstance, SumCheckGroupInstance,
};
use titan::transcript::TitanTranscript;
use titan::utils::{create_smooth_domain, generate_power_vec};

fn sg_rand_scalar(rng: &mut StdRng) -> Fr {
    let mut b = [0u8; 32];
    rng.fill_bytes(&mut b);
    fr_from_raw(&b)
}

fn sg_rand_poly(rng: &mut StdRng, m: usize) -> MultilinearPoly<Pt> {
    let coeffs: Vec<Pt> = (0..(1usize << m)).map(|_| pt_scale(&pt_generator(), &sg_rand_scalar(rng))).collect();
    MultilinearPoly::new(coeffs)
}

fn sg_leaves(poly: &MultilinearPoly<Pt>, domain: &[Fr], idxs: &[usize], w: usize) -> Vec<Vec<Pt>> {
    idxs.iter().map(|&i| poly.restrict_msb(&generate_power_vec(domain[i], w, false)).coeffs).collect()
}

fn sg_sorted_unique(q: &[usize]) -> Vec<usize> {
    let mut v = q.to_vec();
    v.sort();
    v.dedup();
    v
}

#[test]
fn test_sumcheck_prover() {
    let mut rng = StdRng::from_entropy();
    let m = 6;
    let l = 2;
    let poly = sg_rand_poly(&mut rng, m);
    let domain = create_smooth_domain(6);
    let alpha: Vec<Fr> = (0..m).map(|_| sg_rand_scalar(&mut rng)).collect();
    let sigma = poly.evaluate_msm(&alpha);
    let instance = SumCheckGroupInstance {
        m,
        l,
        domain_g: domain.clone(),
        commitment: vec![7u8; 32],
        alpha,
        sigma,
        num_queries: 20,
    };
    let mut transcript = TitanTranscript::new("sumcheck");
    let rounds = ProtoSumCheckGroup::prove_rounds(&instance, &poly, &mut transcript);
    assert_eq!(rounds.round_messages.len(), l);
    assert_eq!(rounds.g_poly.num_vars, m - l);
    assert_eq!(rounds.queries.len(), 20);
    // the first round sums to the claim
    assert!(pt_eq(&pt_add(&rounds.round_messages[0][0], &rounds.round_messages[0][1]), &instance.sigma));

    let mut transcript = TitanTranscript::new("sumcheck");
    let proof = ProtoSumCheckGroup::prove(&instance, &poly, &mut transcript);
    let leaf_indices = sg_sorted_unique(&rounds.queries);
    assert_eq!(proof.leaf_indices, leaf_indices);
    let leaves = sg_leaves(&poly, &domain, &leaf_indices, m - l);
    let expected = opening_evaluations(&leaves, &rounds.r_vec);
    assert_eq!(proof.evaluations.len(), expected.len());
    assert!(proof.evaluations.iter().zip(expected.iter()).all(|(x, y)| pt_eq(x, y)));
    assert!(proof.leaves.iter().zip(leaves.iter()).all(|(a, b)| a.iter().zip(b.iter()).all(|(x, y)| pt_eq(x, y))));
    let mut transcript = TitanTranscript::new("sumcheck");
    assert!(ProtoSumCheckGroup::verify(&proof, &instance, &mut transcript, true));
    let mut transcript = TitanTranscript::new("sumcheck");
    assert!(!ProtoSumCheckGroup::verify(&proof, &instance, &mut transcript, false));

    // a wrong claimed value is rejected
    let wrong = SumCheckGroupInstance {
        m,
        l,
        domain_g: domain.clone(),
        commitment: vec![7u8; 32],
        alpha: instance.alpha.clone(),
        sigma: pt_add(&instance.sigma, &pt_generator()),
        num_queries: 20,
    };
    let mut transcript = TitanTranscript::new("sumcheck");
    assert!(!ProtoSumCheckGroup::verify(&proof, &wrong, &mut transcript, true));
}

#[test]
fn sumcheck_group_rejects_tampered_evaluation() {
    let mut rng = StdRng::seed_from_u64(11);
    let m = 5;
    let l = 2;
    let poly = sg_rand_poly(&mut rng, m);
    let domain = create_smooth_domain(5);
    let alpha: Vec<Fr> = (0..m).map(|_| sg_rand_scalar(&mut rng)).collect();
    let sigma = poly.evaluate_msm(&alpha);
    let instance = SumCheckGroupInstance {
        m,
        l,
        domain_g: domain.clone(),
        commitment: vec![1u8; 32],
        alpha,
        sigma,
        num_queries: 8,
    };
    let mut transcript = TitanTranscript::new("tamper");
    let mut proof = ProtoSumCheckGroup::prove(&instance, &poly, &mut transcript);
    proof.evaluations[0] = pt_add(&proof.evaluations[0], &pt_generator());
    let mut transcript = TitanTranscript::new("tamper");
    assert!(!ProtoSumCheckGroup::verify(&proof, &instance, &mut transcript, true));
}

#[test]
fn batch_sumcheck_round_trip() {
    let mut rng = StdRng::seed_from_u64(5);
    let m = 5;
    let l = 2;
    let polys: Vec<MultilinearPoly<Pt>> = (0..2).map(|_| sg_rand_poly(&mut rng, m)).collect();
    let domain = create_smooth_domain(5);
    let alpha: Vec<Fr> = (0..m).map(|_| sg_rand_scalar(&mut rng)).collect();
    let sigmas: Vec<Pt> = polys.iter().map(|p| p.evaluate_msm(&alpha)).collect();
    let instance = SumCheckGroupBatchInstance {
        m,
        l,
        domain_g: domain.clone(),
        commitments: vec![vec![3u8; 32], vec![4u8; 32]],
        alpha,
        sigmas,
        num_queries: 10,
    };
    let mut transcript = TitanTranscript::new("batch");
    let (proof, gamma) = ProtoSumCheckGroup::prove_batch(&instance, &polys, &mut transcript);
    let mut transcript = TitanTranscript::new("batch");
    let (rounds, gamma1) = ProtoSumCheckGroup::prove_batch_rounds(&instance, &polys, &mut transcript);
    assert_eq!(gamma, gamma1);
    let leaf_indices = sg_sorted_unique(&rounds.queries);
    assert_eq!(proof.leaf_indices, leaf_indices);
    assert_eq!(proof.leaves.len(), 2);
    assert_eq!(proof.evaluations.len(), 2);
    for (i, p) in polys.iter().enumerate() {
        let expected = sg_leaves(p, &domain, &leaf_indices, m - l);
        let ev = opening_evaluations(&expected, &rounds.r_vec);
        assert!(proof.evaluations[i].iter().zip(ev.iter()).all(|(x, y)| pt_eq(x, y)));
    }
    let mut transcript = TitanTranscript::new("batch");
    let (ok, gamma2) = ProtoSumCheckGroup::verify_batch(&proof, &instance, &mut transcript, true);
    assert!(ok);
    assert_eq!(gamma, gamma2);
}

#[test]
fn openings_batch_check_accepts_true_values_only() {
    let mut rng = StdRng::seed_from_u64(33);
    let k = 3usize;
    let leaves: Vec<Vec<Pt>> = (0..4).map(|_| sg_rand_poly(&mut rng, k).coeffs).collect();
    let alpha: Vec<Fr> = (0..k).map(|_| sg_rand_scalar(&mut rng)).collect();
    let claimed = opening_evaluations(&leaves, &alpha);
    let r = sg_rand_scalar(&mut rng);
    assert!(check_openings_batch(&leaves, &alpha, &claimed, &r));
    let mut wrong = claimed.clone();
    wrong[2] = pt_add(&wrong[2], &pt_generator());
    assert!(!check_openings_batch(&leaves, &alpha, &wrong, &r));
    assert!(check_openings_batch(&Vec::new(), &alpha, &Vec::new(), &r));
}
