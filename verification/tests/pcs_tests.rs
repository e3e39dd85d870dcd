use rand::rngs::StdRng;
use rand::{RngCore, SeedableRng};
use titan::config::TitanSetupConfig;
use titan::field::{fr_add, fr_from_raw, fr_from_u64, fr_one, Fr};
use titan::group::{pt_eq, Pt};
use titan::multilinear::MultilinearPoly;
use titan::pcs::{coset_leaves, opened_positions, TitanPolyCommitment};
use titan::traits::InnerProduct;
use titan::utils::{create_smooth_domain, generate_power_vec};

fn pcs_rand_scalar(rng: &mut StdRng) -> Fr {
    let mut b = [0u8; 32];
    rng.fill_bytes(&mut b);
    fr_from_raw(&b)
}

fn pcs_config(m: usize, m1: usize, l1: usize, l2: usize, num_queries: usize) -> TitanSetupConfig {
    TitanSetupConfig {
        m,
        m1,
        l1,
        domain_g1_size: m1 - l1 + 4,
        num_queries,
        l2,
        domain_g2_size: (m - m1) - l2 + 5,
        num_merkle_nodes: 0,
    }
}

#[test]
fn test_titan_prover() {
    let mut rng = StdRng::from_entropy();
    let mut config = pcs_config(10, 5, 1, 3, 32);
    let titan_pp = TitanPolyCommitment::setup(&config);
    let f_coeffs: Vec<Fr> = (0..(1usize << config.m)).map(|_| pcs_rand_scalar(&mut rng)).collect();
    let f_poly = MultilinearPoly::new(f_coeffs);
    let alpha: Vec<Fr> = (0..config.m).map(|_| pcs_rand_scalar(&mut rng)).collect();
    let sigma = f_poly.evaluate(&alpha);

    let committed = TitanPolyCommitment::commit(&titan_pp, &f_poly);
    let root = vec![9u8; 32];
    let proof = TitanPolyCommitment::prove(&titan_pp, &f_poly, &committed, &root, &alpha);
    assert!(TitanPolyCommitment::verify(&titan_pp, &root, &alpha, &sigma, &proof, true));

    config.num_merkle_nodes = 0;
    let size = config.estimate_metrics();
    assert!(size > 0);
}

#[test]
fn titan_rejects_wrong_value_and_failed_paths() {
    let mut rng = StdRng::seed_from_u64(21);
    let config = pcs_config(8, 4, 1, 2, 16);
    let pp = TitanPolyCommitment::setup(&config);
    let f_coeffs: Vec<Fr> = (0..(1usize << config.m)).map(|_| pcs_rand_scalar(&mut rng)).collect();
    let f_poly = MultilinearPoly::new(f_coeffs);
    let alpha: Vec<Fr> = (0..config.m).map(|_| pcs_rand_scalar(&mut rng)).collect();
    let sigma = f_poly.evaluate(&alpha);
    let committed = TitanPolyCommitment::commit(&pp, &f_poly);
    let root = vec![5u8; 32];
    let proof = TitanPolyCommitment::prove(&pp, &f_poly, &committed, &root, &alpha);
    assert!(TitanPolyCommitment::verify(&pp, &root, &alpha, &sigma, &proof, true));
    let wrong = fr_add(&sigma, &fr_one());
    assert!(!TitanPolyCommitment::verify(&pp, &root, &alpha, &wrong, &proof, true));
    assert!(!TitanPolyCommitment::verify(&pp, &root, &alpha, &sigma, &proof, false));
    let other_root = vec![6u8; 32];
    assert!(!TitanPolyCommitment::verify(&pp, &other_root, &alpha, &sigma, &proof, true));
    // the proof size: 32 bytes for the partial value and for each element
    let sp = &proof.partial_eval_proof;
    let leaves: usize = sp.leaves.iter().map(|l| l.len()).sum();
    let bp = &proof.bullet_proof;
    let expected = 32
        + 32 * (7 + 3 * sp.round_messages.len() + leaves + sp.g_poly.coeffs.len())
        + 32 * (4 * bp.cm_L.len() + bp.g_folded_poly.coeffs.len() + bp.a_folded_poly.coeffs.len());
    assert_eq!(proof.get_proof_size(7), expected);
}

#[test]
fn titan_commit_is_chunk_commitments() {
    let mut rng = StdRng::seed_from_u64(3);
    let config = pcs_config(6, 3, 1, 1, 4);
    let pp = TitanPolyCommitment::setup(&config);
    assert_eq!(pp.domain_g1.len(), 1 << (config.m1 - config.l1 + 4));
    let f_coeffs: Vec<Fr> = (0..(1usize << config.m)).map(|_| pcs_rand_scalar(&mut rng)).collect();
    let f_poly = MultilinearPoly::new(f_coeffs.clone());
    let committed = TitanPolyCommitment::commit(&pp, &f_poly);
    assert_eq!(committed.num_vars, 3);
    for i in 0..8 {
        let chunk = &f_coeffs[i * 8..(i + 1) * 8];
        let expected = Pt::inner_product(&pp.bp_setup.c_poly.coeffs, chunk);
        assert!(pt_eq(&committed.coeffs[i], &expected));
    }
}

#[test]
fn opened_positions_sorts_and_dedups() {
    let r = opened_positions(&vec![5, 1, 5, 3, 1, 0], 8);
    assert_eq!(r, vec![0, 1, 3, 5]);
    let r = opened_positions(&vec![], 4);
    assert!(r.is_empty());
}

#[test]
fn coset_leaves_restrict_the_last_variables() {
    let mut rng = StdRng::seed_from_u64(8);
    let coeffs: Vec<Pt> = (0..16)
        .map(|_| titan::group::pt_scale(&titan::group::pt_generator(), &pcs_rand_scalar(&mut rng)))
        .collect();
    let poly = MultilinearPoly::new(coeffs);
    let domain = create_smooth_domain(3);
    let leaves = coset_leaves(&poly, 1, &domain, &vec![2, 6]);
    assert_eq!(leaves.len(), 2);
    for (t, &i) in [2usize, 6].iter().enumerate() {
        let expected = poly.restrict_msb(&generate_power_vec(domain[i], 3, false)).coeffs;
        assert_eq!(leaves[t].len(), 2);
        for j in 0..2 {
            assert!(pt_eq(&leaves[t][j], &expected[j]));
        }
    }
}

#[test]
fn test_titan_aggregate_proof() {
    let mut rng = StdRng::from_entropy();
    let m = 6usize;
    let mut config = pcs_config(m + 2, 4, 1, 2, 64);
    let titan_pp = TitanPolyCommitment::setup(&config);
    let coeffs_1: Vec<Fr> = (0..(1usize << m)).map(|_| pcs_rand_scalar(&mut rng)).collect();
    let coeffs_2: Vec<Fr> = (0..(1usize << m)).map(|_| pcs_rand_scalar(&mut rng)).collect();
    let coeffs_3: Vec<Fr> = (0..(1usize << m)).map(|_| fr_from_u64(rng.next_u32() as u64)).collect();
    let coeffs_4: Vec<Fr> = (0..(1usize << m)).map(|_| fr_from_u64(rng.next_u32() as u64)).collect();
    let polys = vec![
        MultilinearPoly::new(coeffs_1.clone()),
        MultilinearPoly::new(coeffs_2.clone()),
        MultilinearPoly::new(coeffs_3.clone()),
        MultilinearPoly::new(coeffs_4.clone()),
    ];
    let coeffs: Vec<Fr> = [coeffs_1.as_slice(), coeffs_2.as_slice(), coeffs_3.as_slice(), coeffs_4.as_slice()].concat();
    let agg_poly = MultilinearPoly::new(coeffs);

    let agg_comm = TitanPolyCommitment::aggregate_commit(&titan_pp, &polys);
    let direct = TitanPolyCommitment::commit(&titan_pp, &agg_poly);
    for i in 0..agg_comm.coeffs.len() {
        assert!(pt_eq(&agg_comm.coeffs[i], &direct.coeffs[i]));
    }
    let root = vec![2u8; 32];
    let point: Vec<Fr> = (0..m).map(|_| pcs_rand_scalar(&mut rng)).collect();
    let agg_proof = TitanPolyCommitment::aggregate_prove(&titan_pp, &agg_poly, &agg_comm, &root, &point, 4)
        .expect("the challenge point can be opened");
    for (i, p) in polys.iter().enumerate() {
        assert_eq!(agg_proof.evaluations[i], p.evaluate(&point));
    }
    let res = TitanPolyCommitment::aggregate_verify(&titan_pp, &root, &point, m + 2, 4, &agg_proof, true);
    config.num_merkle_nodes = 0;
    config.estimate_metrics();
    assert_eq!(res, true, "failed to verify proof");
}

#[test]
fn aggregate_rejects_a_wrong_value() {
    let mut rng = StdRng::seed_from_u64(44);
    let m = 4usize;
    let config = pcs_config(m + 1, 3, 1, 1, 8);
    let pp = TitanPolyCommitment::setup(&config);
    let polys: Vec<MultilinearPoly<Fr>> = (0..2)
        .map(|_| MultilinearPoly::new((0..(1usize << m)).map(|_| pcs_rand_scalar(&mut rng)).collect()))
        .collect();
    let agg_poly =
        MultilinearPoly::new([polys[0].coeffs.as_slice(), polys[1].coeffs.as_slice()].concat());
    let comm = TitanPolyCommitment::aggregate_commit(&pp, &polys);
    let root = vec![4u8; 32];
    let point: Vec<Fr> = (0..m).map(|_| pcs_rand_scalar(&mut rng)).collect();
    let mut proof = TitanPolyCommitment::aggregate_prove(&pp, &agg_poly, &comm, &root, &point, 2).unwrap();
    assert!(TitanPolyCommitment::aggregate_verify(&pp, &root, &point, m + 1, 2, &proof, true));
    proof.evaluations[1] = fr_add(&proof.evaluations[1], &fr_one());
    assert!(!TitanPolyCommitment::aggregate_verify(&pp, &root, &point, m + 1, 2, &proof, true));
}

#[test]
fn test_titan_batch_proof() {
    let mut rng = StdRng::from_entropy();
    let mut config = pcs_config(8, 4, 1, 2, 64);
    let titan_pp = TitanPolyCommitment::setup(&config);
    let k = 2usize;
    let mut polys = Vec::with_capacity(k);
    let mut comms = Vec::with_capacity(k);
    for _ in 0..k {
        let coeffs: Vec<Fr> = (0..(1usize << config.m)).map(|_| fr_one()).collect();
        let poly = MultilinearPoly::new(coeffs);
        let comm = TitanPolyCommitment::commit(&titan_pp, &poly);
        polys.push(poly);
        comms.push(comm);
    }
    let alpha: Vec<Fr> = (0..config.m).map(|_| pcs_rand_scalar(&mut rng)).collect();
    let sigmas: Vec<Fr> = polys.iter().map(|p| p.evaluate(&alpha)).collect();
    let roots = vec![vec![1u8; 32], vec![2u8; 32]];
    let batch_proof = TitanPolyCommitment::batch_prove(&titan_pp, &polys, &comms, &roots, &alpha);
    let res = TitanPolyCommitment::batch_verify(&titan_pp, &roots, &alpha, &sigmas, &batch_proof, true);
    config.num_merkle_nodes = 1100;
    config.estimate_metrics();
    assert!(res, "Batch proof verification failed");
    assert_eq!(batch_proof.get_honest_oracle_proof_size(), 1 << (config.m1 - config.l1));
}

#[test]
fn batch_rejects_a_wrong_value() {
    let mut rng = StdRng::seed_from_u64(12);
    let config = pcs_config(6, 3, 1, 1, 8);
    let pp = TitanPolyCommitment::setup(&config);
    let polys: Vec<MultilinearPoly<Fr>> = (0..3)
        .map(|_| MultilinearPoly::new((0..(1usize << config.m)).map(|_| pcs_rand_scalar(&mut rng)).collect()))
        .collect();
    let comms: Vec<MultilinearPoly<Pt>> = polys.iter().map(|p| TitanPolyCommitment::commit(&pp, p)).collect();
    let roots = vec![vec![1u8; 32], vec![2u8; 32], vec![3u8; 32]];
    let alpha: Vec<Fr> = (0..config.m).map(|_| pcs_rand_scalar(&mut rng)).collect();
    let mut sigmas: Vec<Fr> = polys.iter().map(|p| p.evaluate(&alpha)).collect();
    let proof = TitanPolyCommitment::batch_prove(&pp, &polys, &comms, &roots, &alpha);
    assert!(TitanPolyCommitment::batch_verify(&pp, &roots, &alpha, &sigmas, &proof, true));
    assert!(!TitanPolyCommitment::batch_verify(&pp, &roots, &alpha, &sigmas, &proof, false));
    sigmas[2] = fr_add(&sigmas[2], &fr_one());
    assert!(!TitanPolyCommitment::batch_verify(&pp, &roots, &alpha, &sigmas, &proof, true));
}
