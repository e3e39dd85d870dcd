use titan::config::{TitanIndexPolys, TitanSetupConfig, TitanSnark, TitanSnarkConfig};
use titan::field::{fr_add, fr_from_u64, fr_one, Fr};
use titan::group::Pt;
use titan::multilinear::MultilinearPoly;
use titan::pcs::{TitanPolyCommitment, TitanSetup};
use titan::r1cs::{verify_r1cs, SparseMatrix, R1CS};
use titan::snark::SpartanProof;

fn snark_config(m: usize, m1: usize, l1: usize, l2: usize, num_queries: usize) -> TitanSetupConfig {
    TitanSetupConfig {
        m,
        m1,
        l1,
        domain_g1_size: m1 - l1 + 4,
        num_queries,
        l2,
        domain_g2_size: (m - m1) - l2 + 4,
        num_merkle_nodes: 0,
    }
}

/// Sixteen constraints over sixteen variables, two of them non-trivial:
/// `z0 · z1 = z2` and `z2 · z2 = z3`; the others are `0 = 0`.
fn small_instance() -> R1CS {
    let n = 16usize;
    let one = fr_one();
    let a = SparseMatrix { rows: n, cols: n, entries: vec![(0, 0, one), (1, 2, one)] };
    let b = SparseMatrix { rows: n, cols: n, entries: vec![(0, 1, one), (1, 2, one)] };
    let c = SparseMatrix { rows: n, cols: n, entries: vec![(0, 2, one), (1, 3, one)] };
    let mut witness: Vec<Fr> = vec![fr_from_u64(2), fr_from_u64(3), fr_from_u64(6), fr_from_u64(36)];
    witness.resize(n, fr_from_u64(0));
    R1CS { m: n, n, a, b, c, witness }
}

struct Params {
    single: TitanSetup,
    trusted: TitanSetup,
    agg: TitanSetup,
}

fn snark_params() -> Params {
    let config = TitanSnarkConfig {
        single_oracle_config: snark_config(4, 2, 1, 1, 8),
        trusted_oracle_config: snark_config(4, 2, 1, 1, 8),
        aggregate_oracle_config: snark_config(6, 3, 1, 1, 8),
    };
    let mut pps = TitanSnark::setup(&config);
    assert_eq!(pps.len(), 3);
    let agg = pps.pop().unwrap();
    let trusted = pps.pop().unwrap();
    let single = pps.pop().unwrap();
    assert_eq!(single.m, 4);
    assert_eq!(agg.m, 6);
    assert_eq!(agg.domain_g1.len(), 1 << 6);
    Params { single, trusted, agg }
}

fn index_commitments(index: &TitanIndexPolys, pp: &TitanSetup) -> Vec<MultilinearPoly<Pt>> {
    vec![
        TitanPolyCommitment::commit(pp, &index.row_poly),
        TitanPolyCommitment::commit(pp, &index.col_poly),
        TitanPolyCommitment::commit(pp, &index.val_A_poly),
        TitanPolyCommitment::commit(pp, &index.val_B_poly),
        TitanPolyCommitment::commit(pp, &index.val_C_poly),
    ]
}

fn prove_small(r1cs: &R1CS, pp: &Params, index_roots: &Vec<Vec<u8>>) -> SpartanProof {
    let index = TitanSnark::index(r1cs, 16);
    let index_committed = index_commitments(&index, &pp.trusted);
    let rel = TitanSnark::prove_relation(r1cs, &r1cs.witness);
    let lk = TitanSnark::prove_lookups(rel, &index, &pp.agg);
    let dp = TitanSnark::prove_denominators(lk, &index, &pp.single, [11u8; 32]).expect("denominators invertible");
    let mp = TitanSnark::prove_memory(dp, &index, &pp.single, [12u8; 32]);
    TitanSnark::prove_openings(mp, index, &index_committed, index_roots, &pp.single, &pp.trusted, &pp.agg, [13u8; 32])
        .expect("points the commitment opens at")
}

#[test]
fn test_spartan_titan_index() {
    let r1cs = small_instance();
    assert!(verify_r1cs(&r1cs), "R1CS instance should be satisfiable");
    let index = TitanSnark::index(&r1cs, 16);
    assert_eq!(index.row_poly.num_vars, 4);
    assert_eq!(index.col_poly.num_vars, 4);
    assert_eq!(index.val_A_poly.num_vars, 4);
    assert_eq!(index.val_B_poly.num_vars, 4);
    assert_eq!(index.val_C_poly.num_vars, 4);
    let pp = snark_params();
    let index_roots: Vec<Vec<u8>> = (1..=5u8).map(|i| vec![i; 32]).collect();
    let proof = prove_small(&r1cs, &pp, &index_roots);
    assert!(TitanSnark::verify(&r1cs, &index_roots, &pp.single, &pp.trusted, &pp.agg, &proof, true, true, true));
}

#[test]
fn snark_rejects_changed_values_and_failed_paths() {
    let r1cs = small_instance();
    let pp = snark_params();
    let index_roots: Vec<Vec<u8>> = (1..=5u8).map(|i| vec![i; 32]).collect();
    let proof = prove_small(&r1cs, &pp, &index_roots);
    assert!(TitanSnark::verify(&r1cs, &index_roots, &pp.single, &pp.trusted, &pp.agg, &proof, true, true, true));
    assert!(!TitanSnark::verify(&r1cs, &index_roots, &pp.single, &pp.trusted, &pp.agg, &proof, false, true, true));
    assert!(!TitanSnark::verify(&r1cs, &index_roots, &pp.single, &pp.trusted, &pp.agg, &proof, true, false, true));
    assert!(!TitanSnark::verify(&r1cs, &index_roots, &pp.single, &pp.trusted, &pp.agg, &proof, true, true, false));
    let mut bad = prove_small(&r1cs, &pp, &index_roots);
    bad.a_at_rx = fr_add(&bad.a_at_rx, &fr_one());
    assert!(!TitanSnark::verify(&r1cs, &index_roots, &pp.single, &pp.trusted, &pp.agg, &bad, true, true, true));
    let mut bad = prove_small(&r1cs, &pp, &index_roots);
    bad.z_at_r4 = fr_add(&bad.z_at_r4, &fr_one());
    assert!(!TitanSnark::verify(&r1cs, &index_roots, &pp.single, &pp.trusted, &pp.agg, &bad, true, true, true));
}
