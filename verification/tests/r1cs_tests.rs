use titan::field::{fr_from_u64, fr_one, Fr};
use titan::r1cs::{generate_random_r1cs, verify_r1cs, SparseMatrix, R1CS};

#[test]
fn test_generate_r1cs_with_witness() {
    let m = 50;
    let n = 100;
    let max_nonzeros = 256;
    let r1cs = generate_random_r1cs(m, n, max_nonzeros);
    let total_entries = r1cs.a.entries.len() + r1cs.b.entries.len() + r1cs.c.entries.len();
    assert!(total_entries <= max_nonzeros);
    let is_valid = verify_r1cs(&r1cs);
    assert!(is_valid, "R1CS constraints should be satisfied by the witness");
    assert_eq!(r1cs.witness.len(), n);
    assert_eq!((r1cs.m, r1cs.n), (m, n));
}

#[test]
fn test_small_instance() {
    let r1cs = generate_random_r1cs(10, 20, 30);
    assert!(verify_r1cs(&r1cs));
    assert_eq!(r1cs.m, 10);
    assert_eq!(r1cs.n, 20);
    assert_eq!(r1cs.witness.len(), 20);
    assert_eq!(r1cs.witness[0], fr_one());
    for k in 0..8 {
        assert_eq!(r1cs.a.entries[k], (k, 2 + k, fr_one()));
    }
    assert!(r1cs.a.entries.len() + r1cs.b.entries.len() + r1cs.c.entries.len() <= 30);
    assert_eq!(r1cs.b.entries.len(), 10);
    assert_eq!(r1cs.a.entries.len(), r1cs.c.entries.len());
}

#[test]
fn sparse_matrix_products_exact_values() {
    // [[2, 0], [1, 3]] as entries
    let mat = SparseMatrix {
        rows: 2,
        cols: 2,
        entries: vec![(0, 0, fr_from_u64(2)), (1, 0, fr_from_u64(1)), (1, 1, fr_from_u64(3))],
    };
    let v = vec![fr_from_u64(5), fr_from_u64(7)];
    assert_eq!(mat.mult_vec(&v), vec![fr_from_u64(10), fr_from_u64(26)]);
    // transpose: [[2, 1], [0, 3]] · (5, 7) = (17, 21)
    assert_eq!(mat.mult_vec_transpose(&v), vec![fr_from_u64(17), fr_from_u64(21)]);
}

#[test]
fn r1cs_unsatisfied_instance_is_rejected() {
    // one constraint z0 * z0 = z1 with z = (2, 5): 4 != 5
    let a = SparseMatrix { rows: 1, cols: 2, entries: vec![(0, 0, fr_one())] };
    let b = SparseMatrix { rows: 1, cols: 2, entries: vec![(0, 0, fr_one())] };
    let c = SparseMatrix { rows: 1, cols: 2, entries: vec![(0, 1, fr_one())] };
    let witness: Vec<Fr> = vec![fr_from_u64(2), fr_from_u64(5)];
    let bad = R1CS { m: 1, n: 2, a, b, c, witness };
    assert!(!verify_r1cs(&bad));
    let a = SparseMatrix { rows: 1, cols: 2, entries: vec![(0, 0, fr_one())] };
    let b = SparseMatrix { rows: 1, cols: 2, entries: vec![(0, 0, fr_one())] };
    let c = SparseMatrix { rows: 1, cols: 2, entries: vec![(0, 1, fr_one())] };
    let good = R1CS { m: 1, n: 2, a, b, c, witness: vec![fr_from_u64(2), fr_from_u64(4)] };
    assert!(verify_r1cs(&good));
}
