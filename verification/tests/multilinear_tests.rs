use rand::rngs::StdRng;
use rand::{RngCore, SeedableRng};
use titan::field::{fr_from_raw, fr_from_u64, fr_mul, fr_one, fr_sub, Fr};
use titan::group::{pt_eq, pt_generator, pt_scale, Pt};
use titan::multilinear::MultilinearPoly;

fn ml_rand_scalar(rng: &mut StdRng) -> Fr {
    let mut b = [0u8; 32];
    rng.fill_bytes(&mut b);
    fr_from_raw(&b)
}

#[test]
fn test_init_with_eq() {
    let mut rng = StdRng::from_entropy();
    let p_alpha = MultilinearPoly::<Fr>::init_with_eq(&vec![fr_from_u64(3), fr_from_u64(2)]);
    // p_alpha(x1, x2) = (5 x1 - 2) (3 x2 - 1)
    let x1 = ml_rand_scalar(&mut rng);
    let x2 = ml_rand_scalar(&mut rng);
    let eval = p_alpha.evaluate(&vec![x1, x2]);
    let left = fr_sub(&fr_mul(&fr_from_u64(5), &x1), &fr_from_u64(2));
    let right = fr_sub(&fr_mul(&fr_from_u64(3), &x2), &fr_one());
    let eval_ref = fr_mul(&left, &right);
    assert_eq!(eval, eval_ref);
}

#[test]
fn test_restrict() {
    let mut rng = StdRng::from_entropy();
    let num_vars: usize = 4;
    let coeffs: Vec<Fr> = (0..(1 << num_vars)).map(|_| ml_rand_scalar(&mut rng)).collect();
    let poly_p = MultilinearPoly::new(coeffs);
    let r1 = ml_rand_scalar(&mut rng);
    let r2 = ml_rand_scalar(&mut rng);
    let poly_q = poly_p.restrict(&vec![r1, r2]);
    assert_eq!(poly_q.num_vars, num_vars - 2);

    let x1 = ml_rand_scalar(&mut rng);
    let x2 = ml_rand_scalar(&mut rng);
    let eval_p = poly_p.evaluate(&vec![r1, r2, x1, x2]);
    let eval_q = poly_q.evaluate(&vec![x1, x2]);
    assert_eq!(eval_p, eval_q);

    let poly_r = poly_p.restrict_msb(&vec![r2, x1, x2]);
    assert_eq!(poly_r.num_vars, num_vars - 3);
    let eval_r = poly_r.evaluate(&vec![r1]);
    assert_eq!(eval_p, eval_r);
}

#[test]
fn test_restrict_group_poly() {
    let mut rng = StdRng::from_entropy();
    let num_vars: usize = 4;
    let coeffs: Vec<Fr> = (0..(1 << num_vars)).map(|_| ml_rand_scalar(&mut rng)).collect();
    let coeffs: Vec<Pt> = coeffs.iter().map(|x| pt_scale(&pt_generator(), x)).collect();
    let poly_p = MultilinearPoly::new(coeffs);
    let r1 = ml_rand_scalar(&mut rng);
    let r2 = ml_rand_scalar(&mut rng);
    let x1 = ml_rand_scalar(&mut rng);
    let x2 = ml_rand_scalar(&mut rng);
    let poly_q = poly_p.restrict(&vec![r1, r2]);
    assert_eq!(poly_q.num_vars, num_vars - 2);
    let eval_p = poly_p.evaluate(&vec![r1, r2, x1, x2]);
    let eval_q = poly_q.evaluate(&vec![x1, x2]);
    assert!(pt_eq(&eval_p, &eval_q));
}

#[test]
fn test_folding() {
    let mut rng = StdRng::from_entropy();
    let num_vars: usize = 4;
    let coeffs: Vec<Fr> = (0..(1 << num_vars)).map(|_| ml_rand_scalar(&mut rng)).collect();
    let mut poly_p = MultilinearPoly::new(coeffs);
    let r1 = ml_rand_scalar(&mut rng);
    let r2 = ml_rand_scalar(&mut rng);
    let poly_q = poly_p.restrict(&vec![r1, r2]);
    poly_p.fold_first(r1);
    poly_p.fold_first(r2);
    assert_eq!(poly_q.coeffs, poly_p.coeffs);
}

#[test]
fn multilinear_evaluate_at_cube_point_reads_table() {
    // f(x1, x2) with table [1, 2, 3, 4] (bit 0 is x1): f(1, 0) = 2, f(0, 1) = 3
    let poly = MultilinearPoly::new(vec![fr_from_u64(1), fr_from_u64(2), fr_from_u64(3), fr_from_u64(4)]);
    assert_eq!(poly.evaluate(&vec![fr_one(), fr_from_u64(0)]), fr_from_u64(2));
    assert_eq!(poly.evaluate(&vec![fr_from_u64(0), fr_one()]), fr_from_u64(3));
    // f(2, 0) = 1 + 2 (2 - 1) = 3
    assert_eq!(poly.evaluate(&vec![fr_from_u64(2), fr_from_u64(0)]), fr_from_u64(3));
}

#[test]
fn multilinear_fold_and_fold_msb_exact_values() {
    // table [1, 2, 3, 4]; folding the first variable with r = 3 gives
    // [1 + 3 (2 - 1), 3 + 3 (4 - 3)] = [4, 6]
    let mut poly = MultilinearPoly::new(vec![fr_from_u64(1), fr_from_u64(2), fr_from_u64(3), fr_from_u64(4)]);
    poly.fold_first(fr_from_u64(3));
    assert_eq!(poly.coeffs, vec![fr_from_u64(4), fr_from_u64(6)]);
    assert_eq!(poly.num_vars, 1);
    // folding the last variable with r = 3 gives [1 + 3 (3 - 1), 2 + 3 (4 - 2)] = [7, 8]
    let mut poly2 = MultilinearPoly::new(vec![fr_from_u64(1), fr_from_u64(2), fr_from_u64(3), fr_from_u64(4)]);
    poly2.fold(fr_from_u64(3));
    assert_eq!(poly2.coeffs, vec![fr_from_u64(7), fr_from_u64(8)]);
    let poly3 = MultilinearPoly::new(vec![fr_from_u64(1), fr_from_u64(2), fr_from_u64(3), fr_from_u64(4)]);
    let restricted = poly3.restrict_msb(&vec![fr_from_u64(3)]);
    assert_eq!(restricted.coeffs, vec![fr_from_u64(7), fr_from_u64(8)]);
}
