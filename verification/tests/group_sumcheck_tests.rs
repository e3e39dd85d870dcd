use rand::rngs::StdRng;
use rand::{RngCore, SeedableRng};
use titan::field::{fr_from_raw, fr_from_u64, Fr};
use titan::group::{pt_add, pt_eq, pt_generator, pt_scale, Pt};
use titan::group_sumcheck::{eval_triple_at_alpha, run_prover_noninteractive, run_verifier_noninteractive};
use titan::multilinear::MultilinearPoly;

fn gs_random_scalar(rng: &mut StdRng) -> Fr {
    let mut b = [0u8; 32];
    rng.fill_bytes(&mut b);
    fr_from_raw(&b)
}

#[test]
fn test_group_sumcheck() {
    let mut rng = StdRng::seed_from_u64(42);
    let m = 16;
    let l = 8;
    let table_size = 1usize << m;
    // a random walk over the group: each point is the previous one plus one
    // of sixteen random points (scalar multiplications are the slow part)
    let steps: Vec<Pt> = (0..16).map(|_| pt_scale(&pt_generator(), &gs_random_scalar(&mut rng))).collect();
    let mut f_table = Vec::with_capacity(table_size);
    let mut cur = pt_scale(&pt_generator(), &gs_random_scalar(&mut rng));
    for _ in 0..table_size {
        cur = pt_add(&cur, &steps[(rng.next_u32() % 16) as usize]);
        f_table.push(cur);
    }
    let f_poly = MultilinearPoly::new(f_table.clone());
    let mut alpha = Vec::with_capacity(m);
    for _ in 0..m {
        alpha.push(gs_random_scalar(&mut rng));
    }
    let sigma = f_poly.evaluate_msm(&alpha);
    let (r_vec, gi_triples) = run_prover_noninteractive(m, l, &f_table, &alpha, sigma);
    assert_eq!(r_vec.len(), m);
    assert_eq!(gi_triples.len(), m);
}

#[test]
fn group_sumcheck_small_rounds_are_consistent() {
    let mut rng = StdRng::seed_from_u64(3);
    let m = 4;
    let l = 2;
    let f_table: Vec<Pt> = (0..(1usize << m)).map(|_| pt_scale(&pt_generator(), &gs_random_scalar(&mut rng))).collect();
    let f_poly = MultilinearPoly::new(f_table.clone());
    let alpha: Vec<Fr> = (0..m).map(|_| gs_random_scalar(&mut rng)).collect();
    let sigma = f_poly.evaluate_msm(&alpha);
    let (r_vec, gi) = run_prover_noninteractive(m, l, &f_table, &alpha, sigma);
    // g_1(0) + g_1(1) = sigma, and g_i(0) + g_i(1) = g_{i-1}(r_{i-1})
    assert!(pt_eq(&pt_add(&gi[0][0], &gi[0][1]), &sigma));
    for i in 1..m {
        let prev = eval_triple_at_alpha(&gi[i - 1], r_vec[i - 1]);
        assert!(pt_eq(&pt_add(&gi[i][0], &gi[i][1]), &prev));
    }
}

#[test]
fn eval_triple_interpolates_quadratic() {
    // values of 3x^2 + 2x + 1 at 0, 1, 2 are 1, 6, 17; at 5 it is 86
    let g = pt_generator();
    let s = [pt_scale(&g, &fr_from_u64(1)), pt_scale(&g, &fr_from_u64(6)), pt_scale(&g, &fr_from_u64(17))];
    let v = eval_triple_at_alpha(&s, fr_from_u64(5));
    assert!(pt_eq(&v, &pt_scale(&g, &fr_from_u64(86))));
}

#[test]
fn group_verifier_rejects_inconsistent_first_round() {
    let g = pt_generator();
    let alpha = vec![fr_from_u64(2), fr_from_u64(3)];
    let sigma = pt_scale(&g, &fr_from_u64(10));
    let bad = vec![
        [pt_scale(&g, &fr_from_u64(1)), pt_scale(&g, &fr_from_u64(2)), pt_scale(&g, &fr_from_u64(3))],
        [pt_scale(&g, &fr_from_u64(1)), pt_scale(&g, &fr_from_u64(2)), pt_scale(&g, &fr_from_u64(3))],
    ];
    let f_table: Vec<Pt> = (0..4u64).map(|i| pt_scale(&g, &fr_from_u64(i))).collect();
    let res = run_verifier_noninteractive(2, 1, &f_table, &alpha, &sigma, &bad);
    assert_eq!(res, Err("Sumcheck consistency failed"));
}

#[test]
fn group_verifier_accepts_honest_transcript() {
    let mut rng = StdRng::seed_from_u64(5);
    let m = 4;
    let l = 2;
    let f_table: Vec<Pt> = (0..(1usize << m)).map(|_| pt_scale(&pt_generator(), &gs_random_scalar(&mut rng))).collect();
    let f_poly = MultilinearPoly::new(f_table.clone());
    let alpha: Vec<Fr> = (0..m).map(|_| gs_random_scalar(&mut rng)).collect();
    let sigma = f_poly.evaluate_msm(&alpha);
    let (_r_vec, gi) = run_prover_noninteractive(m, l, &f_table, &alpha, sigma);
    assert_eq!(run_verifier_noninteractive(m, l, &f_table, &alpha, &sigma, &gi), Ok(()));
    // a different table fails the final check
    let mut other = f_table.clone();
    other[3] = pt_add(&other[3], &pt_generator());
    assert_eq!(
        run_verifier_noninteractive(m, l, &other, &alpha, &sigma, &gi),
        Err("Final polynomial evaluation mismatch")
    );
    // a table of the wrong size fails it too
    assert_eq!(
        run_verifier_noninteractive(m, l, &f_table[..8], &alpha, &sigma, &gi),
        Err("Final polynomial evaluation mismatch")
    );
    // a changed round message breaks the chain of claims
    let mut bad = gi.clone();
    bad[2][2] = pt_add(&bad[2][2], &pt_generator());
    assert_eq!(
        run_verifier_noninteractive(m, l, &f_table, &alpha, &sigma, &bad),
        Err("Sumcheck consistency failed")
    );
}
