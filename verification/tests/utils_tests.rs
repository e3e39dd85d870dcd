use rand::rngs::StdRng;
use rand::{RngCore, SeedableRng};
use titan::field::{fr_add, fr_from_raw, fr_from_u64, fr_mul, fr_one, fr_one_minus, fr_sub, fr_zero, Fr};
use titan::group::{pt_add, pt_eq, pt_generator, pt_scale, Pt};
use titan::traits::{ByteSerializable, InnerProduct};
use titan::utils::{
    batch_invert, bit_reverse_permutation, point_to_bytes, create_smooth_domain, eq_all, eq_from_index,
    generate_folded_domain_points, generate_power_vec, group_positions_vec, reverse_bits,
    EqualityPolynomial,
};

fn ut_rand_scalar(rng: &mut StdRng) -> Fr {
    let mut b = [0u8; 32];
    rng.fill_bytes(&mut b);
    fr_from_raw(&b)
}

#[test]
fn test_eq_function() {
    let mut rng = StdRng::from_entropy();
    let k = 3;
    let alpha: Vec<Fr> = (0..k).map(|_| ut_rand_scalar(&mut rng)).collect();
    let poly = EqualityPolynomial::new(&alpha);
    let b = vec![fr_one(), fr_zero(), fr_one()];
    let eq_val = poly.evaluate(&b);
    let mut expected = fr_one();
    for i in 0..k {
        let t1 = fr_mul(&b[i], &alpha[i]);
        let t2 = fr_mul(&fr_one_minus(&b[i]), &fr_one_minus(&alpha[i]));
        expected = fr_mul(&expected, &fr_add(&t1, &t2));
    }
    assert_eq!(eq_val, expected);
}

#[test]
fn test_eq_from_index_consistency() {
    let mut rng = StdRng::from_entropy();
    let k = 4;
    let alpha: Vec<Fr> = (0..k).map(|_| ut_rand_scalar(&mut rng)).collect();
    let poly = EqualityPolynomial::new(&alpha);
    for b_idx in 0..(1usize << k) {
        let mut b = vec![fr_zero(); k];
        for i in 0..k {
            if (b_idx >> i) & 1 == 1 {
                b[i] = fr_one();
            }
        }
        let eq_direct = poly.evaluate(&b);
        let eq_from_idx = eq_from_index(&alpha, b_idx);
        assert_eq!(eq_direct, eq_from_idx);
    }
}

#[test]
fn test_eq_all_consistency() {
    let mut rng = StdRng::from_entropy();
    let k = 3;
    let alpha: Vec<Fr> = (0..k).map(|_| ut_rand_scalar(&mut rng)).collect();
    let poly = EqualityPolynomial::new(&alpha);
    let eq_all_vals = poly.evaluate_all();
    for b_idx in 0..(1usize << k) {
        let mut b = vec![fr_zero(); k];
        for i in 0..k {
            if (b_idx >> i) & 1 == 1 {
                b[i] = fr_one();
            }
        }
        let eq_individual = poly.evaluate(&b);
        assert_eq!(eq_all_vals[b_idx], eq_individual);
    }
    assert_eq!(eq_all(&alpha), eq_all_vals);
}

#[test]
fn test_folded_domain_points_generation() {
    let inv_rate: usize = 4;
    let num_variables: usize = 4;
    let k: usize = 2;
    let domain_size = inv_rate << num_variables;
    let folded_size = domain_size >> k;
    assert_eq!(domain_size, 64);
    assert_eq!(folded_size, 16);
    let gen = fr_from_u64(5);
    let points = generate_folded_domain_points(gen, inv_rate, num_variables, k);
    assert_eq!(points.len(), 16);
    // h = 5^4 = 625, so the points are 1, 625, 625^2, ...
    assert_eq!(points[0], fr_one());
    assert_eq!(points[1], fr_from_u64(625));
    assert_eq!(points[2], fr_from_u64(390625));
}

#[test]
fn test_orbit_msm() {
    let n: usize = 12;
    let m: usize = 5;
    let big_n: usize = 1usize << n;
    let big_m: usize = 1usize << m;
    let mut rng = StdRng::from_entropy();
    // Random generators: each is the sum of two independent random points,
    // one from each of two pools of 64, which keeps the sampling fast.
    let pool_a: Vec<Pt> = (0..64).map(|_| pt_scale(&pt_generator(), &ut_rand_scalar(&mut rng))).collect();
    let pool_b: Vec<Pt> = (0..64).map(|_| pt_scale(&pt_generator(), &ut_rand_scalar(&mut rng))).collect();
    let gens: Vec<Pt> = (0..big_n).map(|i| pt_add(&pool_a[i % 64], &pool_b[i / 64])).collect();
    let table: Vec<Fr> = (0..big_m).map(|_| ut_rand_scalar(&mut rng)).collect();
    let scalars: Vec<Fr> = (0..big_n).map(|_| table[(rng.next_u64() as usize) % big_m]).collect();
    let res1 = Pt::inner_product_msm(&gens, &scalars);
    let res2 = Pt::inner_product_orbit(&gens, &scalars);
    assert!(pt_eq(&res1, &res2), "Results don't match");
}

#[test]
fn smooth_domain_is_a_cyclic_subgroup() {
    let k: usize = 3;
    let domain = create_smooth_domain(k);
    assert_eq!(domain.len(), 8);
    assert_eq!(domain[0], fr_one());
    for i in 0..(domain.len() - 1) {
        assert_eq!(fr_mul(&domain[1], &domain[i]), domain[i + 1]);
    }
    assert_eq!(fr_mul(&domain[7], &domain[1]), fr_one());
}

#[test]
fn power_vec_exact_values() {
    let y = fr_from_u64(3);
    let v = generate_power_vec(y, 4, false);
    assert_eq!(v, vec![fr_from_u64(3), fr_from_u64(9), fr_from_u64(81), fr_from_u64(6561)]);
    let w = generate_power_vec(y, 4, true);
    assert_eq!(w, vec![fr_from_u64(6561), fr_from_u64(81), fr_from_u64(9), fr_from_u64(3)]);
}

#[test]
fn batch_invert_gives_inverses() {
    let input = vec![fr_from_u64(2), fr_from_u64(3), fr_from_u64(7)];
    let inv = batch_invert(&input);
    assert_eq!(inv.len(), 3);
    for i in 0..3 {
        assert_eq!(fr_mul(&input[i], &inv[i]), fr_one());
    }
}

#[test]
fn reverse_bits_and_permutation() {
    assert_eq!(reverse_bits(1, 3), 4);
    assert_eq!(reverse_bits(6, 3), 3);
    assert_eq!(reverse_bits(reverse_bits(5, 4), 4), 5);
    let mut data: Vec<u32> = vec![0, 1, 2, 3, 4, 5, 6, 7];
    bit_reverse_permutation(&mut data, 3);
    assert_eq!(data, vec![0, 4, 2, 6, 1, 5, 3, 7]);
}

#[test]
fn eq_from_index_exact_value() {
    // eq((2, 3), b = (1, 0)) = 2 * (1 - 3) = -4
    let alpha = vec![fr_from_u64(2), fr_from_u64(3)];
    let e = eq_from_index(&alpha, 1);
    assert_eq!(e, fr_sub(&fr_zero(), &fr_from_u64(4)));
}

#[test]
fn group_positions_partitions_indices() {
    let v = vec![fr_from_u64(7), fr_from_u64(1), fr_from_u64(7), fr_from_u64(2), fr_from_u64(1)];
    let groups = group_positions_vec(&v);
    assert_eq!(groups.len(), 3);
    assert_eq!(groups[0].0, fr_from_u64(7));
    assert_eq!(groups[0].1, vec![0, 2]);
    assert_eq!(groups[1].0, fr_from_u64(1));
    assert_eq!(groups[1].1, vec![1, 4]);
    assert_eq!(groups[2].0, fr_from_u64(2));
    assert_eq!(groups[2].1, vec![3]);
}

#[test]
fn equality_polynomial_stores_monomial_coefficients() {
    // eq(x, (3, 2)) = (5 x1 - 2)(3 x2 - 1) = 2 - 5 x1 - 6 x2 + 15 x1 x2
    let alpha = vec![fr_from_u64(3), fr_from_u64(2)];
    let poly = EqualityPolynomial::new(&alpha);
    let neg = |v: u64| titan::field::fr_sub(&fr_zero(), &fr_from_u64(v));
    assert_eq!(poly.num_vars, 2);
    assert_eq!(poly.coeffs, vec![fr_from_u64(2), neg(5), neg(6), fr_from_u64(15)]);
    // its values on the cube are those of eq(b, alpha)
    assert_eq!(poly.evaluate_all(), eq_all(&alpha));
}

#[test]
fn point_bytes_round_trip() {
    let g = pt_generator();
    let pts = [
        titan::group::pt_identity(),
        g,
        pt_scale(&g, &fr_from_u64(12345)),
        pt_scale(&g, &fr_sub(&fr_zero(), &fr_one())),
    ];
    for p in pts.iter() {
        let b = point_to_bytes(p);
        assert_eq!(b.len(), 32);
        let back = Pt::deserialize_from_bytes(&b).unwrap();
        assert!(pt_eq(&back, p));
        assert_eq!(point_to_bytes(&back), b);
    }
    // the identity encodes as 32 zero bytes
    assert_eq!(point_to_bytes(&titan::group::pt_identity()), vec![0u8; 32]);
    // 31 bytes are no point
    assert!(Pt::deserialize_from_bytes(&[0u8; 31]).is_none());
}

#[test]
fn eq_all_sums_to_one() {
    // alpha = [3, 2]: the table is [2, -3, -4, 6]
    let alpha = vec![fr_from_u64(3), fr_from_u64(2)];
    let t = eq_all(&alpha);
    assert_eq!(t.len(), 4);
    assert_eq!(t[0], fr_from_u64(2));
    assert_eq!(t[1], fr_sub(&fr_zero(), &fr_from_u64(3)));
    assert_eq!(t[2], fr_sub(&fr_zero(), &fr_from_u64(4)));
    assert_eq!(t[3], fr_from_u64(6));
    let total = t.iter().fold(fr_zero(), |acc, x| fr_add(&acc, x));
    assert_eq!(total, fr_one());
    // and for random points
    let mut rng = StdRng::seed_from_u64(9);
    let beta: Vec<Fr> = (0..5).map(|_| ut_rand_scalar(&mut rng)).collect();
    let total = eq_all(&beta).iter().fold(fr_zero(), |acc, x| fr_add(&acc, x));
    assert_eq!(total, fr_one());
}
