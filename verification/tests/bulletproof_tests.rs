use rand::rngs::StdRng;
use rand::{RngCore, SeedableRng};
use titan::bulletproof::{
    BulletProofInstance, BulletProofParams, BulletProofWitness, ProtoBulletProofGroup,
};
use titan::field::{fr_from_raw, fr_from_u64, Fr};
use titan::group::{pt_generator, pt_scale, Pt};
use titan::multilinear::MultilinearPoly;
use titan::traits::InnerProduct;
use titan::transcript::TitanTranscript;

fn bp_rand_scalar(rng: &mut StdRng) -> Fr {
    let mut b = [0u8; 32];
    rng.fill_bytes(&mut b);
    fr_from_raw(&b)
}

#[test]
fn test_bulletproof_prover() {
    let m = 9usize;
    let l = 3usize;
    let mut rng = StdRng::from_entropy();

    let bp_params = BulletProofParams::<Pt>::new(m, l);
    let a_coeffs: Vec<Fr> = (0..(1usize << m)).map(|_| bp_rand_scalar(&mut rng)).collect();
    let a_poly = MultilinearPoly::new(a_coeffs);
    let commitment = Pt::inner_product_msm(&bp_params.c_poly.coeffs, &a_poly.coeffs);
    let alpha: Vec<Fr> = (0..m).map(|_| bp_rand_scalar(&mut rng)).collect();
    let sigma = a_poly.evaluate(&alpha);

    let bp_instance = BulletProofInstance::<Pt> { pp: &bp_params, commitment, alpha, sigma };
    let bp_witness = BulletProofWitness::<Pt> { pp: &bp_params, a_poly };

    let mut transcript = TitanTranscript::new("Bulletproof");
    let proof = ProtoBulletProofGroup::prove(&bp_instance, &bp_witness, &mut transcript);

    let mut transcript = TitanTranscript::new("Bulletproof");
    let res = ProtoBulletProofGroup::verify(&proof, &bp_instance, &mut transcript);
    assert!(res);
}

#[test]
fn bulletproof_rejects_wrong_commitment() {
    let m = 4usize;
    let l = 2usize;
    let mut rng = StdRng::seed_from_u64(7);
    let bp_params = BulletProofParams::<Pt>::new(m, l);
    let a_coeffs: Vec<Fr> = (0..(1usize << m)).map(|_| bp_rand_scalar(&mut rng)).collect();
    let a_poly = MultilinearPoly::new(a_coeffs);
    let commitment = Pt::inner_product_msm(&bp_params.c_poly.coeffs, &a_poly.coeffs);
    let alpha: Vec<Fr> = (0..m).map(|_| bp_rand_scalar(&mut rng)).collect();
    let sigma = a_poly.evaluate(&alpha);
    let wrong = pt_scale(&pt_generator(), &fr_from_u64(12345));
    let honest = BulletProofInstance::<Pt> { pp: &bp_params, commitment, alpha: alpha.clone(), sigma };
    let witness = BulletProofWitness::<Pt> { pp: &bp_params, a_poly };
    let mut transcript = TitanTranscript::new("Bulletproof");
    let proof = ProtoBulletProofGroup::prove(&honest, &witness, &mut transcript);
    assert_eq!(proof.get_proof_size(), 4 * 2 + 4 + 4);
    let cheating = BulletProofInstance::<Pt> { pp: &bp_params, commitment: wrong, alpha, sigma };
    let mut transcript = TitanTranscript::new("Bulletproof");
    assert!(!ProtoBulletProofGroup::verify(&proof, &cheating, &mut transcript));
}

#[test]
fn bulletproof_rejects_wrong_evaluation() {
    let m = 4usize;
    let l = 2usize;
    let mut rng = StdRng::seed_from_u64(8);
    let bp_params = BulletProofParams::<Pt>::new(m, l);
    let a_coeffs: Vec<Fr> = (0..(1usize << m)).map(|_| bp_rand_scalar(&mut rng)).collect();
    let a_poly = MultilinearPoly::new(a_coeffs);
    let commitment = Pt::inner_product_msm(&bp_params.c_poly.coeffs, &a_poly.coeffs);
    let alpha: Vec<Fr> = (0..m).map(|_| bp_rand_scalar(&mut rng)).collect();
    let sigma = a_poly.evaluate(&alpha);
    let wrong_sigma = titan::field::fr_add(&sigma, &fr_from_u64(1));
    // the prover run on the wrong claim: everything but the claim is honest
    let cheating = BulletProofInstance::<Pt> { pp: &bp_params, commitment, alpha: alpha.clone(), sigma: wrong_sigma };
    let witness = BulletProofWitness::<Pt> { pp: &bp_params, a_poly };
    let mut transcript = TitanTranscript::new("Bulletproof");
    let proof = ProtoBulletProofGroup::prove(&cheating, &witness, &mut transcript);
    let mut transcript = TitanTranscript::new("Bulletproof");
    assert!(!ProtoBulletProofGroup::verify(&proof, &cheating, &mut transcript));
    let honest = BulletProofInstance::<Pt> { pp: &bp_params, commitment, alpha, sigma };
    let mut transcript = TitanTranscript::new("Bulletproof");
    let proof = ProtoBulletProofGroup::prove(&honest, &witness, &mut transcript);
    let mut transcript = TitanTranscript::new("Bulletproof");
    assert!(ProtoBulletProofGroup::verify(&proof, &honest, &mut transcript));
}
