use sha2::Digest as Sha2Digest;
use sha3::Digest as Sha3Digest;
use titan::config::{titan_config_for_m, TitanSetupConfig};
use titan::field::{fr_from_u64, Fr};
use titan::merkle::{
    GroupWhirProverMerkleState, HashCounter, IdentityDigestConverter, KeccakCompress, KeccakLeafHash,
    MerkleProofStrategy, Sha256Compress, Sha256LeafHash,
};
use titan::traits::ByteSerializable;

#[test]
fn hash_counter_counts_and_resets() {
    let mut c = HashCounter::new();
    assert_eq!(c.get(), 0);
    assert_eq!(c.add(), 0);
    assert_eq!(c.add(), 1);
    assert_eq!(c.get(), 2);
    c.reset();
    assert_eq!(c.get(), 0);
}

#[test]
fn sha256_leaf_hash_is_hash_of_encodings() {
    let mut c = HashCounter::new();
    let leaf: Vec<Fr> = vec![fr_from_u64(1), fr_from_u64(2)];
    let d = Sha256LeafHash::<Fr>::evaluate(&mut c, &leaf);
    let mut buf = Vec::new();
    for x in &leaf {
        buf.extend(x.serialize_to_bytes());
    }
    let expected: [u8; 32] = sha2::Sha256::digest(&buf).into();
    assert_eq!(d, expected);
    assert_eq!(c.get(), 1);
    // the empty leaf hashes the empty string
    let e = Sha256LeafHash::<Fr>::evaluate(&mut c, &Vec::new());
    assert_eq!(e[0], 0xe3);
    assert_eq!(e[31], 0x55);
}

#[test]
fn sha256_compress_hashes_concatenation() {
    let mut c = HashCounter::new();
    let left = [0u8; 32];
    let right = [0u8; 32];
    let d = Sha256Compress::evaluate(&mut c, &left, &right);
    // SHA-256 of 64 zero bytes
    assert_eq!(d[0], 0xf5);
    assert_eq!(d[1], 0xa5);
    assert_eq!(d[31], 0x4b);
    assert_eq!(Sha256Compress::compress(&mut c, &left, &right), d);
    assert_eq!(c.get(), 2);
}

#[test]
fn keccak_hashes_match_sha3_crate() {
    let mut c = HashCounter::new();
    let left = [1u8; 32];
    let right = [2u8; 32];
    let d = KeccakCompress::evaluate(&mut c, &left, &right);
    let mut buf = left.to_vec();
    buf.extend_from_slice(&right);
    let expected: [u8; 32] = sha3::Keccak256::digest(&buf).into();
    assert_eq!(d, expected);
    assert_eq!(KeccakCompress::compress(&mut c, &left, &right), d);
    let leaf: Vec<Fr> = vec![fr_from_u64(9)];
    let l = KeccakLeafHash::<Fr>::evaluate(&mut c, &leaf);
    let mut lbuf = (1u64).to_le_bytes().to_vec();
    lbuf.extend(leaf[0].serialize_to_bytes());
    let lexp: [u8; 32] = sha3::Keccak256::digest(&lbuf).into();
    assert_eq!(l, lexp);
    assert_eq!(c.get(), 3);
}

#[test]
fn digest_converter_and_prover_state() {
    let d = [7u8; 32];
    assert_eq!(IdentityDigestConverter::<[u8; 32]>::convert(d), d);
    let s = GroupWhirProverMerkleState::new(MerkleProofStrategy::Compressed);
    assert_eq!(s.strategy, MerkleProofStrategy::Compressed);
}

#[test]
fn proof_size_estimate_exact_value() {
    let c: TitanSetupConfig = titan_config_for_m(18);
    assert_eq!(c.m1, 8);
    assert_eq!(c.l1, 1);
    assert_eq!(c.l2, 5);
    // 3*1 + 70*2 + 2^7 + 2^(10-5) + 4*5 + 0 = 3 + 140 + 128 + 32 + 20 = 323
    assert_eq!(c.estimate_metrics(), 32 * 323);
    let c26 = titan_config_for_m(26);
    assert_eq!((c26.m1, c26.l1, c26.domain_g1_size, c26.l2, c26.domain_g2_size), (11, 3, 12, 8, 12));
}
