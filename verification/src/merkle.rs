//! The hash functions of the Merkle trees over coset leaves: SHA-256 and
//! Keccak-256 leaf hashes over the encodings of group elements, their
//! two-to-one compressions, and a counter of hash evaluations.
use vstd::prelude::*;
use core::marker::PhantomData;
use sha2::Digest as Sha2Digest;
use sha3::Digest as Sha3Digest;
use crate::traits::ByteSerializable;

verus! {

/// A digest of a node or a leaf.
pub type Digest32 = [u8; 32];

/// The SHA-256 digest (FIPS 180-4) of a byte string.
pub uninterp spec fn sha256_digest(data: Seq<u8>) -> Seq<u8>;

/// The Keccak-256 digest (the original Keccak padding, as in `sha3::Keccak256`)
/// of a byte string.
pub uninterp spec fn keccak256_digest(data: Seq<u8>) -> Seq<u8>;

/// SHA-256 of the bytes (`sha2::Sha256`): the named digest of them.
#[verifier::external_body]
fn sha256(data: &[u8]) -> (r: Digest32)
    ensures
        r@ == sha256_digest(data@),
{
    sha2::Sha256::digest(data).into()
}

/// Keccak-256 of the bytes (`sha3::Keccak256`): the named digest of them.
#[verifier::external_body]
fn keccak256(data: &[u8]) -> (r: Digest32)
    ensures
        r@ == keccak256_digest(data@),
{
    sha3::Keccak256::digest(data).into()
}

/// A count of hash evaluations, for benchmarks.
pub struct HashCounter {
    count: usize,
}

impl HashCounter {
    /// A counter at zero.
    pub fn new() -> (r: Self)
        ensures
            r.value() == 0,
    {
        HashCounter { count: 0 }
    }

    /// The number of evaluations counted.
    pub closed spec fn value(&self) -> usize {
        self.count
    }

    /// Counts one evaluation and returns the count before it; the count
    /// wraps around at `usize::MAX`.
    pub fn add(&mut self) -> (r: usize)
        ensures
            r == old(self).value(),
            final(self).value() == (if old(self).value() == usize::MAX {
                0
            } else {
                old(self).value() + 1
            }),
    {
        let prev = self.count;
        self.count = if prev == usize::MAX {
            0
        } else {
            prev + 1
        };
        prev
    }

    /// Sets the count to zero.
    pub fn reset(&mut self)
        ensures
            final(self).value() == 0,
    {
        self.count = 0;
    }

    /// The current count.
    pub fn get(&self) -> (r: usize)
        ensures
            r == self.value(),
    {
        self.count
    }
}

/// The concatenated encodings of the elements of a leaf.
pub open spec fn leaf_bytes<C: ByteSerializable>(leaf: Seq<C>) -> Seq<u8>
    decreases leaf.len(),
{
    if leaf.len() == 0 {
        Seq::empty()
    } else {
        leaf_bytes(leaf.drop_last()) + leaf.last().ser()
    }
}

/// The eight little-endian bytes of a length.
pub open spec fn le64(n: nat) -> Seq<u8> {
    Seq::new(8, |i: int| ((n / vstd::arithmetic::power::pow(256, i as nat) as nat) % 256) as u8)
}

/// The concatenated encodings of the elements of `leaf`, appended to `buf`.
fn append_leaf_bytes<C: ByteSerializable>(buf: &mut Vec<u8>, leaf: &Vec<C>)
    ensures
        final(buf)@ == old(buf)@ + leaf_bytes(leaf@),
{
    let mut i: usize = 0;
    proof {
        assert(leaf@.take(0) =~= Seq::<C>::empty());
        assert(old(buf)@ + leaf_bytes(leaf@.take(0)) =~= old(buf)@);
    }
    while i < leaf.len()
        invariant
            i <= leaf@.len(),
            buf@ == old(buf)@ + leaf_bytes(leaf@.take(i as int)),
        decreases leaf@.len() - i,
    {
        let mut bytes = leaf[i].serialize_to_bytes();
        proof {
            assert(leaf@.take(i + 1).drop_last() =~= leaf@.take(i as int));
            assert(old(buf)@ + leaf_bytes(leaf@.take(i + 1)) =~= buf@ + leaf@[i as int].ser());
        }
        buf.append(&mut bytes);
        i = i + 1;
    }
    proof {
        assert(leaf@.take(leaf@.len() as int) =~= leaf@);
    }
}

/// The SHA-256 leaf hash over the encodings of group elements.
pub struct Sha256LeafHash<C> {
    _marker: PhantomData<C>,
}

impl<C: ByteSerializable> Sha256LeafHash<C> {
    /// SHA-256 of the concatenated encodings of the leaf's elements; counts
    /// one evaluation.
    pub fn evaluate(counter: &mut HashCounter, input: &Vec<C>) -> (r: Digest32)
        ensures
            r@ == sha256_digest(leaf_bytes(input@)),
            final(counter).value() == (if old(counter).value() == usize::MAX {
                0
            } else {
                old(counter).value() + 1
            }),
    {
        let mut buf: Vec<u8> = Vec::new();
        append_leaf_bytes(&mut buf, input);
        proof {
            assert(buf@ =~= leaf_bytes(input@));
        }
        let out = sha256(buf.as_slice());
        counter.add();
        out
    }
}

/// The SHA-256 compression of two digests.
pub struct Sha256Compress;

impl Sha256Compress {
    /// SHA-256 of the left digest followed by the right one; counts one
    /// evaluation.
    pub fn evaluate(counter: &mut HashCounter, left: &Digest32, right: &Digest32) -> (r: Digest32)
        ensures
            r@ == sha256_digest(left@ + right@),
            final(counter).value() == (if old(counter).value() == usize::MAX {
                0
            } else {
                old(counter).value() + 1
            }),
    {
        let mut buf: Vec<u8> = Vec::new();
        let mut i: usize = 0;
        while i < 32
            invariant
                i <= 32,
                buf@ == left@.take(i as int),
            decreases 32 - i,
        {
            buf.push(left[i]);
            proof {
                assert(left@.take(i + 1) =~= left@.take(i as int).push(left@[i as int]));
            }
            i = i + 1;
        }
        let mut i: usize = 0;
        while i < 32
            invariant
                i <= 32,
                buf@ == left@ + right@.take(i as int),
            decreases 32 - i,
        {
            buf.push(right[i]);
            proof {
                assert(left@ + right@.take(i + 1) =~= (left@ + right@.take(i as int)).push(right@[i as int]));
            }
            i = i + 1;
        }
        proof {
            assert(left@.take(32) =~= left@);
            assert(right@.take(32) =~= right@);
        }
        let out = sha256(buf.as_slice());
        counter.add();
        out
    }

    /// The same as `evaluate`.
    pub fn compress(counter: &mut HashCounter, left: &Digest32, right: &Digest32) -> (r: Digest32)
        ensures
            r@ == sha256_digest(left@ + right@),
            final(counter).value() == (if old(counter).value() == usize::MAX {
                0
            } else {
                old(counter).value() + 1
            }),
    {
        Self::evaluate(counter, left, right)
    }
}

/// The Keccak-256 leaf hash over a length-prefixed list of encodings.
pub struct KeccakLeafHash<C> {
    _marker: PhantomData<C>,
}

impl<C: ByteSerializable> KeccakLeafHash<C> {
    /// Keccak-256 of the number of elements as eight little-endian bytes
    /// followed by their encodings; counts one evaluation.
    pub fn evaluate(counter: &mut HashCounter, input: &Vec<C>) -> (r: Digest32)
        ensures
            r@ == keccak256_digest(le64(input@.len()) + leaf_bytes(input@)),
            final(counter).value() == (if old(counter).value() == usize::MAX {
                0
            } else {
                old(counter).value() + 1
            }),
    {
        let n = input.len() as u64;
        let mut buf: Vec<u8> = Vec::new();
        let mut rest: u64 = n;
        let mut i: usize = 0;
        proof {
            vstd::arithmetic::power::lemma_pow0(256);
            assert((n as nat) / 1 == n as nat);
        }
        while i < 8
            invariant
                i <= 8,
                n == input@.len(),
                buf@.len() == i,
                rest as nat == (n as nat) / (vstd::arithmetic::power::pow(256, i as nat) as nat),
                vstd::arithmetic::power::pow(256, i as nat) > 0,
                forall|t: int| 0 <= t < i ==> #[trigger] buf@[t] == le64(n as nat)[t],
            decreases 8 - i,
        {
            let ghost p = vstd::arithmetic::power::pow(256, i as nat);
            buf.push((rest % 256) as u8);
            proof {
                vstd::arithmetic::power::lemma_pow_adds(256, i as nat, 1);
                vstd::arithmetic::power::lemma_pow1(256);
                vstd::arithmetic::div_mod::lemma_div_denominator(n as int, p, 256);
                assert(p * 256 > 0) by (nonlinear_arith)
                    requires
                        p > 0,
                ;
            }
            rest = rest / 256;
            i = i + 1;
        }
        proof {
            assert(buf@ =~= le64(input@.len()));
        }
        append_leaf_bytes(&mut buf, input);
        let out = keccak256(buf.as_slice());
        counter.add();
        out
    }
}

/// The Keccak-256 compression of two digests.
pub struct KeccakCompress;

impl KeccakCompress {
    /// Keccak-256 of the left digest followed by the right one; counts one
    /// evaluation.
    pub fn evaluate(counter: &mut HashCounter, left: &Digest32, right: &Digest32) -> (r: Digest32)
        ensures
            r@ == keccak256_digest(left@ + right@),
            final(counter).value() == (if old(counter).value() == usize::MAX {
                0
            } else {
                old(counter).value() + 1
            }),
    {
        let mut buf: Vec<u8> = Vec::new();
        let mut i: usize = 0;
        while i < 64
            invariant
                i <= 64,
                buf@.len() == i,
                forall|t: int| 0 <= t < i ==> #[trigger] buf@[t] == (left@ + right@)[t],
            decreases 64 - i,
        {
            let b = if i < 32 {
                left[i]
            } else {
                right[i - 32]
            };
            buf.push(b);
            i = i + 1;
        }
        proof {
            assert(buf@ =~= left@ + right@);
        }
        let out = keccak256(buf.as_slice());
        counter.add();
        out
    }

    /// The same as `evaluate`.
    pub fn compress(counter: &mut HashCounter, left: &Digest32, right: &Digest32) -> (r: Digest32)
        ensures
            r@ == keccak256_digest(left@ + right@),
            final(counter).value() == (if old(counter).value() == usize::MAX {
                0
            } else {
                old(counter).value() + 1
            }),
    {
        Self::evaluate(counter, left, right)
    }
}

/// The converter between the leaf digests and the inner digests, which are
/// of one type.
pub struct IdentityDigestConverter<T> {
    _prev_layer_digest: PhantomData<T>,
}

impl<T> IdentityDigestConverter<T> {
    /// The digest, unchanged.
    pub fn convert(item: T) -> (r: T)
        ensures
            r == item,
    {
        item
    }
}

/// The configuration of a Merkle tree: the leaf element type, the leaf hash,
/// the compression and the digest type.
pub struct MerkleTreeParams<G, LeafH, CompressH, D> {
    _marker: PhantomData<(G, LeafH, CompressH, D)>,
}

/// How a prover opens several leaves: one path per leaf, or one multi-path
/// that shares the common nodes.
#[derive(Clone, Copy, Debug, PartialEq, Eq, Structural)]
pub enum MerkleProofStrategy {
    Uncompressed,
    Compressed,
}

/// The prover's state for Merkle openings: the strategy it opens with.
pub struct GroupWhirProverMerkleState {
    pub strategy: MerkleProofStrategy,
}

impl GroupWhirProverMerkleState {
    /// The state for the given strategy.
    pub fn new(strategy: MerkleProofStrategy) -> (r: Self)
        ensures
            r.strategy == strategy,
    {
        GroupWhirProverMerkleState { strategy }
    }
}

} // verus!
