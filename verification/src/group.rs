//! Points of the Pallas curve, held as the canonical encodings of their
//! Jacobian coordinates `(X, Y, Z)`.
//!
//! The Pallas group has prime order `q`, so it is cyclic and each point is
//! `k·G` for the fixed generator `G` and one `k` modulo `q`, its discrete
//! logarithm. The contracts below speak of points through that logarithm,
//! which makes the group a one-dimensional vector space over the scalar field.
use vstd::prelude::*;
use crate::field::{q, Fr};
use crate::sums::dot;
use ff::PrimeField;
use pasta_curves::arithmetic::CurveExt;
use pasta_curves::group::{Curve, Group, GroupEncoding};
use pasta_curves::group::prime::PrimeCurveAffine;
use pasta_curves::pallas::{Affine as PAffine, Base as Fp, Point as PPoint, Scalar as Fq};

verus! {

/// Whether `GroupEncoding::from_bytes` of `pasta_curves` decodes these 32
/// bytes to a Pallas point.
pub uninterp spec fn pallas_decodes(enc: Seq<u8>) -> bool;

/// The discrete logarithm, with respect to `Group::generator()` of
/// `pasta_curves`, of the Pallas point with the Jacobian coordinates whose
/// canonical encodings these are (any representative of its class modulo
/// `q`).
pub uninterp spec fn pallas_log(x: Seq<u8>, y: Seq<u8>, z: Seq<u8>) -> int;

/// The discrete logarithm, with respect to `Group::generator()` of
/// `pasta_curves`, of the Pallas point that `GroupEncoding::from_bytes`
/// decodes these 32 bytes to.
pub uninterp spec fn pallas_decoded_log(enc: Seq<u8>) -> int;

/// The compressed encoding (`GroupEncoding::to_bytes` of `pasta_curves`) of
/// the Pallas point with these Jacobian coordinates.
pub uninterp spec fn pallas_compress(x: Seq<u8>, y: Seq<u8>, z: Seq<u8>) -> Seq<u8>;

/// A point of the Pallas curve, by the canonical encodings of its Jacobian
/// coordinates.
#[derive(Clone, Copy, Debug)]
pub struct Pt {
    x: [u8; 32],
    y: [u8; 32],
    z: [u8; 32],
}

impl Pt {
    /// The discrete logarithm of this point, in `[0, q)`.
    pub closed spec fn log(&self) -> int {
        pallas_log(self.x@, self.y@, self.z@) % q()
    }

    /// The encoding of the Jacobian `X` coordinate.
    pub closed spec fn coord_x(&self) -> Seq<u8> {
        self.x@
    }

    /// The encoding of the Jacobian `Y` coordinate.
    pub closed spec fn coord_y(&self) -> Seq<u8> {
        self.y@
    }

    /// The encoding of the Jacobian `Z` coordinate.
    pub closed spec fn coord_z(&self) -> Seq<u8> {
        self.z@
    }

    /// The compressed encoding of this point.
    pub closed spec fn encoding(&self) -> Seq<u8> {
        pallas_compress(self.x@, self.y@, self.z@)
    }

    /// The logarithm of a point lies in `[0, q)`.
    pub proof fn lemma_log_range(&self)
        ensures
            0 <= self.log() < q(),
    {
    }

    /// The compressed 32-byte encoding of this point; it decodes back to a
    /// point with the same logarithm.
    pub fn to_bytes(&self) -> (r: [u8; 32])
        ensures
            r@ == self.encoding(),
            pallas_decodes(r@),
            pallas_decoded_log(r@) % q() == self.log(),
    {
        pt_compress(self)
    }
}

/// The compressed encoding of a point (`GroupEncoding::to_bytes`): the
/// affine `x` with the parity of `y` in the top bit, or 32 zero bytes for the
/// identity. `GroupEncoding::from_bytes` takes such an encoding back to the
/// same point.
#[verifier::external_body]
fn pt_compress(a: &Pt) -> (r: [u8; 32])
    ensures
        r@ == pallas_compress(a.x@, a.y@, a.z@),
        pallas_decodes(r@),
        pallas_decoded_log(r@) % q() == pallas_log(a.x@, a.y@, a.z@) % q(),
{
    let p = PPoint::new_jacobian(Fp::from_repr(a.x).unwrap(), Fp::from_repr(a.y).unwrap(), Fp::from_repr(a.z).unwrap());
    p.unwrap().to_bytes()
}

/// The identity point `Group::identity()`: its logarithm is zero.
#[verifier::external_body]
pub fn pt_identity() -> (r: Pt)
    ensures
        pallas_log(r.coord_x(), r.coord_y(), r.coord_z()) % q() == 0,
        r.log() == 0,
{
    let (x, y, z) = PPoint::identity().jacobian_coordinates();
    Pt { x: x.to_repr(), y: y.to_repr(), z: z.to_repr() }
}

/// The generator `Group::generator()`: its logarithm is one.
#[verifier::external_body]
pub fn pt_generator() -> (r: Pt)
    ensures
        r.log() == 1,
{
    let (x, y, z) = PPoint::generator().jacobian_coordinates();
    Pt { x: x.to_repr(), y: y.to_repr(), z: z.to_repr() }
}

/// Point addition (`Add` for `pallas::Point`): logarithms add.
#[verifier::external_body]
pub fn pt_add(a: &Pt, b: &Pt) -> (r: Pt)
    ensures
        r.log() == (a.log() + b.log()) % q(),
{
    let pa = PPoint::new_jacobian(Fp::from_repr(a.x).unwrap(), Fp::from_repr(a.y).unwrap(), Fp::from_repr(a.z).unwrap());
    let pb = PPoint::new_jacobian(Fp::from_repr(b.x).unwrap(), Fp::from_repr(b.y).unwrap(), Fp::from_repr(b.z).unwrap());
    let (x, y, z) = (pa.unwrap() + pb.unwrap()).jacobian_coordinates();
    Pt { x: x.to_repr(), y: y.to_repr(), z: z.to_repr() }
}

/// Point subtraction (`Sub` for `pallas::Point`): logarithms subtract.
#[verifier::external_body]
pub fn pt_sub(a: &Pt, b: &Pt) -> (r: Pt)
    ensures
        r.log() == (a.log() - b.log()) % q(),
{
    let pa = PPoint::new_jacobian(Fp::from_repr(a.x).unwrap(), Fp::from_repr(a.y).unwrap(), Fp::from_repr(a.z).unwrap());
    let pb = PPoint::new_jacobian(Fp::from_repr(b.x).unwrap(), Fp::from_repr(b.y).unwrap(), Fp::from_repr(b.z).unwrap());
    let (x, y, z) = (pa.unwrap() - pb.unwrap()).jacobian_coordinates();
    Pt { x: x.to_repr(), y: y.to_repr(), z: z.to_repr() }
}

/// Scalar multiplication (`Mul<Scalar>` for `pallas::Point`): the logarithm
/// is multiplied by the scalar.
#[verifier::external_body]
pub fn pt_scale(a: &Pt, s: &Fr) -> (r: Pt)
    ensures
        r.log() == (a.log() * s.val()) % q(),
{
    let pa = PPoint::new_jacobian(Fp::from_repr(a.x).unwrap(), Fp::from_repr(a.y).unwrap(), Fp::from_repr(a.z).unwrap());
    let (x, y, z) = (pa.unwrap() * Fq::from_repr(s.to_bytes()).unwrap()).jacobian_coordinates();
    Pt { x: x.to_repr(), y: y.to_repr(), z: z.to_repr() }
}

/// Point equality (`PartialEq` for `pallas::Point`): equal exactly when the
/// logarithms are; equal points have one compressed encoding.
#[verifier::external_body]
pub fn pt_eq(a: &Pt, b: &Pt) -> (r: bool)
    ensures
        r == (a.log() == b.log()),
        r ==> a.encoding() == b.encoding(),
{
    let pa = PPoint::new_jacobian(Fp::from_repr(a.x).unwrap(), Fp::from_repr(a.y).unwrap(), Fp::from_repr(a.z).unwrap());
    let pb = PPoint::new_jacobian(Fp::from_repr(b.x).unwrap(), Fp::from_repr(b.y).unwrap(), Fp::from_repr(b.z).unwrap());
    pa.unwrap() == pb.unwrap()
}

/// Multi-scalar multiplication by `pasta_msm::pallas` (which indexes its
/// first point, so there must be one): the point whose logarithm is the
/// inner product of the bases' logarithms with the scalars.
#[verifier::external_body]
pub fn pt_msm(bases: &[Pt], scalars: &[Fr]) -> (r: Pt)
    requires
        bases.len() == scalars.len(),
        bases.len() > 0,
    ensures
        r.log() == dot(bases@.map_values(|p: Pt| p.log()), scalars@.map_values(|s: Fr| s.val())) % q(),
{
    let pts: Vec<PPoint> = bases.iter().map(|a| PPoint::new_jacobian(Fp::from_repr(a.x).unwrap(), Fp::from_repr(a.y).unwrap(), Fp::from_repr(a.z).unwrap()).unwrap()).collect();
    let mut aff = vec![PAffine::identity(); pts.len()];
    PPoint::batch_normalize(&pts, &mut aff);
    let ss: Vec<Fq> = scalars.iter().map(|s| Fq::from_repr(s.to_bytes()).unwrap()).collect();
    let (x, y, z) = pasta_msm::pallas(&aff, &ss).jacobian_coordinates();
    Pt { x: x.to_repr(), y: y.to_repr(), z: z.to_repr() }
}

/// Decoding of a compressed point (`GroupEncoding::from_bytes` on 32 bytes):
/// a point exactly when there are 32 bytes and they decode, and then its
/// compressed encoding is those bytes and its logarithm that of the decoded
/// point.
#[verifier::external_body]
pub fn pt_from_bytes(bytes: &[u8]) -> (r: Option<Pt>)
    ensures
        r.is_some() == (bytes.len() == 32 && pallas_decodes(bytes@)),
        r matches Some(p) ==> p.encoding() == bytes@,
        r matches Some(p) ==> p.log() == pallas_decoded_log(bytes@) % q(),
{
    let arr: [u8; 32] = match bytes.try_into() {
        Ok(a) => a,
        Err(_) => return None,
    };
    let p: Option<PPoint> = PPoint::from_bytes(&arr).into();
    p.map(|p| { let (x, y, z) = p.jacobian_coordinates(); Pt { x: x.to_repr(), y: y.to_repr(), z: z.to_repr() } })
}

/// A random point: the generator times a uniformly random scalar
/// (`Field::random` for `Fq` on `rand::thread_rng()`, then `Mul`).
#[verifier::external_body]
pub(crate) fn pt_random() -> (r: Pt) {
    let s = <Fq as ff::Field>::random(rand::thread_rng());
    let (x, y, z) = (PPoint::generator() * s).jacobian_coordinates();
    Pt { x: x.to_repr(), y: y.to_repr(), z: z.to_repr() }
}

} // verus!
