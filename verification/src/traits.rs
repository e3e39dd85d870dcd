//! The algebraic interfaces the protocols are written against: vectors over
//! the Pallas scalar field (the field itself and the Pallas group), their
//! inner products with scalar vectors, and their byte encodings.
use vstd::prelude::*;
use crate::field::{q, le_val, Fr, fr_add, fr_sub, fr_mul, fr_zero, fr_from_raw, fr_eq};
use crate::group::{Pt, pt_identity, pt_add, pt_sub, pt_scale, pt_eq, pt_msm, pt_from_bytes, pallas_decodes, pallas_decoded_log};
use crate::sums::{ssum, dot, min_len, lemma_ssum_push};
use vstd::arithmetic::div_mod::lemma_add_mod_noop;

verus! {

/// The values in `Z_q` that a sequence of vectors stands for.
pub open spec fn lvals<C: Linear>(s: Seq<C>) -> Seq<int> {
    s.map_values(|c: C| c.lin_val())
}

/// A one-dimensional vector space over the Pallas scalar field: each element
/// stands for a value in `Z_q` and the operations act on those values.
pub trait Linear: Sized + Copy {
    /// The value in `[0, q)` that this element stands for.
    spec fn lin_val(&self) -> int;

    proof fn lemma_lin_range(&self)
        ensures
            0 <= self.lin_val() < q(),
    ;

    fn zero() -> (r: Self)
        ensures
            r.lin_val() == 0,
    ;

    fn lin_add(&self, other: &Self) -> (r: Self)
        ensures
            r.lin_val() == (self.lin_val() + other.lin_val()) % q(),
    ;

    fn lin_sub(&self, other: &Self) -> (r: Self)
        ensures
            r.lin_val() == (self.lin_val() - other.lin_val()) % q(),
    ;

    fn lin_scale(&self, s: &Fr) -> (r: Self)
        ensures
            r.lin_val() == (self.lin_val() * s.val()) % q(),
    ;

    fn lin_eq(&self, other: &Self) -> (r: bool)
        ensures
            r == (self.lin_val() == other.lin_val()),
    ;
}

/// Inner products of vectors with scalars.
pub trait InnerProduct: Linear {
    /// `Σ_i bases[i] · scalars[i]` over the common length, term by term.
    fn inner_product(bases: &[Self], scalars: &[Fr]) -> (r: Self)
        ensures
            r.lin_val() == dot(lvals(bases@), lvals(scalars@)) % q(),
    ;

    /// The same inner product, computed by multi-scalar multiplication.
    fn inner_product_msm(bases: &[Self], scalars: &[Fr]) -> (r: Self)
        requires
            bases.len() == scalars.len(),
        ensures
            r.lin_val() == dot(lvals(bases@), lvals(scalars@)) % q(),
    ;

    /// The same inner product, first summing the bases that share a scalar.
    fn inner_product_orbit(bases: &[Self], scalars: &[Fr]) -> (r: Self)
        requires
            bases.len() == scalars.len(),
        ensures
            r.lin_val() == dot(lvals(bases@), lvals(scalars@)) % q(),
    ;

    /// The bases in the form the multi-scalar multiplication takes.
    fn to_affine(bases: &[Self]) -> (r: Vec<Self>)
        ensures
            r@ == bases@,
    ;
}

/// Encodings to and from bytes.
pub trait ByteSerializable: Sized {
    /// The encoding of this value.
    spec fn ser(&self) -> Seq<u8>;

    fn serialize_to_bytes(&self) -> (r: Vec<u8>)
        ensures
            r@ == self.ser(),
            r@.len() == 32,
    ;

    fn deserialize_from_bytes(bytes: &[u8]) -> Option<Self>
        requires
            bytes.len() >= 32,
    ;
}

/// `Σ_i bases[i] · scalars[i]` over the common length, term by term.
pub fn linear_combination<C: Linear>(bases: &[C], scalars: &[Fr]) -> (r: C)
    ensures
        r.lin_val() == dot(lvals(bases@), lvals(scalars@)) % q(),
{
    let n = if bases.len() <= scalars.len() {
        bases.len()
    } else {
        scalars.len()
    };
    let ghost terms = Seq::new(
        min_len(bases@.len() as int, scalars@.len() as int) as nat,
        |i: int| lvals(bases@)[i] * lvals(scalars@)[i],
    );
    let mut acc = C::zero();
    let mut i: usize = 0;
    while i < n
        invariant
            i <= n,
            n == terms.len(),
            n <= bases.len(),
            n <= scalars.len(),
            terms == Seq::new(
                min_len(bases@.len() as int, scalars@.len() as int) as nat,
                |i: int| lvals(bases@)[i] * lvals(scalars@)[i],
            ),
            acc.lin_val() == ssum(terms.take(i as int)) % q(),
        decreases n - i,
    {
        let t = bases[i].lin_scale(&scalars[i]);
        let next = acc.lin_add(&t);
        proof {
            lemma_ssum_push(terms, i as int);
            assert(terms[i as int] == bases@[i as int].lin_val() * scalars@[i as int].val());
            lemma_add_mod_noop(ssum(terms.take(i as int)), terms[i as int], q());
            vstd::arithmetic::div_mod::lemma_mod_twice(ssum(terms.take(i as int)), q());
            vstd::arithmetic::div_mod::lemma_mod_twice(terms[i as int], q());
        }
        acc = next;
        i = i + 1;
    }
    proof {
        assert(terms.take(n as int) =~= terms);
    }
    acc
}

impl Linear for Fr {
    open spec fn lin_val(&self) -> int {
        self.val()
    }

    proof fn lemma_lin_range(&self) {
        self.lemma_val_range();
    }

    fn zero() -> (r: Fr) {
        fr_zero()
    }

    fn lin_add(&self, other: &Fr) -> (r: Fr) {
        fr_add(self, other)
    }

    fn lin_sub(&self, other: &Fr) -> (r: Fr) {
        fr_sub(self, other)
    }

    fn lin_scale(&self, s: &Fr) -> (r: Fr) {
        fr_mul(self, s)
    }

    fn lin_eq(&self, other: &Fr) -> (r: bool) {
        fr_eq(self, other)
    }
}

impl Linear for Pt {
    open spec fn lin_val(&self) -> int {
        self.log()
    }

    proof fn lemma_lin_range(&self) {
        self.lemma_log_range();
    }

    fn zero() -> (r: Pt) {
        pt_identity()
    }

    fn lin_add(&self, other: &Pt) -> (r: Pt) {
        pt_add(self, other)
    }

    fn lin_sub(&self, other: &Pt) -> (r: Pt) {
        pt_sub(self, other)
    }

    fn lin_scale(&self, s: &Fr) -> (r: Pt) {
        pt_scale(self, s)
    }

    fn lin_eq(&self, other: &Pt) -> (r: bool) {
        pt_eq(self, other)
    }
}

impl InnerProduct for Fr {
    fn inner_product(bases: &[Fr], scalars: &[Fr]) -> (r: Fr) {
        linear_combination(bases, scalars)
    }

    fn inner_product_msm(bases: &[Fr], scalars: &[Fr]) -> (r: Fr) {
        Self::inner_product(bases, scalars)
    }

    fn inner_product_orbit(bases: &[Fr], scalars: &[Fr]) -> (r: Fr) {
        Self::inner_product_msm(bases, scalars)
    }

    fn to_affine(bases: &[Fr]) -> (r: Vec<Fr>) {
        vstd::slice::slice_to_vec(bases)
    }
}

impl InnerProduct for Pt {
    fn inner_product(bases: &[Pt], scalars: &[Fr]) -> (r: Pt) {
        linear_combination(bases, scalars)
    }

    fn inner_product_msm(bases: &[Pt], scalars: &[Fr]) -> (r: Pt) {
        if bases.len() == 0 {
            let r = pt_identity();
            proof {
                let t = Seq::new(
                    min_len(lvals(bases@).len() as int, lvals(scalars@).len() as int) as nat,
                    |i: int| lvals(bases@)[i] * lvals(scalars@)[i],
                );
                assert(t.len() == 0);
                assert(ssum(t) == 0);
            }
            r
        } else {
            let r = pt_msm(bases, scalars);
            proof {
                assert(lvals(bases@) =~= bases@.map_values(|p: Pt| p.log()));
                assert(lvals(scalars@) =~= scalars@.map_values(|s: Fr| s.val()));
            }
            r
        }
    }

    /// Sums the bases of each orbit (the positions that share a scalar),
    /// then makes one multi-scalar multiplication over the orbits.
    fn inner_product_orbit(bases: &[Pt], scalars: &[Fr]) -> (r: Pt) {
        let n = bases.len();
        let ghost bv = lvals(bases@);
        let ghost sv = lvals(scalars@);
        let mut keys: Vec<Fr> = Vec::new();
        let mut sums: Vec<Pt> = Vec::new();
        let mut i: usize = 0;
        proof {
            assert(orbit_terms(lvals(sums@), lvals(keys@)).len() == 0);
            assert(orbit_terms(bv.take(0), sv.take(0)).len() == 0);
        }
        while i < n
            invariant
                i <= n,
                n == bases@.len(),
                n == scalars@.len(),
                bv == lvals(bases@),
                sv == lvals(scalars@),
                keys@.len() == sums@.len(),
                ssum(orbit_terms(lvals(sums@), lvals(keys@))) % q() == ssum(orbit_terms(bv.take(i as int), sv.take(i as int)))
                    % q(),
            decreases n - i,
        {
            let ghost ot_old = orbit_terms(lvals(sums@), lvals(keys@));
            let ghost pt_old = orbit_terms(bv.take(i as int), sv.take(i as int));
            let ghost b = bv[i as int];
            let ghost s = sv[i as int];
            proof {
                assert(orbit_terms(bv.take(i + 1), sv.take(i + 1)) =~= pt_old.push(b * s));
            }
            let mut g: usize = 0;
            let mut found = false;
            while g < keys.len() && !found
                invariant
                    g <= keys@.len(),
                    found ==> g < keys@.len() && keys@[g as int].val() == scalars@[i as int].val(),
                    i < scalars@.len(),
                decreases keys@.len() - g + (if found { 0int } else { 1int }),
            {
                if fr_eq(&keys[g], &scalars[i]) {
                    found = true;
                } else {
                    g = g + 1;
                }
            }
            if found {
                let old_sum = sums[g];
                let new_sum = old_sum.lin_add(&bases[i]);
                sums.set(g, new_sum);
                proof {
                    let k = keys@[g as int].val();
                    let o = old_sum.lin_val();
                    assert(orbit_terms(lvals(sums@), lvals(keys@)) =~= ot_old.update(g as int, new_sum.lin_val() * k));
                    crate::sums::lemma_ssum_update(ot_old, g as int, new_sum.lin_val() * k);
                    vstd::arithmetic::div_mod::lemma_mul_mod_noop_left(o + b, k, q());
                    assert(new_sum.lin_val() * k == ((o + b) % q()) * k);
                    crate::sums::lemma_add_congruent(ssum(ot_old) - o * k, new_sum.lin_val() * k, (o + b) * k, q());
                    assert((o + b) * k == o * k + b * s) by (nonlinear_arith)
                        requires
                            k == s,
                    ;
                    crate::sums::lemma_add_congruent(b * s, ssum(ot_old), ssum(pt_old), q());
                }
            } else {
                keys.push(scalars[i]);
                sums.push(bases[i]);
                proof {
                    assert(orbit_terms(lvals(sums@), lvals(keys@)) =~= ot_old.push(b * s));
                    assert(ssum(ot_old.push(b * s)) == ssum(ot_old) + b * s) by {
                        assert(ot_old.push(b * s).drop_last() =~= ot_old);
                    }
                    crate::sums::lemma_add_congruent(b * s, ssum(ot_old), ssum(pt_old), q());
                }
            }
            proof {
                assert(ssum(pt_old.push(b * s)) == ssum(pt_old) + b * s) by {
                    assert(pt_old.push(b * s).drop_last() =~= pt_old);
                }
                assert(ssum(orbit_terms(lvals(sums@), lvals(keys@))) % q() == (ssum(ot_old) + b * s) % q());
            }
            i = i + 1;
        }
        let r = Self::inner_product_msm(sums.as_slice(), keys.as_slice());
        proof {
            assert(bv.take(n as int) =~= bv);
            assert(sv.take(n as int) =~= sv);
            assert(orbit_terms(lvals(sums@), lvals(keys@)) =~= Seq::new(
                min_len(lvals(sums@).len() as int, lvals(keys@).len() as int) as nat,
                |j: int| lvals(sums@)[j] * lvals(keys@)[j],
            ));
            assert(orbit_terms(bv, sv) =~= Seq::new(
                min_len(bv.len() as int, sv.len() as int) as nat,
                |j: int| bv[j] * sv[j],
            ));
            vstd::arithmetic::div_mod::lemma_mod_twice(ssum(orbit_terms(bv, sv)), q());
        }
        r
    }

    fn to_affine(bases: &[Pt]) -> (r: Vec<Pt>) {
        vstd::slice::slice_to_vec(bases)
    }
}

impl ByteSerializable for Fr {
    open spec fn ser(&self) -> Seq<u8> {
        self.enc()
    }

    fn serialize_to_bytes(&self) -> (r: Vec<u8>)
        ensures
            le_val(r@) == self.val(),
    {
        let b = self.to_bytes();
        let mut v: Vec<u8> = Vec::new();
        let mut i: usize = 0;
        while i < 32
            invariant
                i <= 32,
                v@ == b@.take(i as int),
            decreases 32 - i,
        {
            v.push(b[i]);
            proof {
                assert(b@.take(i as int + 1) =~= b@.take(i as int).push(b@[i as int]));
            }
            i = i + 1;
        }
        proof {
            assert(b@.take(32) =~= b@);
        }
        v
    }

    fn deserialize_from_bytes(bytes: &[u8]) -> (r: Option<Fr>)
        ensures
            r matches Some(x) && x.val() == (le_val(bytes@.take(32)) as int) % q(),
    {
        let mut arr = [0u8; 32];
        let mut i: usize = 0;
        while i < 32
            invariant
                i <= 32,
                bytes.len() >= 32,
                forall|j: int| 0 <= j < i ==> arr@[j] == bytes@[j],
            decreases 32 - i,
        {
            arr[i] = bytes[i];
            i = i + 1;
        }
        proof {
            assert(arr@ =~= bytes@.take(32));
        }
        Some(fr_from_raw(&arr))
    }
}

impl ByteSerializable for Pt {
    open spec fn ser(&self) -> Seq<u8> {
        self.encoding()
    }

    fn serialize_to_bytes(&self) -> (r: Vec<u8>)
        ensures
            r@.len() == 32,
            pallas_decodes(r@),
            pallas_decoded_log(r@) % q() == self.log(),
    {
        let b = self.to_bytes();
        let mut v: Vec<u8> = Vec::new();
        let mut i: usize = 0;
        while i < 32
            invariant
                i <= 32,
                v@ == b@.take(i as int),
            decreases 32 - i,
        {
            v.push(b[i]);
            proof {
                assert(b@.take(i as int + 1) =~= b@.take(i as int).push(b@[i as int]));
            }
            i = i + 1;
        }
        proof {
            assert(b@.take(32) =~= b@);
        }
        v
    }

    fn deserialize_from_bytes(bytes: &[u8]) -> (r: Option<Pt>)
        ensures
            r.is_some() == (bytes.len() == 32 && pallas_decodes(bytes@)),
            r matches Some(p) ==> p.encoding() == bytes@,
            r matches Some(p) ==> p.log() == pallas_decoded_log(bytes@) % q(),
    {
        pt_from_bytes(bytes)
    }
}


/// The products `a[j] · b[j]` of two sequences of one length.
pub open spec fn orbit_terms(a: Seq<int>, b: Seq<int>) -> Seq<int> {
    Seq::new(a.len(), |j: int| a[j] * b[j])
}

} // verus!
