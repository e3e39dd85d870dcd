//! The scalar field of the Pallas curve, held as canonical little-endian bytes.
use vstd::prelude::*;
use vstd::arithmetic::power::pow;
use ff::{Field, PrimeField};
use pasta_curves::pallas::Scalar as Fq;

verus! {

/// The order `q` of the Pallas group, which is the modulus of its scalar field.
pub open spec fn q() -> int {
    0x40000000000000000000000000000000224698fc0994a8dd8c46eb2100000001int
}

/// Little-endian value of a byte string.
pub open spec fn le_val(s: Seq<u8>) -> nat
    decreases s.len(),
{
    if s.len() == 0 {
        0
    } else {
        s[0] as nat + 256 * le_val(s.drop_first())
    }
}

/// Two byte strings of one length with the same little-endian value are equal.
pub proof fn lemma_le_val_injective(s: Seq<u8>, t: Seq<u8>)
    requires
        s.len() == t.len(),
        le_val(s) == le_val(t),
    ensures
        s == t,
    decreases s.len(),
{
    if s.len() > 0 {
        lemma_le_val_injective(s.drop_first(), t.drop_first());
        assert(s =~= seq![s[0]] + s.drop_first());
        assert(t =~= seq![t[0]] + t.drop_first());
    }
}

/// An element of the Pallas scalar field: its canonical 32-byte little-endian encoding.
#[derive(Clone, Copy, Debug, PartialEq, Eq)]
pub struct Fr {
    bytes: [u8; 32],
}

impl Fr {
    /// The integer in `[0, q)` that this element stands for.
    pub closed spec fn val(&self) -> int {
        (le_val(self.bytes@) as int) % q()
    }

    /// The canonical encoding of this element.
    pub closed spec fn enc(&self) -> Seq<u8> {
        self.bytes@
    }

    #[verifier::type_invariant]
    pub closed spec fn canonical(&self) -> bool {
        le_val(self.bytes@) < q()
    }

    /// Every element stands for an integer in `[0, q)`.
    pub proof fn lemma_val_range(&self)
        ensures
            0 <= self.val() < q(),
    {
    }

    /// The canonical little-endian encoding of this element.
    pub fn to_bytes(&self) -> (r: [u8; 32])
        ensures
            r@ == self.enc(),
            le_val(r@) == self.val(),
    {
        proof {
            use_type_invariant(self);
            vstd::arithmetic::div_mod::lemma_small_mod(le_val(self.bytes@), q() as nat);
        }
        self.bytes
    }
}

/// Two canonical elements that stand for the same integer are the same.
pub proof fn lemma_fr_val_eq(a: Fr, b: Fr)
    requires
        a.canonical(),
        b.canonical(),
        a.val() == b.val(),
    ensures
        a == b,
{
    vstd::arithmetic::div_mod::lemma_small_mod(le_val(a.bytes@), q() as nat);
    vstd::arithmetic::div_mod::lemma_small_mod(le_val(b.bytes@), q() as nat);
    lemma_le_val_injective(a.bytes@, b.bytes@);
    assert(a.bytes =~= b.bytes);
}

/// Whether two elements stand for the same integer.
pub fn fr_eq(a: &Fr, b: &Fr) -> (r: bool)
    ensures
        r == (a.val() == b.val()),
{
    a.same(b)
}

impl Fr {
    fn same(&self, other: &Fr) -> (r: bool)
        ensures
            r == (self.val() == other.val()),
    {
        proof {
            use_type_invariant(self);
            use_type_invariant(other);
            vstd::arithmetic::div_mod::lemma_small_mod(le_val(self.bytes@), q() as nat);
            vstd::arithmetic::div_mod::lemma_small_mod(le_val(other.bytes@), q() as nat);
        }
        let mut i: usize = 0;
        while i < 32
            invariant
                0 <= i <= 32,
                forall|j: int| 0 <= j < i ==> self.bytes@[j] == other.bytes@[j],
            decreases 32 - i,
        {
            if self.bytes[i] != other.bytes[i] {
                proof {
                    use_type_invariant(self);
                    use_type_invariant(other);
                    vstd::arithmetic::div_mod::lemma_small_mod(le_val(self.bytes@), q() as nat);
                    vstd::arithmetic::div_mod::lemma_small_mod(le_val(other.bytes@), q() as nat);
                    if self.val() == other.val() {
                        lemma_le_val_injective(self.bytes@, other.bytes@);
                    }
                }
                return false;
            }
            i = i + 1;
        }
        proof {
            assert(self.bytes@ =~= other.bytes@);
            assert(self.val() == other.val());
        }
        true
    }
}

/// Sum through `pasta_curves` (`Add` for `Fq`): the sum reduced modulo `q`.
#[verifier::external_body]
pub fn fr_add(a: &Fr, b: &Fr) -> (r: Fr)
    ensures
        r.val() == (a.val() + b.val()) % q(),
{
    Fr { bytes: (Fq::from_repr(a.bytes).unwrap() + Fq::from_repr(b.bytes).unwrap()).to_repr() }
}

/// Difference through `pasta_curves` (`Sub` for `Fq`): the difference reduced modulo `q`.
#[verifier::external_body]
pub fn fr_sub(a: &Fr, b: &Fr) -> (r: Fr)
    ensures
        r.val() == (a.val() - b.val()) % q(),
{
    Fr { bytes: (Fq::from_repr(a.bytes).unwrap() - Fq::from_repr(b.bytes).unwrap()).to_repr() }
}

/// Product through `pasta_curves` (`Mul` for `Fq`): the product reduced modulo `q`.
#[verifier::external_body]
pub fn fr_mul(a: &Fr, b: &Fr) -> (r: Fr)
    ensures
        r.val() == (a.val() * b.val()) % q(),
{
    Fr { bytes: (Fq::from_repr(a.bytes).unwrap() * Fq::from_repr(b.bytes).unwrap()).to_repr() }
}

/// Inverse through `pasta_curves` (`Field::invert` for `Fq`): none for zero,
/// otherwise the element whose product with `a` is one modulo `q`.
#[verifier::external_body]
pub fn fr_invert(a: &Fr) -> (r: Option<Fr>)
    ensures
        r.is_some() == (a.val() != 0),
        r matches Some(x) ==> (x.val() * a.val()) % q() == 1,
{
    let inv = Fq::from_repr(a.bytes).unwrap().invert();
    if bool::from(inv.is_some()) {
        Some(Fr { bytes: inv.unwrap().to_repr() })
    } else {
        None
    }
}

/// Embedding of a machine integer through `pasta_curves` (`From<u64>` for `Fq`).
#[verifier::external_body]
pub fn fr_from_u64(x: u64) -> (r: Fr)
    ensures
        r.val() == x as int,
{
    Fr { bytes: Fq::from(x).to_repr() }
}

/// Power with a machine-integer exponent through `pasta_curves`
/// (`Field::pow_vartime` for `Fq`): `a^e` reduced modulo `q`.
#[verifier::external_body]
pub fn fr_pow(a: &Fr, e: u64) -> (r: Fr)
    ensures
        r.val() == pow(a.val(), e as nat) % q(),
{
    Fr { bytes: Fq::from_repr(a.bytes).unwrap().pow_vartime([e]).to_repr() }
}

/// Reduction of a 256-bit little-endian integer through `pasta_curves`
/// (`Fq::from_raw` on its four 64-bit limbs): that integer modulo `q`.
#[verifier::external_body]
pub fn fr_from_raw(b: &[u8; 32]) -> (r: Fr)
    ensures
        r.val() == (le_val(b@) as int) % q(),
{
    let mut limbs = [0u64; 4];
    for i in 0..4 {
        limbs[i] = u64::from_le_bytes(b[i * 8..(i + 1) * 8].try_into().unwrap());
    }
    Fr { bytes: Fq::from_raw(limbs).to_repr() }
}

/// The element `0`.
pub fn fr_zero() -> (r: Fr)
    ensures
        r.val() == 0,
{
    fr_from_u64(0)
}

/// The element `1`.
pub fn fr_one() -> (r: Fr)
    ensures
        r.val() == 1,
{
    fr_from_u64(1)
}

/// `1 - a` in the field.
pub fn fr_one_minus(a: &Fr) -> (r: Fr)
    ensures
        r.val() == (1 - a.val()) % q(),
{
    fr_sub(&fr_one(), a)
}


/// The 32-byte little-endian encoding of an integer in `[0, 2^256)`.
pub open spec fn le32(v: int) -> Seq<u8> {
    Seq::new(32, |i: int| ((v / pow256_int(i as nat)) % 256) as u8)
}

/// `256^n` as an integer.
pub open spec fn pow256_int(n: nat) -> int
    decreases n,
{
    if n == 0 {
        1
    } else {
        256 * pow256_int((n - 1) as nat)
    }
}

proof fn lemma_le_val_of_digits(v: int, k: nat, n: nat)
    requires
        v >= 0,
    ensures
        le_val(Seq::new(n, |i: int| ((v / pow256_int((k + i) as nat)) % 256) as u8)) as int == (v / pow256_int(k))
            % pow256_int(n),
    decreases n,
{
    lemma_pow256_pos(k);
    lemma_pow256_pos(n);
    let s = Seq::new(n, |i: int| ((v / pow256_int((k + i) as nat)) % 256) as u8);
    if n == 0 {
        assert((v / pow256_int(k)) % 1 == 0);
    } else {
        let w = v / pow256_int(k);
        lemma_le_val_of_digits(v, k + 1, (n - 1) as nat);
        let t = Seq::new((n - 1) as nat, |i: int| ((v / pow256_int((k + 1 + i) as nat)) % 256) as u8);
        assert(s.drop_first() =~= t);
        lemma_pow256_pos((n - 1) as nat);
        vstd::arithmetic::div_mod::lemma_div_denominator(v, pow256_int(k), 256);
        assert(pow256_int(k + 1) == pow256_int(k) * 256);
        assert(v / pow256_int(k + 1) == w / 256);
        assert(s[0] as int == w % 256);
        vstd::arithmetic::div_mod::lemma_mod_breakdown(w, 256, pow256_int((n - 1) as nat));
        assert(pow256_int(n) == 256 * pow256_int((n - 1) as nat));
    }
}

proof fn lemma_pow256_pos(n: nat)
    ensures
        pow256_int(n) >= 1,
    decreases n,
{
    if n > 0 {
        lemma_pow256_pos((n - 1) as nat);
    }
}

/// An encoding whose little-endian value is the element's value is the
/// 32-byte little-endian encoding of that value.
pub proof fn lemma_enc_le32(x: Fr)
    requires
        le_val(x.enc()) == x.val(),
    ensures
        x.enc() == le32(x.val()),
{
    assert(q() < pow256_int(32)) by {
        reveal_with_fuel(pow256_int, 33);
    }
    x.lemma_val_range();
    let v = x.val();
    lemma_le_val_of_digits(v, 0, 32);
    assert(Seq::new(32, |i: int| ((v / pow256_int((0 + i) as nat)) % 256) as u8) =~= le32(v));
    vstd::arithmetic::div_mod::lemma_small_mod(v as nat, pow256_int(32) as nat);
    assert(v / pow256_int(0) == v);
    lemma_le_val_injective(x.bytes@, le32(v));
}


/// A held element's encoding is the 32-byte little-endian encoding of its
/// value.
pub proof fn lemma_canonical_enc(x: Fr)
    requires
        x.canonical(),
    ensures
        x.enc() == le32(x.val()),
{
    vstd::arithmetic::div_mod::lemma_small_mod(le_val(x.bytes@), q() as nat);
    lemma_enc_le32(x);
}

/// The element whose encoding is the 32-byte little-endian encoding of `v`.
pub closed spec fn fr_of_val(v: int) -> Fr {
    choose|x: Fr| x.enc() == le32(v)
}

/// For a value in `[0, q)`, the element `fr_of_val` names is canonical and
/// stands for that value.
pub proof fn lemma_fr_of_val_val(v: int)
    requires
        0 <= v < q(),
    ensures
        fr_of_val(v).val() == v,
        fr_of_val(v).canonical(),
{
    let arr: [u8; 32] = [le32(v)[0], le32(v)[1], le32(v)[2], le32(v)[3], le32(v)[4], le32(v)[5], le32(v)[6], le32(v)[7], le32(v)[8], le32(v)[9], le32(v)[10], le32(v)[11], le32(v)[12], le32(v)[13], le32(v)[14], le32(v)[15], le32(v)[16], le32(v)[17], le32(v)[18], le32(v)[19], le32(v)[20], le32(v)[21], le32(v)[22], le32(v)[23], le32(v)[24], le32(v)[25], le32(v)[26], le32(v)[27], le32(v)[28], le32(v)[29], le32(v)[30], le32(v)[31]];
    let x = Fr { bytes: arr };
    assert(x.bytes@ =~= le32(v));
    assert(x.enc() == le32(v));
    let y = fr_of_val(v);
    assert(y.enc() == le32(v));
    assert(q() < pow256_int(32)) by {
        reveal_with_fuel(pow256_int, 33);
    }
    lemma_le_val_of_digits(v, 0, 32);
    assert(Seq::new(32, |i: int| ((v / pow256_int((0 + i) as nat)) % 256) as u8) =~= le32(v));
    vstd::arithmetic::div_mod::lemma_small_mod(v as nat, pow256_int(32) as nat);
    vstd::arithmetic::div_mod::lemma_small_mod(v as nat, q() as nat);
    assert(v / pow256_int(0) == v);
}

/// An element encoded by the encoding of its value is the element
/// `fr_of_val` names for that value.
pub proof fn lemma_fr_of_val(x: Fr)
    requires
        x.enc() == le32(x.val()),
    ensures
        fr_of_val(x.val()) == x,
{
    let y = fr_of_val(x.val());
    assert(y.enc() == le32(x.val()));
    assert(y.bytes =~= x.bytes);
}

/// A little-endian value splits at any position into the value of the
/// prefix and `256^k` times the value of the rest.
proof fn lemma_le_val_split(s: Seq<u8>, k: nat)
    requires
        k <= s.len(),
    ensures
        le_val(s) as int == le_val(s.take(k as int)) as int + pow256_int(k) * le_val(s.skip(k as int)) as int,
    decreases k,
{
    if k == 0 {
        assert(s.skip(0) =~= s);
        assert(s.take(0) =~= Seq::<u8>::empty());
        assert(le_val(s.take(0)) == 0);
        assert(pow256_int(0) == 1);
        assert(pow256_int(0) * le_val(s) as int == le_val(s) as int);
    } else {
        lemma_le_val_split(s.drop_first(), (k - 1) as nat);
        assert(s.take(k as int).drop_first() =~= s.drop_first().take(k - 1));
        assert(s.drop_first().skip(k - 1) =~= s.skip(k as int));
        assert(pow256_int(k) == 256 * pow256_int((k - 1) as nat));
        let a = le_val(s.drop_first().take(k - 1)) as int;
        let b = le_val(s.skip(k as int)) as int;
        assert(256 * (a + pow256_int((k - 1) as nat) * b) == 256 * a + (256 * pow256_int((k - 1) as nat)) * b) by (nonlinear_arith);
        assert(le_val(s) == s[0] as nat + 256 * le_val(s.drop_first()));
        assert(s.take(k as int)[0] == s[0]);
        assert(le_val(s.take(k as int)) == s[0] as nat + 256 * le_val(s.take(k as int).drop_first()));
        assert(le_val(s.drop_first()) as int == a + pow256_int((k - 1) as nat) * b);
        assert(le_val(s) as int == s[0] as int + 256 * (a + pow256_int((k - 1) as nat) * b));
        assert(le_val(s.take(k as int)) as int == s[0] as int + 256 * a);
    }
}

/// The value of an element below `2^64`, read from the first eight bytes of
/// its encoding.
pub fn fr_to_u64(x: &Fr) -> (r: u64)
    requires
        x.val() < 0x1_0000_0000_0000_0000,
    ensures
        r as int == x.val(),
{
    let b = x.to_bytes();
    let mut acc: u64 = 0;
    let mut i: usize = 8;
    proof {
        lemma_le_val_split(b@, 8);
        lemma_pow256_pos(8);
        assert(pow256_int(8) == 0x1_0000_0000_0000_0000) by {
            reveal_with_fuel(pow256_int, 9);
        }
        if le_val(b@.skip(8)) > 0 {
            assert(pow256_int(8) * le_val(b@.skip(8)) as int >= pow256_int(8)) by (nonlinear_arith)
                requires
                    le_val(b@.skip(8)) > 0,
                    pow256_int(8) > 0,
            ;
        }
        assert(le_val(b@.take(8)) == x.val());
        assert(b@.take(8).subrange(8, 8) =~= Seq::<u8>::empty());
    }
    while i > 0
        invariant
            i <= 8,
            b@.len() == 32,
            acc as int == le_val(b@.take(8).subrange(i as int, 8)) as int,
            (acc as int) < pow256_int((8 - i) as nat),
            pow256_int(8) == 0x1_0000_0000_0000_0000,
        decreases i,
    {
        let j = i - 1;
        let ghost t = b@.take(8).subrange(j as int, 8);
        proof {
            assert(t.drop_first() =~= b@.take(8).subrange(i as int, 8));
            assert(t[0] == b@[j as int]);
            assert(pow256_int((8 - j) as nat) == 256 * pow256_int((8 - i) as nat));
            lemma_pow256_mono((8 - j) as nat, 8);
            assert(b@[j as int] as int + 256 * (acc as int) < 256 * pow256_int((8 - i) as nat)) by (nonlinear_arith)
                requires
                    (acc as int) < pow256_int((8 - i) as nat),
                    b@[j as int] < 256,
            ;
        }
        acc = b[j] as u64 + 256 * acc;
        i = j;
    }
    proof {
        assert(b@.take(8).subrange(0, 8) =~= b@.take(8));
    }
    acc
}

/// `256^a <= 256^b` when `a <= b`.
proof fn lemma_pow256_mono(a: nat, b: nat)
    requires
        a <= b,
    ensures
        pow256_int(a) <= pow256_int(b),
    decreases b,
{
    lemma_pow256_pos(a);
    if a < b {
        lemma_pow256_mono(a, (b - 1) as nat);
        lemma_pow256_pos((b - 1) as nat);
    }
}

/// A uniformly random element (`Field::random` for `Fq` on `rand::thread_rng()`).
#[verifier::external_body]
pub(crate) fn fr_random() -> (r: Fr) {
    Fr { bytes: Fq::random(rand::thread_rng()).to_repr() }
}

} // verus!
