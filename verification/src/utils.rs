//! Helper routines of the commitment scheme: byte views, batch inversion,
//! power vectors and evaluation domains, equality tables and bit reversal.
use vstd::prelude::*;
use ark_ff::{BigInteger, PrimeField as ArkPrimeField};
use ark_poly::EvaluationDomain;
use vstd::arithmetic::power::{pow, lemma_pow_adds, lemma_pow1, lemma_pow0};
use vstd::arithmetic::div_mod::{
    lemma_mul_mod_noop_left, lemma_mul_mod_noop_right, lemma_mod_twice, lemma_div_denominator,
    lemma_fundamental_div_mod, lemma_fundamental_div_mod_converse, lemma_mod_mod, lemma_mod_breakdown,
    lemma_small_mod, lemma_mod_bound, lemma_add_mod_noop,
};
use crate::field::{q, le_val, fr_from_raw, fr_eq, Fr, fr_mul, fr_one, fr_zero, fr_add, fr_invert, fr_pow, fr_one_minus};
use crate::group::{Pt, pallas_decodes, pallas_decoded_log};
use crate::traits::{ByteSerializable, lvals};
use crate::sums::{ssum, exp2, lemma_exp2_pos, lemma_exp2_monotone, lemma_ssum_push, lemma_ssum_single, lemma_ssum_pairs, lemma_ssum_scale, lemma_ssum_mod};
use crate::mle::{eq_at, eq_table, seq_mod, eqf, bits, mle, eq_poly, lemma_eq_at_last, lemma_mle_bits, lemma_mle_eq_table};
use crate::multilinear::{MultilinearPoly, pow2_usize, lemma_mle_seq_mod};

verus! {

/// The slice as a reference to a 32-byte array (`TryFrom<&[u8]>` for
/// `&[u8; 32]`): present exactly when the slice has 32 bytes.
#[verifier::external_body]
fn slice_as_array_32(bytes: &[u8]) -> (r: Option<&[u8; 32]>)
    ensures
        r.is_some() == (bytes@.len() == 32),
        r matches Some(a) ==> a@ == bytes@,
{
    bytes.try_into().ok()
}

/// The bytes as a 32-byte array, when there are exactly 32 of them.
pub fn as_array_32(bytes: &[u8]) -> (r: Option<&[u8; 32]>)
    ensures
        r.is_some() == (bytes@.len() == 32),
        r matches Some(a) ==> a@ == bytes@,
{
    slice_as_array_32(bytes)
}

/// The compressed encoding of a point: 32 bytes that decode back to a point
/// with the same logarithm.
pub fn point_to_bytes(pt: &Pt) -> (r: Vec<u8>)
    ensures
        r@ == pt.encoding(),
        r@.len() == 32,
        pallas_decodes(r@),
        pallas_decoded_log(r@) % q() == pt.log(),
{
    pt.serialize_to_bytes()
}

/// The product of the entries of a sequence.
pub open spec fn fprod(s: Seq<int>) -> int
    decreases s.len(),
{
    if s.len() == 0 {
        1
    } else {
        fprod(s.drop_last()) * s.last()
    }
}

pub proof fn lemma_fprod_push(s: Seq<int>, i: int)
    requires
        0 <= i < s.len(),
    ensures
        fprod(s.take(i + 1)) == fprod(s.take(i)) * s[i],
{
    assert(s.take(i + 1).drop_last() =~= s.take(i));
}

/// The inverses of all inputs, with one field inversion (Montgomery's trick).
/// The inputs must have a product that is not zero modulo `q`.
pub fn batch_invert(input: &[Fr]) -> (r: Vec<Fr>)
    requires
        fprod(lvals(input@)) % q() != 0,
    ensures
        r@.len() == input@.len(),
        forall|i: int| 0 <= i < input@.len() ==> (#[trigger] r@[i].val() * input@[i].val()) % q() == 1,
{
    let n = input.len();
    if n == 0 {
        return Vec::new();
    }
    let ghost v = lvals(input@);
    let mut prefix: Vec<Fr> = Vec::new();
    prefix.push(input[0]);
    proof {
        lemma_fprod_push(v, 0);
        assert(v.take(0).len() == 0);
        input@[0].lemma_val_range();
        lemma_small_mod(v[0] as nat, q() as nat);
    }
    let mut i: usize = 1;
    while i < n
        invariant
            1 <= i <= n,
            n == input@.len(),
            v == lvals(input@),
            prefix@.len() == i,
            forall|j: int| 0 <= j < i ==> #[trigger] prefix@[j].val() == fprod(v.take(j + 1)) % q(),
        decreases n - i,
    {
        let p = fr_mul(&prefix[i - 1], &input[i]);
        proof {
            lemma_fprod_push(v, i as int);
            lemma_mul_mod_noop_left(fprod(v.take(i as int)), v[i as int], q());
        }
        prefix.push(p);
        i = i + 1;
    }
    proof {
        assert(v.take(n as int) =~= v);
    }
    let inv = fr_invert(&prefix[n - 1]);
    let mut acc = inv.unwrap();
    proof {
        lemma_mul_mod_noop_right(acc.val(), fprod(v), q());
    }
    let mut result: Vec<Fr> = Vec::new();
    let zero = fr_zero();
    let mut t: usize = 0;
    while t < n
        invariant
            t <= n,
            result@.len() == t,
        decreases n - t,
    {
        result.push(zero);
        t = t + 1;
    }
    let mut i: usize = n - 1;
    while i >= 1
        invariant
            i < n,
            n == input@.len(),
            v == lvals(input@),
            prefix@.len() == n,
            forall|j: int| 0 <= j < n ==> #[trigger] prefix@[j].val() == fprod(v.take(j + 1)) % q(),
            (acc.val() * fprod(v.take(i + 1))) % q() == 1,
            result@.len() == n,
            forall|j: int| i < j < n ==> (#[trigger] result@[j].val() * input@[j].val()) % q() == 1,
        decreases i,
    {
        let tv = fr_mul(&acc, &prefix[i - 1]);
        let ghost a = acc.val();
        let ghost p = fprod(v.take(i as int));
        let ghost x = v[i as int];
        proof {
            lemma_fprod_push(v, i as int);
            assert(prefix@[i - 1].val() == p % q());
            assert(a * (p * x) == (a * p) * x) by (nonlinear_arith);
            lemma_mul_mod_noop_right(a, p, q());
            lemma_mul_mod_noop_left(a * p, x, q());
        }
        result.set(i, tv);
        acc = fr_mul(&acc, &input[i]);
        proof {
            assert(a * (p * x) == (a * x) * p) by (nonlinear_arith);
            lemma_mul_mod_noop_left(a * x, p, q());
        }
        i = i - 1;
    }
    proof {
        lemma_fprod_push(v, 0);
        assert(v.take(0).len() == 0);
    }
    result.set(0, acc);
    result
}

/// The squares `y, y^2, y^4, ..., y^(2^(l-1))`, in reverse order when asked.
pub fn generate_power_vec(y: Fr, l: usize, reverse: bool) -> (r: Vec<Fr>)
    ensures
        r@.len() == l,
        forall|i: int|
            0 <= i < l ==> #[trigger] r@[i].val() == pow(
                y.val(),
                exp2((if reverse {
                    l - 1 - i
                } else {
                    i
                }) as nat),
            ) % q(),
{
    let mut y_pow: Vec<Fr> = Vec::new();
    let mut yp = y;
    proof {
        lemma_pow1(y.val());
        y.lemma_val_range();
        lemma_small_mod(y.val() as nat, q() as nat);
        assert(exp2(0) == 1);
    }
    let mut i: usize = 0;
    while i < l
        invariant
            i <= l,
            y_pow@.len() == i,
            yp.val() == pow(y.val(), exp2(i as nat)) % q(),
            forall|j: int| 0 <= j < i ==> #[trigger] y_pow@[j].val() == pow(y.val(), exp2(j as nat)) % q(),
        decreases l - i,
    {
        y_pow.push(yp);
        let ghost e = exp2(i as nat);
        proof {
            lemma_pow_adds(y.val(), e, e);
            assert(exp2((i + 1) as nat) == e + e);
            lemma_mul_mod_noop_left(pow(y.val(), e), pow(y.val(), e) % q(), q());
            lemma_mul_mod_noop_right(pow(y.val(), e), pow(y.val(), e), q());
        }
        yp = fr_mul(&yp, &yp);
        i = i + 1;
    }
    if !reverse {
        y_pow
    } else {
        let mut rev: Vec<Fr> = Vec::new();
        let mut j: usize = 0;
        while j < l
            invariant
                j <= l,
                y_pow@.len() == l,
                rev@.len() == j,
                forall|t: int| 0 <= t < j ==> #[trigger] rev@[t] == y_pow@[l - 1 - t],
            decreases l - j,
        {
            rev.push(y_pow[l - 1 - j]);
            j = j + 1;
        }
        rev
    }
}

/// The points `1, h, h^2, ...` of the domain folded `2^folding_param` times,
/// where `h = g^(2^folding_param)` for the generator `g` of a domain of
/// `inv_rate * 2^num_variables` points; there are `|L| / 2^folding_param` of
/// them, and at least the point `1`.
pub fn generate_folded_domain_points(
    domain_gen: Fr,
    inv_rate: usize,
    num_variables: usize,
    folding_param: usize,
) -> (r: Vec<Fr>)
    requires
        exp2(num_variables as nat) <= usize::MAX,
        inv_rate * exp2(num_variables as nat) <= usize::MAX,
        exp2(folding_param as nat) <= usize::MAX,
    ensures
        ({
            let folded_size = (inv_rate * exp2(num_variables as nat)) / (exp2(folding_param as nat) as int);
            let h = pow(domain_gen.val(), exp2(folding_param as nat)) % q();
            &&& r@.len() == if folded_size == 0 {
                1
            } else {
                folded_size
            }
            &&& forall|j: int| 0 <= j < r@.len() ==> #[trigger] r@[j].val() == pow(h, j as nat) % q()
        }),
{
    proof {
        lemma_exp2_pos(folding_param as nat);
    }
    let domain_size = inv_rate * pow2_usize(num_variables);
    let folded_size = domain_size / pow2_usize(folding_param);
    let e: u64 = pow2_usize(folding_param) as u64;
    let folded_gen = fr_pow(&domain_gen, e);
    let ghost h = folded_gen.val();
    let mut points: Vec<Fr> = Vec::new();
    let one = fr_one();
    points.push(one);
    let mut current = folded_gen;
    proof {
        lemma_pow0(h);
        lemma_pow1(h);
        folded_gen.lemma_val_range();
        lemma_small_mod(h as nat, q() as nat);
    }
    let mut j: usize = 1;
    while j < folded_size
        invariant
            1 <= j,
            j <= folded_size || j == 1,
            points@.len() == j,
            current.val() == pow(h, j as nat) % q(),
            0 <= h < q(),
            folded_gen.val() == h,
            forall|t: int| 0 <= t < j ==> #[trigger] points@[t].val() == pow(h, t as nat) % q(),
        decreases folded_size - j,
    {
        points.push(current);
        proof {
            lemma_pow_adds(h, j as nat, 1);
            lemma_pow1(h);
            lemma_mul_mod_noop_left(pow(h, j as nat), h, q());
        }
        current = fr_mul(&current, &folded_gen);
        j = j + 1;
    }
    points
}

/// The table of `eq(alpha, b)` over the boolean cube.
pub fn eq_all(alpha: &[Fr]) -> (r: Vec<Fr>)
    requires
        exp2(alpha.len() as nat) <= usize::MAX,
    ensures
        lvals(r@) == seq_mod(eq_table(lvals(alpha@)), q()),
{
    let poly = MultilinearPoly::<Fr>::init_with_eq(alpha);
    poly.coeffs
}

/// The table of `eq(x, ·)` over the boolean cube sums to one.
pub proof fn law_eq_table_sums_to_one(x: Seq<int>)
    ensures
        ssum(eq_table(x)) == 1,
        ssum(seq_mod(eq_table(x), q())) % q() == 1,
    decreases x.len(),
{
    let t = eq_table(x);
    if x.len() == 0 {
        assert(t.len() == 1);
        assert(t[0] == 1);
        lemma_ssum_single(t);
    } else {
        let y = x.drop_first();
        law_eq_table_sums_to_one(y);
        let u = eq_table(y);
        lemma_exp2_pos(y.len());
        assert(exp2(x.len()) == 2 * exp2(y.len()));
        assert forall|i: int| 0 <= i < u.len() implies #[trigger] u[i] == t[2 * i] + t[2 * i + 1] by {
            vstd::arithmetic::div_mod::lemma_fundamental_div_mod_converse(2 * i, 2, i, 0);
            vstd::arithmetic::div_mod::lemma_fundamental_div_mod_converse(2 * i + 1, 2, i, 1);
            assert(t[2 * i] == (1 - x[0]) * eq_at(y, i));
            assert(t[2 * i + 1] == x[0] * eq_at(y, i));
            let e = eq_at(y, i);
            assert((1 - x[0]) * e + x[0] * e == e) by (nonlinear_arith);
        }
        lemma_ssum_pairs(t, u);
    }
    assert forall|i: int| 0 <= i < t.len() implies #[trigger] seq_mod(t, q())[i] % q() == t[i] % q() by {
        vstd::arithmetic::div_mod::lemma_mod_twice(t[i], q());
    }
    lemma_ssum_mod(seq_mod(t, q()), t, q());
    vstd::arithmetic::div_mod::lemma_small_mod(1, q() as nat);
}

/// `eq(alpha, b)` for the boolean point `b` whose bit `i` is bit `i` of `b_idx`.
pub fn eq_from_index(alpha: &[Fr], b_idx: usize) -> (r: Fr)
    ensures
        r.val() == eq_at(lvals(alpha@), b_idx as int) % q(),
{
    let k = alpha.len();
    let ghost x = lvals(alpha@);
    let mut b: Vec<Fr> = Vec::new();
    let mut ii: usize = b_idx;
    let mut i: usize = 0;
    proof {
        assert(exp2(0) == 1);
    }
    while i < k
        invariant
            i <= k,
            b@.len() == i,
            ii as int == b_idx as int / exp2(i as nat) as int,
            forall|j: int| 0 <= j < i ==> #[trigger] b@[j].val() == (b_idx as int / exp2(j as nat) as int) % 2,
        decreases k - i,
    {
        proof {
            lemma_exp2_pos(i as nat);
            lemma_div_denominator(b_idx as int, exp2(i as nat) as int, 2);
            assert(exp2((i + 1) as nat) == exp2(i as nat) * 2);
        }
        if ii % 2 == 1 {
            b.push(fr_one());
        } else {
            b.push(fr_zero());
        }
        ii = ii / 2;
        i = i + 1;
    }
    let mut kk = fr_one();
    let mut i: usize = 0;
    proof {
        assert(x.skip(0) =~= x);
        assert(b_idx as int / 1 == b_idx as int);
        lemma_small_mod(1, q() as nat);
    }
    while i < k
        invariant
            i <= k,
            k == alpha.len(),
            x == lvals(alpha@),
            b@.len() == k,
            forall|j: int| 0 <= j < k ==> #[trigger] b@[j].val() == (b_idx as int / exp2(j as nat) as int) % 2,
            (kk.val() * eq_at(x.skip(i as int), b_idx as int / exp2(i as nat) as int)) % q() == eq_at(x, b_idx as int) % q(),
        decreases k - i,
    {
        let t1 = fr_mul(&b[i], &alpha[i]);
        let oa = fr_one_minus(&alpha[i]);
        let ob = fr_one_minus(&b[i]);
        let t2 = fr_mul(&oa, &ob);
        let f = fr_add(&t1, &t2);
        let ghost a = x[i as int];
        let ghost d = b_idx as int / exp2(i as nat) as int;
        let ghost e1 = eq_at(x.skip(i + 1), d / 2);
        let ghost kv = kk.val();
        proof {
            lemma_exp2_pos(i as nat);
            lemma_div_denominator(b_idx as int, exp2(i as nat) as int, 2);
            assert(exp2((i + 1) as nat) == exp2(i as nat) * 2);
            assert(x.skip(i as int).drop_first() =~= x.skip(i + 1));
            assert(x.skip(i as int)[0] == a);
            assert(eq_at(x.skip(i as int), d) == eqf(a, d % 2 == 1) * e1);
            alpha@[i as int].lemma_val_range();
            lemma_small_mod(a as nat, q() as nat);
            lemma_small_mod(1, q() as nat);
            lemma_small_mod(0, q() as nat);
            assert(b@[i as int].val() == d % 2);
            assert(a == alpha@[i as int].val());
            assert(t1.val() == (b@[i as int].val() * a) % q());
            assert(f.val() == eqf(a, d % 2 == 1) % q()) by {
                lemma_mod_twice(1 - a, q());
                if d % 2 == 1 {
                    assert(b@[i as int].val() * a == a) by (nonlinear_arith)
                        requires
                            b@[i as int].val() == 1,
                    ;
                    assert(t1.val() == a);
                    assert(ob.val() == 0);
                    assert(oa.val() * ob.val() == 0) by (nonlinear_arith)
                        requires
                            ob.val() == 0,
                    ;
                    assert(t2.val() == 0);
                } else {
                    lemma_mod_bound(d, 2);
                    assert(b@[i as int].val() * a == 0) by (nonlinear_arith)
                        requires
                            b@[i as int].val() == 0,
                    ;
                    assert(t1.val() == 0);
                    assert(ob.val() == 1);
                    assert(oa.val() * ob.val() == oa.val()) by (nonlinear_arith)
                        requires
                            ob.val() == 1,
                    ;
                    assert(t2.val() == oa.val() % q());
                }
            }
            assert(kv * (eqf(a, d % 2 == 1) * e1) == (kv * eqf(a, d % 2 == 1)) * e1) by (nonlinear_arith);
            lemma_mul_mod_noop_right(kv, eqf(a, d % 2 == 1), q());
            lemma_mul_mod_noop_left(kv * eqf(a, d % 2 == 1), e1, q());
        }
        kk = fr_mul(&kk, &f);
        i = i + 1;
    }
    proof {
        assert(x.skip(k as int).len() == 0);
        kk.lemma_val_range();
        lemma_small_mod(kk.val() as nat, q() as nat);
    }
    kk
}

/// The number whose low `n` bits are those of `x` in reverse order.
pub open spec fn rev_bits(x: int, n: nat) -> int
    decreases n,
{
    if n == 0 {
        0
    } else {
        (x % 2) * exp2((n - 1) as nat) + rev_bits(x / 2, (n - 1) as nat)
    }
}

/// Bit reversal stays below `2^n`.
pub proof fn lemma_rev_bits_range(x: int, n: nat)
    requires
        x >= 0,
    ensures
        0 <= rev_bits(x, n) < exp2(n),
    decreases n,
{
    if n > 0 {
        lemma_rev_bits_range(x / 2, (n - 1) as nat);
        lemma_fundamental_div_mod(x, 2);
        assert(exp2(n) == 2 * exp2((n - 1) as nat));
        if x % 2 == 1 {
            assert((x % 2) * exp2((n - 1) as nat) == exp2((n - 1) as nat));
        } else {
            assert(x % 2 == 0);
            assert((x % 2) * exp2((n - 1) as nat) == 0);
        }
    }
}

/// Bit reversal moves the top bit of `x` to the bottom.
proof fn lemma_rev_bits_top(x: int, n: nat)
    requires
        n >= 1,
        0 <= x < exp2(n),
    ensures
        rev_bits(x, n) == 2 * rev_bits(x % exp2((n - 1) as nat) as int, (n - 1) as nat) + x / exp2(
            (n - 1) as nat,
        ) as int,
    decreases n,
{
    if n == 1 {
        assert(exp2(0) == 1);
        assert(rev_bits(x / 2, 0) == 0);
        assert(rev_bits(x % 1, 0) == 0);
        lemma_small_mod(x as nat, 2);
    } else {
        let h = exp2((n - 1) as nat) as int;
        let hh = exp2((n - 2) as nat) as int;
        lemma_exp2_pos((n - 2) as nat);
        assert(h == 2 * hh);
        lemma_fundamental_div_mod(x, 2);
        lemma_rev_bits_top(x / 2, (n - 1) as nat);
        lemma_mod_mod(x, 2, hh);
        lemma_mod_breakdown(x, 2, hh);
        lemma_mod_bound(x / 2, hh);
        lemma_fundamental_div_mod_converse(x % h, 2, (x / 2) % hh, x % 2);
        lemma_div_denominator(x, 2, hh);
        assert((x % h) % 2 == x % 2);
        assert((x % h) / 2 == (x / 2) % hh);
        let a1 = rev_bits((x / 2) % hh, (n - 2) as nat);
        assert(rev_bits(x / 2, (n - 1) as nat) == 2 * a1 + (x / 2) / hh);
        assert(rev_bits(x % h, (n - 1) as nat) == ((x % h) % 2) * hh + rev_bits((x % h) / 2, (n - 2) as nat));
        assert(rev_bits(x % h, (n - 1) as nat) == (x % 2) * hh + a1);
        assert(rev_bits(x, n) == (x % 2) * h + rev_bits(x / 2, (n - 1) as nat));
        assert((x % 2) * h == 2 * ((x % 2) * hh)) by (nonlinear_arith)
            requires
                h == 2 * hh,
        ;
    }
}

/// Bit reversal over `n` bits undoes itself.
pub proof fn lemma_rev_bits_involution(x: int, n: nat)
    requires
        0 <= x < exp2(n),
    ensures
        rev_bits(rev_bits(x, n), n) == x,
    decreases n,
{
    if n > 0 {
        let h = exp2((n - 1) as nat) as int;
        lemma_exp2_pos((n - 1) as nat);
        lemma_fundamental_div_mod(x, 2);
        let r1 = rev_bits(x / 2, (n - 1) as nat);
        lemma_rev_bits_range(x / 2, (n - 1) as nat);
        let y = rev_bits(x, n);
        lemma_rev_bits_range(x, n);
        lemma_rev_bits_top(y, n);
        lemma_fundamental_div_mod_converse(y, h, x % 2, r1);
        lemma_rev_bits_involution(x / 2, (n - 1) as nat);
    }
}

/// The low `num_bits` bits of `x` in reverse order.
pub fn reverse_bits(x: usize, num_bits: usize) -> (r: usize)
    requires
        exp2(num_bits as nat) <= usize::MAX,
    ensures
        r == rev_bits(x as int, num_bits as nat),
{
    let mut result: usize = 0;
    let mut xx = x;
    let mut j: usize = 0;
    while j < num_bits
        invariant
            j <= num_bits,
            exp2(num_bits as nat) <= usize::MAX,
            result < exp2(j as nat),
            result * exp2((num_bits - j) as nat) + rev_bits(xx as int, (num_bits - j) as nat) == rev_bits(
                x as int,
                num_bits as nat,
            ),
        decreases num_bits - j,
    {
        let ghost rest = (num_bits - j - 1) as nat;
        proof {
            lemma_exp2_monotone((j + 1) as nat, num_bits as nat);
            assert(exp2((j + 1) as nat) == 2 * exp2(j as nat));
            assert(exp2((num_bits - j) as nat) == 2 * exp2(rest));
            assert((num_bits - j - 1) as nat == rest);
            let e = exp2(rest) as int;
            let rr = result as int;
            assert(rr * (2 * e) + ((xx as int % 2) * e + rev_bits(xx as int / 2, rest)) == (2 * rr + xx as int % 2) * e
                + rev_bits(xx as int / 2, rest)) by (nonlinear_arith);
        }
        result = 2 * result + xx % 2;
        xx = xx / 2;
        j = j + 1;
    }
    proof {
        assert(exp2(0) == 1);
        assert((num_bits - j) as nat == 0);
        assert(rev_bits(xx as int, 0) == 0);
        assert(result * exp2(0) == result);
    }
    result
}

/// Reorders the entries so that the entry at `i` moves to `reverse_bits(i, m)`.
/// On a table indexed by `b_1 + 2 b_2 + ... + 2^(m-1) b_m` this maps the
/// polynomial `f(x_1, ..., x_m)` to `f(x_m, ..., x_1)`.
pub fn bit_reverse_permutation<T: Copy>(data: &mut [T], m: usize)
    requires
        old(data)@.len() == exp2(m as nat),
        exp2(m as nat) <= usize::MAX,
    ensures
        final(data)@.len() == old(data)@.len(),
        forall|i: int| 0 <= i < old(data)@.len() ==> #[trigger] final(data)@[i] == old(data)@[rev_bits(i, m as nat)],
{
    let n = pow2_usize(m);
    let ghost o = data@;
    proof {
        assert forall|t: int| 0 <= t < n implies 0 <= #[trigger] rev_bits(t, m as nat) < n && rev_bits(
            rev_bits(t, m as nat),
            m as nat,
        ) == t by {
            lemma_rev_bits_range(t, m as nat);
            lemma_rev_bits_involution(t, m as nat);
        }
    }
    let mut i: usize = 0;
    while i < n
        invariant
            i <= n,
            n == exp2(m as nat),
            exp2(m as nat) <= usize::MAX,
            o.len() == n,
            data@.len() == n,
            forall|t: int| 0 <= t < n ==> 0 <= #[trigger] rev_bits(t, m as nat) < n && rev_bits(
                rev_bits(t, m as nat),
                m as nat,
            ) == t,
            forall|t: int|
                0 <= t < n ==> #[trigger] data@[t] == if t < i || rev_bits(t, m as nat) < i {
                    o[rev_bits(t, m as nat)]
                } else {
                    o[t]
                },
        decreases n - i,
    {
        let j = reverse_bits(i, m);
        if i < j {
            let a = data[i];
            let b = data[j];
            data[i] = b;
            data[j] = a;
        }
        i = i + 1;
    }
}


/// The monomial `Π_{i: bit i of b} x_i`.
pub open spec fn mono(x: Seq<int>, b: int) -> int
    decreases x.len(),
{
    if x.len() == 0 {
        1
    } else {
        (if b % 2 == 1 {
            x[0]
        } else {
            1
        }) * mono(x.drop_first(), b / 2)
    }
}

/// `Σ_b c[b] · Π_{i: bit i of b} x_i`: the polynomial with monomial
/// coefficients `c` at `x`.
pub open spec fn mono_sum(c: Seq<int>, x: Seq<int>) -> int {
    ssum(Seq::new(c.len(), |b: int| c[b] * mono(x, b)))
}

/// The coefficient of the monomial `b` in
/// `eq(x, a) = Π_i ((1 - a_i) + (2 a_i - 1) x_i)`.
pub open spec fn eq_mono(a: Seq<int>, b: int) -> int
    decreases a.len(),
{
    if a.len() == 0 {
        1
    } else {
        (if b % 2 == 1 {
            2 * a[0] - 1
        } else {
            1 - a[0]
        }) * eq_mono(a.drop_first(), b / 2)
    }
}

/// The monomial coefficients of `eq(·, a)`, the monomial `b` holding the
/// variables of the bits of `b`.
pub open spec fn eq_monomials(a: Seq<int>) -> Seq<int> {
    Seq::new(exp2(a.len()), |b: int| eq_mono(a, b))
}

/// Summing the monomials against the coefficients gives `eq(a, x)`.
pub proof fn lemma_eq_monomials(a: Seq<int>, x: Seq<int>)
    requires
        a.len() == x.len(),
    ensures
        mono_sum(eq_monomials(a), x) == eq_poly(a, x),
    decreases a.len(),
{
    let n = a.len();
    let s = Seq::new(exp2(n), |b: int| eq_monomials(a)[b] * mono(x, b));
    if n == 0 {
        assert(exp2(0) == 1);
        lemma_ssum_single(s);
    } else {
        let (a1, x1) = (a.drop_first(), x.drop_first());
        lemma_eq_monomials(a1, x1);
        let h = exp2((n - 1) as nat) as int;
        assert(exp2(n) == 2 * h);
        let s2 = Seq::new(h as nat, |i: int| eq_monomials(a1)[i] * mono(x1, i));
        let c = (1 - a[0]) + (2 * a[0] - 1) * x[0];
        let t = Seq::new(h as nat, |i: int| c * s2[i]);
        assert forall|i: int| 0 <= i < h implies #[trigger] t[i] == s[2 * i] + s[2 * i + 1] by {
            lemma_fundamental_div_mod_converse(2 * i, 2, i, 0);
            lemma_fundamental_div_mod_converse(2 * i + 1, 2, i, 1);
            let (e, m) = (eq_mono(a1, i), mono(x1, i));
            assert(s[2 * i] == ((1 - a[0]) * e) * (1 * m));
            assert(s[2 * i + 1] == ((2 * a[0] - 1) * e) * (x[0] * m));
            assert(c * (e * m) == ((1 - a[0]) * e) * (1 * m) + ((2 * a[0] - 1) * e) * (x[0] * m)) by (nonlinear_arith)
                requires
                    c == (1 - a[0]) + (2 * a[0] - 1) * x[0],
            ;
        }
        lemma_ssum_pairs(s, t);
        lemma_ssum_scale(t, s2, c);
        assert(c == a[0] * x[0] + (1 - a[0]) * (1 - x[0])) by (nonlinear_arith)
            requires
                c == (1 - a[0]) + (2 * a[0] - 1) * x[0],
        ;
        assert(s =~= Seq::new(eq_monomials(a).len(), |b: int| eq_monomials(a)[b] * mono(x, b)));
    }
}

/// The equality polynomial `eq(·, alpha)` by its monomial coefficients.
#[derive(Debug, Clone)]
pub struct EqualityPolynomial {
    pub coeffs: Vec<Fr>,
    pub num_vars: usize,
}

impl EqualityPolynomial {
    /// The monomial coefficients of `eq(x, alpha) = Π_i ((1 - alpha_i) +
    /// (2 alpha_i - 1) x_i)`, built one variable at a time from the last.
    pub fn new(alpha: &[Fr]) -> (r: Self)
        requires
            exp2(alpha.len() as nat) <= usize::MAX,
        ensures
            r.num_vars == alpha.len(),
            lvals(r.coeffs@) == seq_mod(eq_monomials(lvals(alpha@)), q()),
    {
        let n = alpha.len();
        let ghost x = lvals(alpha@);
        let one = fr_one();
        let mut table: Vec<Fr> = Vec::new();
        table.push(one);
        let mut i: usize = n;
        proof {
            lemma_small_mod(1, q() as nat);
            assert(x.skip(n as int).len() == 0);
            assert(exp2(0) == 1);
        }
        while i > 0
            invariant
                i <= n,
                n == alpha.len(),
                x == lvals(alpha@),
                exp2(n as nat) <= usize::MAX,
                one.val() == 1,
                table@.len() == exp2((n - i) as nat),
                forall|b: int| 0 <= b < table@.len() ==> #[trigger] table@[b].val() == eq_mono(x.skip(i as int), b) % q(),
            decreases i,
        {
            i = i - 1;
            let a = alpha[i];
            let f0 = fr_one_minus(&a);
            let f1 = crate::field::fr_sub(&fr_add(&a, &a), &one);
            let ghost av = x[i as int];
            proof {
                lemma_exp2_monotone((n - i) as nat, n as nat);
                assert(exp2((n - i) as nat) == 2 * exp2((n - i - 1) as nat));
                assert(x.skip(i as int).drop_first() =~= x.skip(i + 1));
                assert(x.skip(i as int)[0] == av);
                assert(f1.val() == (av + av - 1) % q()) by {
                    lemma_add_mod_noop(av, av, q());
                    lemma_small_mod(1, q() as nat);
                    vstd::arithmetic::div_mod::lemma_sub_mod_noop(av + av, 1, q());
                    lemma_mod_twice(av + av, q());
                }
            }
            let mut next: Vec<Fr> = Vec::new();
            let mut j: usize = 0;
            while j < table.len()
                invariant
                    j <= table@.len(),
                    i < n,
                    n == alpha.len(),
                    x == lvals(alpha@),
                    av == x[i as int],
                    f0.val() == (1 - av) % q(),
                    f1.val() == (av + av - 1) % q(),
                    x.skip(i as int).drop_first() == x.skip(i + 1),
                    x.skip(i as int)[0] == av,
                    forall|b: int| 0 <= b < table@.len() ==> #[trigger] table@[b].val() == eq_mono(x.skip(i + 1), b) % q(),
                    next@.len() == 2 * j,
                    forall|b: int| 0 <= b < 2 * j ==> #[trigger] next@[b].val() == eq_mono(x.skip(i as int), b) % q(),
                decreases table@.len() - j,
            {
                let t0 = fr_mul(&table[j], &f0);
                let t1 = fr_mul(&table[j], &f1);
                proof {
                    let e = eq_mono(x.skip(i + 1), j as int);
                    lemma_fundamental_div_mod_converse(2 * j, 2, j as int, 0);
                    lemma_fundamental_div_mod_converse(2 * j + 1, 2, j as int, 1);
                    assert(eq_mono(x.skip(i as int), 2 * j) == (1 - av) * e);
                    assert(eq_mono(x.skip(i as int), 2 * j + 1) == (2 * av - 1) * e);
                    lemma_mul_mod_noop_left(e, (1 - av) % q(), q());
                    lemma_mul_mod_noop_right(e, 1 - av, q());
                    lemma_mul_mod_noop_left(e, (av + av - 1) % q(), q());
                    lemma_mul_mod_noop_right(e, av + av - 1, q());
                    assert(e * (1 - av) == (1 - av) * e) by (nonlinear_arith);
                    assert(e * (av + av - 1) == (2 * av - 1) * e) by (nonlinear_arith);
                }
                next.push(t0);
                next.push(t1);
                j = j + 1;
            }
            proof {
                assert(exp2((n - i) as nat) == 2 * exp2((n - (i + 1)) as nat));
            }
            table = next;
        }
        let r = EqualityPolynomial { coeffs: table, num_vars: n };
        proof {
            assert(x.skip(0) =~= x);
            assert(lvals(r.coeffs@) =~= seq_mod(eq_monomials(x), q()));
        }
        r
    }

    /// `Σ_b coeffs[b] · Π_{i: bit i of b} point_i`, term by term.
    pub fn evaluate(&self, point: &[Fr]) -> (r: Fr)
        requires
            point.len() == self.num_vars,
        ensures
            r.val() == mono_sum(lvals(self.coeffs@), lvals(point@)) % q(),
    {
        let ghost c = lvals(self.coeffs@);
        let ghost x = lvals(point@);
        let ghost terms = Seq::new(c.len(), |b: int| c[b] * mono(x, b));
        let mut result = fr_zero();
        let mut i: usize = 0;
        proof {
            assert(terms.take(0).len() == 0);
            lemma_small_mod(0, q() as nat);
        }
        while i < self.coeffs.len()
            invariant
                i <= self.coeffs@.len(),
                point.len() == self.num_vars,
                c == lvals(self.coeffs@),
                x == lvals(point@),
                terms == Seq::new(c.len(), |b: int| c[b] * mono(x, b)),
                result.val() == ssum(terms.take(i as int)) % q(),
            decreases self.coeffs@.len() - i,
        {
            let mut term = self.coeffs[i];
            let mut ii: usize = i;
            let mut j: usize = 0;
            proof {
                assert(x.skip(0) =~= x);
            }
            while j < self.num_vars
                invariant
                    j <= self.num_vars,
                    point.len() == self.num_vars,
                    x == lvals(point@),
                    i < self.coeffs@.len(),
                    c == lvals(self.coeffs@),
                    (term.val() * mono(x.skip(j as int), ii as int)) % q() == (c[i as int] * mono(x, i as int)) % q(),
                decreases self.num_vars - j,
            {
                let ghost e1 = mono(x.skip(j + 1), ii as int / 2);
                let ghost tv = term.val();
                let ghost a = x[j as int];
                proof {
                    assert(x.skip(j as int).drop_first() =~= x.skip(j + 1));
                    assert(x.skip(j as int)[0] == a);
                }
                if ii % 2 == 1 {
                    proof {
                        assert(mono(x.skip(j as int), ii as int) == a * e1);
                        point@[j as int].lemma_val_range();
                        assert(tv * (a * e1) == (tv * a) * e1) by (nonlinear_arith);
                        lemma_mul_mod_noop_left(tv * a, e1, q());
                    }
                    term = fr_mul(&term, &point[j]);
                } else {
                    proof {
                        assert(mono(x.skip(j as int), ii as int) == 1 * e1);
                    }
                }
                ii = ii / 2;
                j = j + 1;
            }
            proof {
                assert(x.skip(self.num_vars as int).len() == 0);
                term.lemma_val_range();
                lemma_small_mod(term.val() as nat, q() as nat);
                assert(terms[i as int] == c[i as int] * mono(x, i as int));
                lemma_ssum_push(terms, i as int);
                lemma_add_mod_noop(ssum(terms.take(i as int)), terms[i as int], q());
                lemma_mod_twice(ssum(terms.take(i as int)), q());
            }
            result = fr_add(&result, &term);
            i = i + 1;
        }
        proof {
            assert(terms.take(self.coeffs@.len() as int) =~= terms);
        }
        result
    }

    /// The value at every boolean point, indexed by the point's bits.
    pub fn evaluate_all(&self) -> (r: Vec<Fr>)
        requires
            exp2(self.num_vars as nat) <= usize::MAX,
        ensures
            r@.len() == exp2(self.num_vars as nat),
            forall|i: int|
                0 <= i < r@.len() ==> #[trigger] r@[i].val() == mono_sum(
                    lvals(self.coeffs@),
                    bits(i, self.num_vars as nat),
                ) % q(),
    {
        let size = pow2_usize(self.num_vars);
        let mut out: Vec<Fr> = Vec::new();
        let mut i: usize = 0;
        while i < size
            invariant
                i <= size,
                size == exp2(self.num_vars as nat),
                out@.len() == i,
                forall|t: int|
                    0 <= t < i ==> #[trigger] out@[t].val() == mono_sum(lvals(self.coeffs@), bits(t, self.num_vars as nat))
                        % q(),
            decreases size - i,
        {
            let mut point: Vec<Fr> = Vec::new();
            let mut ii: usize = i;
            let mut j: usize = 0;
            proof {
                assert(exp2(0) == 1);
            }
            while j < self.num_vars
                invariant
                    j <= self.num_vars,
                    point@.len() == j,
                    ii as int == i as int / exp2(j as nat) as int,
                    forall|t: int| 0 <= t < j ==> #[trigger] lvals(point@)[t] == bits(i as int, self.num_vars as nat)[t],
                decreases self.num_vars - j,
            {
                proof {
                    lemma_exp2_pos(j as nat);
                    lemma_div_denominator(i as int, exp2(j as nat) as int, 2);
                    assert(exp2((j + 1) as nat) == exp2(j as nat) * 2);
                    lemma_mod_bound(ii as int, 2);
                }
                let ghost old_point = point@;
                if ii % 2 == 1 {
                    point.push(fr_one());
                } else {
                    point.push(fr_zero());
                }
                proof {
                    assert forall|t: int| 0 <= t < j implies #[trigger] lvals(point@)[t] == bits(i as int, self.num_vars as nat)[t] by {
                        assert(point@[t] == old_point[t]);
                        assert(lvals(old_point)[t] == bits(i as int, self.num_vars as nat)[t]);
                    }
                    assert(bits(i as int, self.num_vars as nat)[j as int] == (i as int / exp2(j as nat) as int) % 2);
                    assert(lvals(point@)[j as int] == point@[j as int].val());
                    assert(lvals(point@)[j as int] == bits(i as int, self.num_vars as nat)[j as int]);
                }
                ii = ii / 2;
                j = j + 1;
            }
            proof {
                assert(lvals(point@) =~= bits(i as int, self.num_vars as nat));
            }
            let v = self.evaluate(point.as_slice());
            out.push(v);
            i = i + 1;
        }
        out
    }
}

/// The position of the generator in a list of powers: `1`, or `0` when the
/// list holds only the power `1`.
pub open spec fn gen_idx(len: int) -> int {
    if len > 1 {
        1
    } else {
        0
    }
}

/// The elements `1, g, g^2, ..., g^(2^k - 1)` of the multiplicative subgroup of
/// order `2^k` of the scalar field, as `Radix2EvaluationDomain::new(2^k)` of
/// `ark_poly` over `ark_pallas::Fr` lists them through `elements()`, each as
/// its canonical 32-byte little-endian encoding. The subgroup exists for
/// `k <= 32`, the two-adicity of the field, and `g` generates it: the powers
/// are distinct and `g^(2^k) = 1`.
#[verifier::external_body]
fn radix2_domain_elements(k: usize) -> (r: Vec<[u8; 32]>)
    requires
        k <= 32,
    ensures
        r@.len() == exp2(k as nat),
        forall|i: int| 0 <= i < r@.len() ==> #[trigger] le_val(r@[i]@) < q(),
        le_val(r@[0]@) == 1,
        forall|i: int|
            0 <= i < r@.len() - 1 ==> #[trigger] le_val(r@[i + 1]@) == ((le_val(r@[i]@) * le_val(
                r@[gen_idx(r@.len() as int)]@,
            )) as int) % q(),
        ((le_val(r@[r@.len() - 1]@) * le_val(r@[gen_idx(r@.len() as int)]@)) as int) % q() == 1,
        forall|i: int, j: int| 0 <= i < j < r@.len() ==> #[trigger] le_val(r@[i]@) != #[trigger] le_val(r@[j]@),
{
    let domain = ark_poly::domain::radix2::Radix2EvaluationDomain::<ark_pallas::Fr>::new(1usize << k).unwrap();
    domain.elements().map(|e| e.into_bigint().to_bytes_le().try_into().unwrap()).collect()
}

/// The multiplicative subgroup of order `2^k` as the powers `1, g, g^2, ...`
/// of its generator `g`.
pub fn create_smooth_domain(k: usize) -> (r: Vec<Fr>)
    requires
        k <= 32,
    ensures
        r@.len() == exp2(k as nat),
        r@[0].val() == 1,
        forall|i: int| 0 <= i < r@.len() - 1 ==> #[trigger] r@[i + 1].val() == (r@[i].val() * r@[gen_idx(r@.len() as int)].val()) % q(),
        (r@[r@.len() - 1].val() * r@[gen_idx(r@.len() as int)].val()) % q() == 1,
        forall|i: int, j: int| 0 <= i < j < r@.len() ==> #[trigger] r@[i].val() != #[trigger] r@[j].val(),
{
    let raw = radix2_domain_elements(k);
    let mut out: Vec<Fr> = Vec::new();
    let mut i: usize = 0;
    while i < raw.len()
        invariant
            i <= raw@.len(),
            forall|t: int| 0 <= t < raw@.len() ==> #[trigger] le_val(raw@[t]@) < q(),
            out@.len() == i,
            forall|t: int| 0 <= t < i ==> #[trigger] out@[t].val() == le_val(raw@[t]@),
        decreases raw@.len() - i,
    {
        let e = fr_from_raw(&raw[i]);
        proof {
            lemma_small_mod(le_val(raw@[i as int]@), q() as nat);
        }
        out.push(e);
        i = i + 1;
    }
    proof {
        lemma_exp2_pos(k as nat);
        assert(out@[0].val() == le_val(raw@[0]@));
        assert(out@[gen_idx(out@.len() as int)].val() == le_val(raw@[gen_idx(raw@.len() as int)]@));
        assert(out@[out@.len() - 1].val() == le_val(raw@[raw@.len() - 1]@));
        assert forall|t: int| 0 <= t < out@.len() - 1 implies #[trigger] out@[t + 1].val() == (out@[t].val() * out@[gen_idx(out@.len() as int)].val()) % q() by {
            assert(out@[t + 1].val() == le_val(raw@[t + 1]@));
        }
        assert forall|a: int, b: int| 0 <= a < b < out@.len() implies #[trigger] out@[a].val() != #[trigger] out@[b].val() by {
            assert(out@[a].val() == le_val(raw@[a]@));
            assert(out@[b].val() == le_val(raw@[b]@));
        }
    }
    out
}


/// At the boolean point of index `b`, the monomial coefficients built by
/// `EqualityPolynomial::new` evaluate to what `eq_from_index` computes.
pub proof fn law_eq_evaluate_at_index(alpha: Seq<int>, b: int)
    requires
        0 <= b < exp2(alpha.len()),
    ensures
        mono_sum(seq_mod(eq_monomials(alpha), q()), bits(b, alpha.len())) % q() == eq_at(alpha, b) % q(),
{
    let n = alpha.len();
    let x = bits(b, n);
    law_eq_evaluate_product(alpha, x);
    let t = seq_mod(eq_table(alpha), q());
    lemma_mle_seq_mod(eq_table(alpha), x);
    lemma_mle_eq_table(alpha, x);
    lemma_mle_bits(t, b, n);
    lemma_mod_twice(eq_at(alpha, b), q());
}

/// At every point, the monomial coefficients built by
/// `EqualityPolynomial::new` evaluate to
/// `Π_i (alpha_i x_i + (1 - alpha_i)(1 - x_i))`.
pub proof fn law_eq_evaluate_product(alpha: Seq<int>, x: Seq<int>)
    requires
        alpha.len() == x.len(),
    ensures
        mono_sum(seq_mod(eq_monomials(alpha), q()), x) % q() == eq_poly(alpha, x) % q(),
{
    let c = eq_monomials(alpha);
    let s1 = Seq::new(c.len(), |b: int| seq_mod(c, q())[b] * mono(x, b));
    let s2 = Seq::new(c.len(), |b: int| c[b] * mono(x, b));
    assert forall|b: int| 0 <= b < s1.len() implies #[trigger] s1[b] % q() == s2[b] % q() by {
        lemma_mul_mod_noop_left(c[b], mono(x, b), q());
    }
    lemma_ssum_mod(s1, s2, q());
    lemma_eq_monomials(alpha, x);
}


/// Whether position `i` is listed in some group.
pub open spec fn listed(groups: Seq<(Fr, Vec<usize>)>, i: int) -> bool {
    exists|g: int, t: int| 0 <= g < groups.len() && 0 <= t < groups[g].1@.len() && #[trigger] groups[g].1@[t] == i
}

/// The positions of `v` grouped by value: one group per distinct value, in
/// the order of first occurrence, each listing in increasing order the
/// positions that hold it.
pub fn group_positions_vec(v: &[Fr]) -> (r: Vec<(Fr, Vec<usize>)>)
    ensures
        forall|g1: int, g2: int|
            0 <= g1 < g2 < r@.len() ==> (#[trigger] r@[g1]).0.val() != (#[trigger] r@[g2]).0.val(),
        forall|g: int|
            0 <= g < r@.len() ==> (#[trigger] r@[g]).1@.len() > 0 && (forall|t: int|
                0 <= t < r@[g].1@.len() ==> #[trigger] r@[g].1@[t] < v@.len() && v@[r@[g].1@[t] as int].val() == r@[g].0.val())
                && (forall|t1: int, t2: int|
                0 <= t1 < t2 < r@[g].1@.len() ==> #[trigger] r@[g].1@[t1] < #[trigger] r@[g].1@[t2]),
        forall|i: int| 0 <= i < v@.len() ==> #[trigger] listed(r@, i),
{
    let n = v.len();
    let mut groups: Vec<(Fr, Vec<usize>)> = Vec::new();
    let ghost mut at: Seq<(int, int)> = Seq::empty();
    let mut i: usize = 0;
    while i < n
        invariant
            i <= n,
            n == v@.len(),
            at.len() == i,
            forall|g1: int, g2: int|
                0 <= g1 < g2 < groups@.len() ==> (#[trigger] groups@[g1]).0.val() != (#[trigger] groups@[g2]).0.val(),
            forall|g: int|
                0 <= g < groups@.len() ==> (#[trigger] groups@[g]).1@.len() > 0 && (forall|t: int|
                    0 <= t < groups@[g].1@.len() ==> #[trigger] groups@[g].1@[t] < i && v@[groups@[g].1@[t] as int].val()
                        == groups@[g].0.val()) && (forall|t1: int, t2: int|
                    0 <= t1 < t2 < groups@[g].1@.len() ==> #[trigger] groups@[g].1@[t1] < #[trigger] groups@[g].1@[t2]),
            forall|j: int|
                0 <= j < i ==> 0 <= (#[trigger] at[j]).0 < groups@.len() && 0 <= at[j].1 < groups@[at[j].0].1@.len()
                    && groups@[at[j].0].1@[at[j].1] == j,
        decreases n - i,
    {
        let mut g: usize = 0;
        let mut found = false;
        while g < groups.len() && !found
            invariant
                g <= groups@.len(),
                i < v@.len(),
                found ==> g < groups@.len() && groups@[g as int].0.val() == v@[i as int].val(),
                !found ==> forall|h: int| 0 <= h < g ==> (#[trigger] groups@[h]).0.val() != v@[i as int].val(),
            decreases groups@.len() - g + (if found { 0int } else { 1int }),
        {
            if fr_eq(&groups[g].0, &v[i]) {
                found = true;
            } else {
                g = g + 1;
            }
        }
        let ghost old_groups = groups@;
        if found {
            let ghost len_g = groups@[g as int].1@.len();
            groups[g].1.push(i);
            proof {
                assert(forall|h: int| 0 <= h < groups@.len() && h != g ==> groups@[h] == old_groups[h]);
                assert(groups@[g as int].1@ == old_groups[g as int].1@.push(i));
                at = at.push((g as int, len_g as int));
            }
        } else {
            let mut pos: Vec<usize> = Vec::new();
            pos.push(i);
            groups.push((v[i], pos));
            proof {
                at = at.push((old_groups.len() as int, 0int));
            }
        }
        proof {
            assert forall|j: int| 0 <= j < i + 1 implies 0 <= (#[trigger] at[j]).0 < groups@.len() && 0 <= at[j].1
                < groups@[at[j].0].1@.len() && groups@[at[j].0].1@[at[j].1] == j by {
                if j < i {
                    assert(old_groups[at[j].0].1@[at[j].1] == j);
                }
            }
        }
        i = i + 1;
    }
    proof {
        assert forall|j: int| 0 <= j < v@.len() implies #[trigger] listed(groups@, j) by {
            assert(groups@[at[j].0].1@[at[j].1] == j);
        }
    }
    groups
}

} // verus!
