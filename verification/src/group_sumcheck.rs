//! The sum-check for `σ = f(α) = Σ_y f(y) · eq(α, y)` where `f` has values in
//! the Pallas group: the first `l` rounds are answered from precomputed
//! partial sums `S_i`, the rest by folding.
use vstd::prelude::*;
use vstd::arithmetic::div_mod::{
    lemma_mul_mod_noop_left, lemma_mul_mod_noop_right, lemma_mul_mod_noop, lemma_add_mod_noop, lemma_sub_mod_noop,
    lemma_mod_twice, lemma_small_mod,
};
use crate::field::{q, Fr, fr_one, fr_add, fr_sub, fr_mul, fr_invert};
use crate::traits::{Linear, InnerProduct, lvals};
use crate::sums::{ssum, dot, min_len, exp2, lemma_exp2_pos, lemma_exp2_adds, lemma_exp2_monotone, lemma_ssum_mod};
use crate::mle::{eq_at, eq_table, seq_mod, restrict_lo, mle, eq_poly};
use crate::sumcheck::{sg_round_ok, sg_prev_claim, sg_replay_rounds};
use crate::multilinear::{MultilinearPoly, pow2_usize};
use crate::field_sumcheck::{inverse_of, is_inverse, lemma_inverse_unique, fold_seq};
use crate::field::{le32, fr_from_u64, fr_one_minus};
use crate::group::{Pt, pt_add, pt_sub, pt_scale, pt_eq, pt_identity};
use crate::transcript::{
    TitanTranscript, TranscriptEntry, merlin_challenge, challenge_scalar, transcript_append_scalar,
    transcript_append_point, transcript_challenge_scalar,
};

verus! {

/// `S_l[b] = Σ_{x < 2^(m-l)} f[x·2^l + b] · eq(α, x·2^l + b)`: the sum over the
/// last `m - l` variables, the first `l` fixed to the bits of `b`.
pub open spec fn sl_entry(f: Seq<int>, alpha: Seq<int>, l: nat, b: int) -> int {
    ssum(
        Seq::new(
            exp2((alpha.len() - l) as nat),
            |x: int| f[x * exp2(l) + b] * eq_at(alpha, x * exp2(l) + b),
        ),
    )
}

/// The table of `S_l` over `l` variables.
pub open spec fn sl_table(f: Seq<int>, alpha: Seq<int>, l: nat) -> Seq<int> {
    Seq::new(exp2(l), |b: int| sl_entry(f, alpha, l, b))
}

/// The partial sums `S_l` of `f · eq(α, ·)` over the last `m - l` variables.
pub fn compute_Sl_poly<C: InnerProduct>(m: usize, l: usize, f_poly: &MultilinearPoly<C>, alpha: &[Fr]) -> (r:
    MultilinearPoly<C>)
    requires
        l <= m,
        f_poly.coeffs@.len() == exp2(m as nat),
        alpha@.len() == m,
    ensures
        r.wf(),
        r.num_vars == l,
        r.table() == seq_mod(sl_table(f_poly.table(), lvals(alpha@), l as nat), q()),
{
    let total = f_poly.coeffs.len();
    let ghost a = lvals(alpha@);
    let ghost f = f_poly.table();
    proof {
        lemma_exp2_adds(l as nat, (m - l) as nat);
        lemma_exp2_pos(l as nat);
        lemma_exp2_pos((m - l) as nat);
        lemma_exp2_monotone(l as nat, m as nat);
        lemma_exp2_monotone((m - l) as nat, m as nat);
        assert(l + (m - l) == m);
    }
    let sl_size = pow2_usize(l);
    let slice_size = pow2_usize(m - l);
    let eq_poly = MultilinearPoly::<Fr>::init_with_eq(alpha);
    proof {
        assert(slice_size * sl_size == sl_size * slice_size) by (nonlinear_arith);
        assert(f_poly.coeffs@.len() == slice_size * sl_size);
        assert(eq_poly.coeffs@.len() == slice_size * sl_size);
    }
    let mut coeffs: Vec<C> = Vec::new();
    let mut b: usize = 0;
    while b < sl_size
        invariant
            b <= sl_size,
            sl_size == exp2(l as nat),
            slice_size == exp2((m - l) as nat),
            alpha@.len() == m,
            l <= m,
            a == lvals(alpha@),
            f == f_poly.table(),
            f_poly.coeffs@.len() == slice_size * sl_size,
            slice_size * sl_size <= usize::MAX,
            sl_size >= 1,
            eq_poly.wf(),
            eq_poly.num_vars == m,
            eq_poly.coeffs@.len() == slice_size * sl_size,
            eq_poly.table() == seq_mod(eq_table(a), q()),
            a.len() == m,
            coeffs@.len() == b,
            forall|j: int| 0 <= j < b ==> #[trigger] coeffs@[j].lin_val() == sl_entry(f, a, l as nat, j) % q(),
        decreases sl_size - b,
    {
        let mut fcol: Vec<C> = Vec::new();
        let mut ecol: Vec<Fr> = Vec::new();
        let mut x: usize = 0;
        while x < slice_size
            invariant
                x <= slice_size,
                b < sl_size,
                sl_size >= 1,
                f_poly.coeffs@.len() == slice_size * sl_size,
                eq_poly.coeffs@.len() == slice_size * sl_size,
                slice_size * sl_size <= usize::MAX,
                fcol@.len() == x,
                ecol@.len() == x,
                forall|t: int| 0 <= t < x ==> #[trigger] fcol@[t] == f_poly.coeffs@[t * sl_size + b],
                forall|t: int| 0 <= t < x ==> #[trigger] ecol@[t] == eq_poly.coeffs@[t * sl_size + b],
            decreases slice_size - x,
        {
            proof {
                assert(x * sl_size + b < slice_size * sl_size) by (nonlinear_arith)
                    requires
                        x < slice_size,
                        b < sl_size,
                ;
            }
            fcol.push(f_poly.coeffs[x * sl_size + b]);
            ecol.push(eq_poly.coeffs[x * sl_size + b]);
            x = x + 1;
        }
        let v = C::inner_product_msm(fcol.as_slice(), ecol.as_slice());
        proof {
            let fv = lvals(fcol@);
            let ev = lvals(ecol@);
            let s1 = Seq::new(min_len(fv.len() as int, ev.len() as int) as nat, |t: int| fv[t] * ev[t]);
            let s2 = Seq::new(
                exp2((a.len() - l) as nat),
                |t: int| f[t * exp2(l as nat) + b] * eq_at(a, t * exp2(l as nat) + b),
            );
            assert forall|t: int| 0 <= t < s1.len() implies #[trigger] s1[t] % q() == s2[t] % q() by {
                assert(t * sl_size + b < slice_size * sl_size) by (nonlinear_arith)
                    requires
                        t < slice_size,
                        b < sl_size,
                ;
                assert(fcol@[t] == f_poly.coeffs@[t * sl_size + b]);
                assert(ecol@[t] == eq_poly.coeffs@[t * sl_size + b]);
                assert(eq_poly.table()[t * sl_size + b] == eq_at(a, t * sl_size + b) % q());
                assert(ev[t] == eq_at(a, t * sl_size + b) % q());
                lemma_mul_mod_noop_right(fv[t], eq_at(a, t * sl_size + b), q());
            }
            lemma_ssum_mod(s1, s2, q());
        }
        coeffs.push(v);
        b = b + 1;
    }
    let r = MultilinearPoly { coeffs, num_vars: l };
    proof {
        assert(r.table() =~= seq_mod(sl_table(f, a, l as nat), q()));
    }
    r
}

/// The table with its last variable summed out: `c[x] + c[x + len/2]`.
pub open spec fn sum_top(c: Seq<int>) -> Seq<int> {
    Seq::new(c.len() / 2, |x: int| c[x] + c[x + c.len() / 2])
}

/// The table with its last `i` variables summed out, reduced modulo `q`.
pub open spec fn sum_top_times(c: Seq<int>, i: nat) -> Seq<int>
    decreases i,
{
    if i == 0 {
        c
    } else {
        seq_mod(sum_top(sum_top_times(c, (i - 1) as nat)), q())
    }
}

/// From `S_l`, the tables `[S_l, S_{l-1}, ..., S_1]`, each with the last
/// variable of the one before summed out.
pub fn compute_all_S_tables<C: InnerProduct>(s_l: Vec<C>, l: usize) -> (r: Vec<Vec<C>>)
    requires
        l >= 1,
        s_l@.len() == exp2(l as nat),
    ensures
        r@.len() == l,
        forall|i: int| 0 <= i < l ==> (#[trigger] r@[i])@.len() == exp2((l - i) as nat),
        forall|i: int| 0 <= i < l ==> lvals((#[trigger] r@[i])@) == sum_top_times(lvals(s_l@), i as nat),
{
    let ghost c = lvals(s_l@);
    let mut current = vstd::slice::slice_to_vec(s_l.as_slice());
    let mut tables: Vec<Vec<C>> = Vec::new();
    tables.push(s_l);
    let mut k: usize = l - 1;
    proof {
        assert(lvals(tables@[0]@) == sum_top_times(c, 0));
    }
    while k >= 1
        invariant
            k < l,
            tables@.len() == l - k,
            current@.len() == exp2((k + 1) as nat),
            lvals(current@) == sum_top_times(c, (l - 1 - k) as nat),
            forall|i: int| 0 <= i < l - k ==> (#[trigger] tables@[i])@.len() == exp2((l - i) as nat),
            forall|i: int| 0 <= i < l - k ==> lvals((#[trigger] tables@[i])@) == sum_top_times(c, i as nat),
        decreases k,
    {
        proof {
            lemma_exp2_pos(k as nat);
            assert(exp2((k + 1) as nat) == 2 * exp2(k as nat));
        }
        let cl = current.len();
        let stride = pow2_usize(k);
        let mut next: Vec<C> = Vec::new();
        let mut x: usize = 0;
        while x < stride
            invariant
                x <= stride,
                stride == exp2(k as nat),
                current@.len() == 2 * stride,
                next@.len() == x,
                forall|t: int| 0 <= t < x ==> #[trigger] next@[t].lin_val() == (current@[t].lin_val() + current@[t + stride].lin_val()) % q(),
            decreases stride - x,
        {
            let cl2 = current.len();
            let v = current[x].lin_add(&current[x + stride]);
            next.push(v);
            x = x + 1;
        }
        proof {
            let prev = lvals(current@);
            assert(lvals(next@) =~= seq_mod(sum_top(prev), q()));
            assert((l - 1 - (k - 1)) as nat == (l - 1 - k) as nat + 1);
        }
        let ghost old_tables = tables@;
        tables.push(vstd::slice::slice_to_vec(next.as_slice()));
        proof {
            assert forall|i: int| 0 <= i < l - (k - 1) implies #[trigger] lvals(tables@[i]@) == sum_top_times(c, i as nat)
                && tables@[i]@.len() == exp2((l - i) as nat) by {
                if i < l - k {
                    assert(tables@[i] == old_tables[i]);
                }
            }
        }
        current = next;
        k = k - 1;
    }
    tables
}

/// `(q + 1) / 2`, the inverse of `2` modulo `q`.
pub open spec fn inv2() -> int {
    (q() + 1) / 2
}

/// The value at `a` of the quadratic with values `s0, s1, s2` at `0, 1, 2`, in
/// Lagrange form modulo `q`.
pub open spec fn eval_triple(s0: int, s1: int, s2: int, a: int) -> int {
    (s0 * ((a - 1) * (a - 2) * inv2()) + s1 * ((2 - a) * a) + s2 * ((a - 1) * a * inv2())) % q()
}

/// Sum of two congruent pairs is congruent.
proof fn lemma_add_congr(a: int, b: int, c: int, d: int)
    requires
        a % q() == b % q(),
        c % q() == d % q(),
    ensures
        (a + c) % q() == (b + d) % q(),
{
    lemma_add_mod_noop(a, c, q());
    lemma_add_mod_noop(b, d, q());
}

/// Product of two congruent pairs is congruent.
proof fn lemma_mul_congr(a: int, b: int, c: int, d: int)
    requires
        a % q() == b % q(),
        c % q() == d % q(),
    ensures
        (a * c) % q() == (b * d) % q(),
{
    lemma_mul_mod_noop(a, c, q());
    lemma_mul_mod_noop(b, d, q());
}

/// The inverse of two.
fn two_inverse() -> (r: Fr)
    ensures
        r.val() == inv2(),
{
    let one = fr_one();
    let two = fr_add(&one, &one);
    proof {
        lemma_small_mod(2, q() as nat);
    }
    let inv = fr_invert(&two).unwrap();
    proof {
        inv.lemma_val_range();
        assert(inv2() * 2 == q() + 1);
        assert((2 * inv2()) % q() == 1) by {
            vstd::arithmetic::div_mod::lemma_mod_self_0(q());
            lemma_add_mod_noop(q(), 1, q());
            lemma_small_mod(1, q() as nat);
        }
        assert(0 <= inv2() < q());
        lemma_inverse_unique(2, inv2());
        assert((inv.val() * 2) % q() == 1);
        assert(2 * inv.val() == inv.val() * 2);
        lemma_inverse_unique(2, inv.val());
    }
    inv
}

/// The value at `alpha` of the quadratic with values `s[0], s[1], s[2]` at
/// `0, 1, 2`.
pub fn eval_triple_at_alpha<C: Linear>(s: &[C; 3], alpha: Fr) -> (r: C)
    ensures
        r.lin_val() == eval_triple(s[0].lin_val(), s[1].lin_val(), s[2].lin_val(), alpha.val()),
{
    let one = fr_one();
    let two = fr_add(&one, &one);
    let two_inv = two_inverse();
    let ghost a = alpha.val();
    let am1 = fr_sub(&alpha, &one);
    let am2 = fr_sub(&alpha, &two);
    let f1a = fr_mul(&am1, &am2);
    let f1 = fr_mul(&f1a, &two_inv);
    let tma = fr_sub(&two, &alpha);
    let f2 = fr_mul(&tma, &alpha);
    let f3a = fr_mul(&am1, &alpha);
    let f3 = fr_mul(&f3a, &two_inv);
    let t1 = s[0].lin_scale(&f1);
    let t2 = s[1].lin_scale(&f2);
    let t3 = s[2].lin_scale(&f3);
    let t12 = t1.lin_add(&t2);
    let r = t12.lin_add(&t3);
    proof {
        lemma_small_mod(2, q() as nat);
        let x0 = s[0].lin_val();
        let x1 = s[1].lin_val();
        let x2 = s[2].lin_val();
        let e1 = (a - 1) * (a - 2) * inv2();
        let e2 = (2 - a) * a;
        let e3 = (a - 1) * a * inv2();
        // each factor is congruent to its expression
        lemma_mod_twice(a - 1, q());
        lemma_mod_twice(a - 2, q());
        lemma_mul_congr(am1.val(), a - 1, am2.val(), a - 2);
        lemma_mod_twice((a - 1) * (a - 2), q());
        lemma_mul_congr(f1a.val(), (a - 1) * (a - 2), two_inv.val(), inv2());
        assert(f1.val() % q() == e1 % q()) by {
            lemma_mod_twice(f1a.val() * two_inv.val(), q());
        }
        lemma_mod_twice(2 - a, q());
        lemma_mul_congr(tma.val(), 2 - a, a, a);
        assert(f2.val() % q() == e2 % q()) by {
            lemma_mod_twice(tma.val() * a, q());
        }
        lemma_mul_congr(am1.val(), a - 1, a, a);
        lemma_mod_twice((a - 1) * a, q());
        lemma_mul_congr(f3a.val(), (a - 1) * a, two_inv.val(), inv2());
        assert(f3.val() % q() == e3 % q()) by {
            lemma_mod_twice(f3a.val() * two_inv.val(), q());
        }
        lemma_mul_congr(x0, x0, f1.val(), e1);
        lemma_mul_congr(x1, x1, f2.val(), e2);
        lemma_mul_congr(x2, x2, f3.val(), e3);
        lemma_mod_twice(x0 * f1.val(), q());
        lemma_mod_twice(x1 * f2.val(), q());
        lemma_mod_twice(x2 * f3.val(), q());
        lemma_add_congr(t1.lin_val(), x0 * e1, t2.lin_val(), x1 * e2);
        lemma_mod_twice(t1.lin_val() + t2.lin_val(), q());
        lemma_add_congr(t12.lin_val(), x0 * e1 + x1 * e2, t3.lin_val(), x2 * e3);
        lemma_mod_twice(t12.lin_val() + t3.lin_val(), q());
    }
    r
}


/// `e(a, x) = x a + (1 - x)(1 - a)`, one factor of `eq`.
pub open spec fn efac(a: int, x: int) -> int {
    x * a + (1 - x) * (1 - a)
}

/// `Π_{k < n} e(alpha_k, rho_k)`.
pub open spec fn eprod(alpha: Seq<int>, rho: Seq<int>, n: nat) -> int
    decreases n,
{
    if n == 0 {
        1
    } else {
        eprod(alpha, rho, (n - 1) as nat) * efac(alpha[n - 1], rho[n - 1])
    }
}

/// `eq(rho, b) / eq(alpha_{<|rho|}, b)` modulo `q`.
pub open spec fn gi_weight(alpha: Seq<int>, rho: Seq<int>, b: int) -> int {
    eq_at(rho, b) * inverse_of(eq_at(alpha.take(rho.len() as int), b))
}

/// `Σ_b si[off + b] · eq(rho, b) / eq(alpha_{<|rho|}, b)` over the cube of `rho`'s length.
pub open spec fn gi_half(si: Seq<int>, alpha: Seq<int>, rho: Seq<int>, off: int) -> int {
    ssum(Seq::new(exp2(rho.len()), |b: int| si[off + b] * gi_weight(alpha, rho, b)))
}

/// The round polynomial `g_i(u)` of round `i = |rho| + 1` from the table `S_i`:
/// `K(u) · ((1 - u) / (1 - α_i) · H_0 + u / α_i · H_1)` with
/// `K(u) = e(α_i, u) · Π_{k < i-1} e(α_k, ρ_k)` and `H_t` the weighted sums of
/// the two halves of `S_i`.
pub open spec fn gi_value(si: Seq<int>, alpha: Seq<int>, rho: Seq<int>, u: int) -> int {
    let i1 = rho.len();
    let k = efac(alpha[i1 as int], u) * eprod(alpha, rho, i1);
    (gi_half(si, alpha, rho, 0) * ((1 - u) * inverse_of(1 - alpha[i1 as int]) * k) + gi_half(
        si,
        alpha,
        rho,
        exp2(i1) as int,
    ) * (u * inverse_of(alpha[i1 as int]) * k)) % q()
}

/// `x a + (1 - x)(1 - a)`.
fn efac_exec(a: &Fr, x: &Fr) -> (r: Fr)
    ensures
        r.val() == efac(a.val(), x.val()) % q(),
{
    let one = fr_one();
    let p1 = fr_mul(x, a);
    let oxm = fr_sub(&one, x);
    let oam = fr_sub(&one, a);
    let p2 = fr_mul(&oxm, &oam);
    proof {
        lemma_small_mod(1, q() as nat);
        lemma_mul_congr(oxm.val(), 1 - x.val(), oam.val(), 1 - a.val());
        lemma_mod_twice(1 - x.val(), q());
        lemma_mod_twice(1 - a.val(), q());
        lemma_add_congr(p1.val(), x.val() * a.val(), p2.val(), (1 - x.val()) * (1 - a.val()));
        lemma_mod_twice(x.val() * a.val(), q());
        lemma_mod_twice(oxm.val() * oam.val(), q());
    }
    fr_add(&p1, &p2)
}

/// The inverse modulo `q` of a nonzero element.
pub(crate) fn invert_nonzero(a: &Fr) -> (r: Fr)
    requires
        a.val() != 0,
    ensures
        r.val() == inverse_of(a.val()),
        is_inverse(a.val(), r.val()),
{
    let r = fr_invert(a).unwrap();
    proof {
        r.lemma_val_range();
        assert(a.val() * r.val() == r.val() * a.val());
        lemma_inverse_unique(a.val(), r.val());
    }
    r
}

/// The inverse of a residue is the inverse of the number.
proof fn lemma_inverse_of_mod(x: int, y: int)
    requires
        is_inverse(x % q(), y),
    ensures
        inverse_of(x % q()) == y,
        inverse_of(x) == y,
{
    lemma_inverse_unique(x % q(), y);
    lemma_mul_mod_noop_left(x, y, q());
    lemma_inverse_unique(x, y);
}

/// A half of `S_i` against the weights, as an inner product.
proof fn lemma_half_dot(sv: Seq<int>, av: Seq<int>, rv: Seq<int>, sc: Seq<int>, off: int)
    requires
        off >= 0,
        off + exp2(rv.len()) <= sv.len(),
        sc.len() == exp2(rv.len()),
        forall|t: int| 0 <= t < sc.len() ==> #[trigger] sc[t] == gi_weight(av, rv, t) % q(),
    ensures
        dot(sv.subrange(off, off + exp2(rv.len())), sc) % q() == gi_half(sv, av, rv, off) % q(),
{
    let part = sv.subrange(off, off + exp2(rv.len()));
    let s1 = Seq::new(min_len(part.len() as int, sc.len() as int) as nat, |t: int| part[t] * sc[t]);
    let s2 = Seq::new(exp2(rv.len()), |t: int| sv[off + t] * gi_weight(av, rv, t));
    assert forall|t: int| 0 <= t < s1.len() implies #[trigger] s1[t] % q() == s2[t] % q() by {
        lemma_mul_mod_noop_right(sv[off + t], gi_weight(av, rv, t), q());
    }
    lemma_ssum_mod(s1, s2, q());
}

/// The values `g_i(u)` of round `i ≤ l` of the group sum-check at each `u`,
/// from the table `S_i = S_tables[l - i]` and the challenges `rho` of the
/// earlier rounds.
pub fn compute_gi_values<C: InnerProduct>(
    m: usize,
    i: usize,
    l: usize,
    alpha: &[Fr],
    rho_prefix: &[Fr],
    s_tables: &Vec<Vec<C>>,
    u_values: &[Fr],
) -> (r: Vec<C>)
    requires
        1 <= i <= l,
        i <= m,
        alpha@.len() == m,
        rho_prefix@.len() == i - 1,
        l - i < s_tables@.len(),
        s_tables@[l - i]@.len() == exp2(i as nat),
        alpha@[i - 1].val() != 0,
        alpha@[i - 1].val() != 1,
        crate::utils::fprod(seq_mod(eq_table(lvals(alpha@).take(i - 1)), q())) % q() != 0,
    ensures
        r@.len() == u_values@.len(),
        forall|j: int|
            0 <= j < u_values@.len() ==> #[trigger] r@[j].lin_val() == gi_value(
                lvals(s_tables@[l - i]@),
                lvals(alpha@),
                lvals(rho_prefix@),
                u_values@[j].val(),
            ),
{
    let si = &s_tables[l - i];
    let ghost sv = lvals(si@);
    let ghost av = lvals(alpha@);
    let ghost rv = lvals(rho_prefix@);
    let silen = si.len();
    proof {
        lemma_exp2_pos((i - 1) as nat);
        assert(exp2(i as nat) == 2 * exp2((i - 1) as nat));
    }
    let chunk = pow2_usize(i - 1);
    let beta = vstd::slice::slice_subrange(alpha, 0, i - 1);
    let eq_r = MultilinearPoly::<Fr>::init_with_eq(rho_prefix);
    let eq_a = MultilinearPoly::<Fr>::init_with_eq(beta);
    proof {
        assert(lvals(beta@) =~= av.take(i - 1));
        assert(lvals(eq_a.coeffs@) == seq_mod(eq_table(av.take(i - 1)), q()));
    }
    let denominators = crate::utils::batch_invert(eq_a.coeffs.as_slice());
    let mut scalars: Vec<Fr> = Vec::new();
    let mut b: usize = 0;
    while b < chunk
        invariant
            b <= chunk,
            chunk == exp2((i - 1) as nat),
            eq_r.coeffs@.len() == chunk,
            lvals(eq_r.coeffs@) == seq_mod(eq_table(rv), q()),
            eq_a.coeffs@.len() == chunk,
            lvals(eq_a.coeffs@) == seq_mod(eq_table(av.take(i - 1)), q()),
            denominators@.len() == chunk,
            forall|t: int| 0 <= t < chunk ==> (#[trigger] denominators@[t].val() * eq_a.coeffs@[t].val()) % q() == 1,
            rv.len() == i - 1,
            av.take(i - 1).len() == i - 1,
            scalars@.len() == b,
            forall|t: int| 0 <= t < b ==> #[trigger] scalars@[t].val() == gi_weight(av, rv, t) % q(),
        decreases chunk - b,
    {
        let sc = fr_mul(&eq_r.coeffs[b], &denominators[b]);
        proof {
            let e1 = eq_at(rv, b as int);
            let e2 = eq_at(av.take(i - 1), b as int);
            let dv = denominators@[b as int].val();
            assert(rv.len() == i - 1);
            assert(lvals(eq_r.coeffs@)[b as int] == seq_mod(eq_table(rv), q())[b as int]);
            assert(eq_r.coeffs@[b as int].val() == e1 % q());
            assert(lvals(eq_a.coeffs@)[b as int] == seq_mod(eq_table(av.take(i - 1)), q())[b as int]);
            assert(eq_a.coeffs@[b as int].val() == e2 % q());
            denominators@[b as int].lemma_val_range();
            assert(e2 % q() * dv == dv * (e2 % q())) by (nonlinear_arith);
            assert(is_inverse(e2 % q(), dv));
            lemma_inverse_of_mod(e2, dv);
            assert(av.take(rv.len() as int) == av.take(i - 1));
            lemma_mul_mod_noop_left(e1, dv, q());
        }
        scalars.push(sc);
        b = b + 1;
    }
    let lo = vstd::slice::slice_subrange(si.as_slice(), 0, chunk);
    let hi = vstd::slice::slice_subrange(si.as_slice(), chunk, 2 * chunk);
    let h0 = C::inner_product_msm(lo, scalars.as_slice());
    let h1 = C::inner_product_msm(hi, scalars.as_slice());
    proof {
        lemma_half_dot(sv, av, rv, lvals(scalars@), 0);
        lemma_half_dot(sv, av, rv, lvals(scalars@), chunk as int);
        assert(lvals(lo@) =~= sv.subrange(0, chunk as int));
        assert(lvals(hi@) =~= sv.subrange(chunk as int, 2 * chunk as int));
    }
    let a = alpha[i - 1];
    let one = fr_one();
    let oma = fr_sub(&one, &a);
    proof {
        a.lemma_val_range();
        lemma_small_mod(1, q() as nat);
        if oma.val() == 0 {
            vstd::arithmetic::div_mod::lemma_fundamental_div_mod(1 - a.val(), q());
        }
    }
    let inv_oma = invert_nonzero(&oma);
    let inv_a = invert_nonzero(&a);
    proof {
        lemma_inverse_of_mod(1 - a.val(), inv_oma.val());
    }
    let mut g: Vec<C> = Vec::new();
    let mut j: usize = 0;
    while j < u_values.len()
        invariant
            j <= u_values@.len(),
            i >= 1,
            rho_prefix@.len() == i - 1,
            alpha@.len() == m,
            i <= m,
            a == alpha@[i - 1],
            av == lvals(alpha@),
            rv == lvals(rho_prefix@),
            sv == lvals(s_tables@[l - i]@),
            one.val() == 1,
            inv_oma.val() == inverse_of(1 - a.val()),
            inv_a.val() == inverse_of(a.val()),
            h0.lin_val() == gi_half(sv, av, rv, 0) % q(),
            h1.lin_val() == gi_half(sv, av, rv, exp2((i - 1) as nat) as int) % q(),
            g@.len() == j,
            forall|t: int| 0 <= t < j ==> #[trigger] g@[t].lin_val() == gi_value(sv, av, rv, u_values@[t].val()),
        decreases u_values@.len() - j,
    {
        let u = u_values[j];
        let mut kk = efac_exec(&a, &u);
        let mut k: usize = 0;
        proof {
            assert(efac(av[i - 1], u.val()) * eprod(av, rv, 0) == efac(av[i - 1], u.val()));
        }
        while k < i - 1
            invariant
                k <= i - 1,
                i >= 1,
                rho_prefix@.len() == i - 1,
                alpha@.len() == m,
                i <= m,
                av == lvals(alpha@),
                rv == lvals(rho_prefix@),
                kk.val() == (efac(av[i - 1], u.val()) * eprod(av, rv, k as nat)) % q(),
            decreases i - 1 - k,
        {
            let e = efac_exec(&alpha[k], &rho_prefix[k]);
            proof {
                let e0 = efac(av[i - 1], u.val());
                let p = eprod(av, rv, k as nat);
                let ek = efac(av[k as int], rv[k as int]);
                assert(eprod(av, rv, (k + 1) as nat) == p * ek);
                lemma_mul_congr(kk.val(), e0 * p, e.val(), ek);
                lemma_mod_twice(e0 * p, q());
                lemma_mod_twice(ek, q());
                assert((e0 * p) * ek == e0 * (p * ek)) by (nonlinear_arith);
            }
            kk = fr_mul(&kk, &e);
            k = k + 1;
        }
        let omu = fr_sub(&one, &u);
        let lf0 = fr_mul(&omu, &inv_oma);
        let rf0 = fr_mul(&u, &inv_a);
        let lf = fr_mul(&lf0, &kk);
        let rf = fr_mul(&rf0, &kk);
        let t0 = h0.lin_scale(&lf);
        let t1 = h1.lin_scale(&rf);
        let v = t0.lin_add(&t1);
        proof {
            let uv = u.val();
            let kv = efac(av[i - 1], uv) * eprod(av, rv, (i - 1) as nat);
            let ia = inverse_of(1 - av[i - 1]);
            let ib = inverse_of(av[i - 1]);
            let g0 = gi_half(sv, av, rv, 0);
            let g1 = gi_half(sv, av, rv, exp2((i - 1) as nat) as int);
            lemma_mod_twice(1 - uv, q());
            lemma_mul_congr(omu.val(), 1 - uv, inv_oma.val(), ia);
            lemma_mod_twice((1 - uv) * ia, q());
            lemma_mul_congr(lf0.val(), (1 - uv) * ia, kk.val(), kv);
            lemma_mod_twice(kv, q());
            lemma_mod_twice((1 - uv) * ia * kv, q());
            lemma_mul_congr(rf0.val(), uv * ib, kk.val(), kv);
            lemma_mod_twice(uv * ib, q());
            lemma_mod_twice(uv * ib * kv, q());
            lemma_mul_congr(h0.lin_val(), g0, lf.val(), (1 - uv) * ia * kv);
            lemma_mod_twice(g0, q());
            lemma_mul_congr(h1.lin_val(), g1, rf.val(), uv * ib * kv);
            lemma_mod_twice(g1, q());
            lemma_mod_twice(h0.lin_val() * lf.val(), q());
            lemma_mod_twice(h1.lin_val() * rf.val(), q());
            lemma_add_congr(t0.lin_val(), g0 * ((1 - uv) * ia * kv), t1.lin_val(), g1 * (uv * ib * kv));
            assert(gi_value(sv, av, rv, uv) == (g0 * ((1 - uv) * ia * kv) + g1 * (uv * ib * kv)) % q());
            lemma_mod_twice(t0.lin_val() + t1.lin_val(), q());
        }
        g.push(v);
        j = j + 1;
    }
    g
}


/// The transcript with one labelled message per scalar appended.
pub open spec fn scalar_msgs(log: Seq<TranscriptEntry>, label: Seq<char>, vals: Seq<Fr>) -> Seq<TranscriptEntry> {
    log + Seq::new(vals.len(), |k: int| TranscriptEntry::Message(label, vals[k].enc()))
}

/// The transcript of the non-interactive group sum-check once the public
/// inputs are bound: the label, `m`, `l`, `alpha` and `sigma`.
pub open spec fn gs_init_log(m: u64, l: u64, alpha: Seq<Fr>, sigma: Pt) -> Seq<TranscriptEntry> {
    scalar_msgs(
        seq![
            TranscriptEntry::Init("sumcheck-pallas"@),
            TranscriptEntry::U64("m"@, m),
            TranscriptEntry::U64("l"@, l),
        ],
        "alpha"@,
        alpha,
    ).push(TranscriptEntry::Message("sigma"@, sigma.encoding()))
}

/// Binds the public inputs of the group sum-check to a new transcript.
fn gs_bind_inputs(m: usize, l: usize, alpha: &[Fr], sigma: &Pt) -> (t: TitanTranscript)
    ensures
        t@ == gs_init_log(m as u64, l as u64, alpha@, *sigma),
{
    let mut transcript = TitanTranscript::new("sumcheck-pallas");
    transcript.append_u64("m", m as u64);
    transcript.append_u64("l", l as u64);
    let ghost base = transcript@;
    let mut k: usize = 0;
    proof {
        assert(scalar_msgs(base, "alpha"@, alpha@.take(0)) =~= base);
    }
    while k < alpha.len()
        invariant
            k <= alpha@.len(),
            transcript@ == scalar_msgs(base, "alpha"@, alpha@.take(k as int)),
        decreases alpha@.len() - k,
    {
        transcript_append_scalar(&mut transcript, "alpha", &alpha[k]);
        proof {
            assert(scalar_msgs(base, "alpha"@, alpha@.take(k + 1)) =~= scalar_msgs(base, "alpha"@, alpha@.take(k as int)).push(
                TranscriptEntry::Message("alpha"@, alpha@[k as int].enc()),
            ));
        }
        k = k + 1;
    }
    proof {
        assert(alpha@.take(alpha@.len() as int) =~= alpha@);
        assert(base == seq![
            TranscriptEntry::Init("sumcheck-pallas"@),
            TranscriptEntry::U64("m"@, m as u64),
            TranscriptEntry::U64("l"@, l as u64),
        ]);
    }
    transcript_append_point(&mut transcript, "sigma", sigma);
    transcript
}

/// Whether a table of `len` entries has exactly `2^m` of them.
fn len_is_exp2(len: usize, m: usize) -> (r: bool)
    ensures
        r == (len as nat == exp2(m as nat)),
{
    let mut p: usize = 1;
    let mut i: usize = 0;
    while i < m
        invariant
            i <= m,
            p == exp2(i as nat),
            p <= len || i == 0,
        decreases m - i,
    {
        if p > len / 2 {
            proof {
                lemma_exp2_monotone((i + 1) as nat, m as nat);
                assert(exp2((i + 1) as nat) == 2 * exp2(i as nat));
            }
            return false;
        }
        p = p * 2;
        i = i + 1;
    }
    p == len
}

/// The final check of the non-interactive group sum-check: the table has
/// `2^m` entries, `alpha` has `m` values, and the last claim is
/// `eq(alpha, r) · f(r)` at the challenges `r`.
pub open spec fn gv_final_ok(f: Seq<int>, av: Seq<int>, m: nat, claim: int, rv: Seq<int>) -> bool {
    &&& f.len() == exp2(m)
    &&& av.len() == m
    &&& claim == ((mle(f, rv) % q()) * (eq_poly(av, rv) % q())) % q()
}

/// The verifier of the non-interactive group sum-check. It replays the
/// prover's transcript: in each of the `m` rounds it checks
/// `g(0) + g(1) = claim`, binds `g(0), g(1), g(2)`, draws `r_i` and reads the
/// round polynomial at `r_i` as the next claim; at the end it checks the
/// last claim against `eq(alpha, r) · f(r)`, with `f` the table `f_table`.
pub fn run_verifier_noninteractive(
    m: usize,
    l: usize,
    f_table: &[Pt],
    alpha: &[Fr],
    sigma: &Pt,
    gi_triples: &Vec<[Pt; 3]>,
) -> (r: Result<(), &'static str>)
    requires
        gi_triples@.len() == m,
    ensures
        ({
            let log0 = gs_init_log(m as u64, l as u64, alpha@, *sigma);
            let tr = gi_triples@;
            let s = sigma.log();
            let rv = Seq::new(m as nat, |j: int| gp_r(log0, tr, j as nat));
            let rounds_ok = forall|j: int| 0 <= j < m ==> #[trigger] sg_round_ok(log0, tr, s, j);
            let final_ok = gv_final_ok(lvals(f_table@), lvals(alpha@), m as nat, sg_prev_claim(log0, tr, s, m as int), rv);
            &&& r is Ok <==> rounds_ok && final_ok
            &&& !rounds_ok ==> r == Err::<(), &'static str>("Sumcheck consistency failed")
            &&& rounds_ok && !final_ok ==> r == Err::<(), &'static str>("Final polynomial evaluation mismatch")
        }),
{
    let ghost log0 = gs_init_log(m as u64, l as u64, alpha@, *sigma);
    let ghost tr = gi_triples@;
    let mut transcript = gs_bind_inputs(m, l, alpha, sigma);
    let (ok, r_vec) = sg_replay_rounds(gi_triples, m, sigma, &mut transcript);
    if !ok {
        return Err("Sumcheck consistency failed");
    }
    let ghost rv = Seq::new(m as nat, |j: int| gp_r(log0, tr, j as nat));
    proof {
        assert(lvals(r_vec@).len() == m);
        if m > 0 {
            assert(lvals(r_vec@)[m - 1] == gp_r(log0, tr, (m - 1) as nat));
        }
    }
    let claim = if m == 0 {
        *sigma
    } else {
        eval_triple_at_alpha(&gi_triples[m - 1], r_vec[m - 1])
    };
    proof {
        sigma.lemma_log_range();
        assert(claim.log() == sg_prev_claim(log0, tr, sigma.log(), m as int));
    }
    if !len_is_exp2(f_table.len(), m) || alpha.len() != m {
        return Err("Final polynomial evaluation mismatch");
    }
    let f_poly = MultilinearPoly::new(vstd::slice::slice_to_vec(f_table));
    proof {
        crate::sums::lemma_exp2_injective(f_poly.num_vars as nat, m as nat);
    }
    let f_at_r = f_poly.evaluate_msm(r_vec.as_slice());
    let e = crate::pcs::eq_product(alpha, r_vec.as_slice());
    let expected = pt_scale(&f_at_r, &e);
    proof {
        assert(lvals(r_vec@) == rv);
        assert(f_poly.table() == lvals(f_table@));
    }
    if !pt_eq(&claim, &expected) {
        return Err("Final polynomial evaluation mismatch");
    }
    Ok(())
}

/// The prover's three messages of a round appended to the transcript.
pub open spec fn gp_msgs(log: Seq<TranscriptEntry>, t: [Pt; 3]) -> Seq<TranscriptEntry> {
    log.push(TranscriptEntry::Message("g_i(0)"@, t[0].encoding())).push(
        TranscriptEntry::Message("g_i(1)"@, t[1].encoding()),
    ).push(TranscriptEntry::Message("g_i(2)"@, t[2].encoding()))
}

/// The prover's transcript after `j` rounds.
pub open spec fn gp_log(log0: Seq<TranscriptEntry>, triples: Seq<[Pt; 3]>, j: nat) -> Seq<TranscriptEntry>
    decreases j,
{
    if j == 0 {
        log0
    } else {
        gp_msgs(gp_log(log0, triples, (j - 1) as nat), triples[j - 1]).push(TranscriptEntry::Challenge("r_i"@, 64))
    }
}

/// The prover's challenge of round `j`.
pub open spec fn gp_r(log0: Seq<TranscriptEntry>, triples: Seq<[Pt; 3]>, j: nat) -> int {
    challenge_scalar(merlin_challenge(gp_msgs(gp_log(log0, triples, j), triples[j as int]), "r_i"@, 64))
}

/// The prover's transcript after `j` rounds depends on those rounds only.
pub proof fn lemma_gp_log_prefix(log0: Seq<TranscriptEntry>, t1: Seq<[Pt; 3]>, t2: Seq<[Pt; 3]>, j: nat)
    requires
        j <= t1.len(),
        j <= t2.len(),
        forall|i: int| 0 <= i < j ==> #[trigger] t1[i] == t2[i],
    ensures
        gp_log(log0, t1, j) == gp_log(log0, t2, j),
    decreases j,
{
    if j > 0 {
        lemma_gp_log_prefix(log0, t1, t2, (j - 1) as nat);
        assert(t1[j - 1] == t2[j - 1]);
    }
}

/// The entries of a table at even indices.
pub open spec fn evens(c: Seq<int>) -> Seq<int> {
    Seq::new(c.len() / 2, |b: int| c[2 * b])
}

/// The entries of a table at odd indices.
pub open spec fn odds(c: Seq<int>) -> Seq<int> {
    Seq::new(c.len() / 2, |b: int| c[2 * b + 1])
}

/// The round message `[g(0), g(1), g(2)]` of a round answered by folding, for
/// the current tables `h` of `f` and `e` of `eq(α, ·)`: with `s_{tu}` the sum
/// over `b` of `h[2b + t] · e[2b + u]`, `g(0) = s_00`, `g(1) = s_11` and
/// `g(2) = s_00 - 2 s_01 - 2 s_10 + 4 s_11`.
pub open spec fn fold_round(h: Seq<int>, e: Seq<int>) -> Seq<int> {
    let s1 = dot(evens(h), evens(e));
    let s2 = dot(evens(h), odds(e));
    let s3 = dot(odds(h), evens(e));
    let s4 = dot(odds(h), odds(e));
    seq![s1 % q(), s4 % q(), (s1 - 2 * s2 - 2 * s3 + 4 * s4) % q()]
}

/// The even- and odd-indexed entries of a polynomial's table.
fn split_parity<C: Linear>(p: &MultilinearPoly<C>) -> (r: (Vec<C>, Vec<C>))
    requires
        p.wf(),
        p.num_vars >= 1,
    ensures
        lvals(r.0@) == evens(p.table()),
        lvals(r.1@) == odds(p.table()),
        r.0@.len() == r.1@.len(),
        r.0@.len() == p.coeffs@.len() / 2,
{
    let total = p.coeffs.len();
    let stride = total / 2;
    proof {
        lemma_exp2_pos((p.num_vars - 1) as nat);
        assert(exp2(p.num_vars as nat) == 2 * exp2((p.num_vars - 1) as nat));
    }
    let mut ev: Vec<C> = Vec::new();
    let mut od: Vec<C> = Vec::new();
    let mut b: usize = 0;
    while b < stride
        invariant
            b <= stride,
            2 * stride == p.coeffs@.len(),
            p.coeffs@.len() <= usize::MAX,
            ev@.len() == b,
            od@.len() == b,
            forall|t: int| 0 <= t < b ==> #[trigger] ev@[t] == p.coeffs@[2 * t],
            forall|t: int| 0 <= t < b ==> #[trigger] od@[t] == p.coeffs@[2 * t + 1],
        decreases stride - b,
    {
        ev.push(p.coeffs[2 * b]);
        od.push(p.coeffs[2 * b + 1]);
        b = b + 1;
    }
    proof {
        assert(lvals(ev@) =~= evens(p.table()));
        assert(lvals(od@) =~= odds(p.table()));
    }
    (ev, od)
}

/// The message of a round answered by folding.
fn gp_fold_round(h: &MultilinearPoly<Pt>, e: &MultilinearPoly<Fr>) -> (t: [Pt; 3])
    requires
        h.wf(),
        e.wf(),
        h.num_vars == e.num_vars,
        h.num_vars >= 1,
    ensures
        t[0].log() == fold_round(h.table(), e.table())[0],
        t[1].log() == fold_round(h.table(), e.table())[1],
        t[2].log() == fold_round(h.table(), e.table())[2],
{
    let (pe, po) = split_parity(h);
    let (se, so) = split_parity(e);
    let sum1 = Pt::inner_product_msm(pe.as_slice(), se.as_slice());
    let sum2 = Pt::inner_product_msm(pe.as_slice(), so.as_slice());
    let sum3 = Pt::inner_product_msm(po.as_slice(), se.as_slice());
    let sum4 = Pt::inner_product_msm(po.as_slice(), so.as_slice());
    let s22 = pt_add(&sum2, &sum2);
    let a1 = pt_add(&s22, &sum3);
    let a2 = pt_add(&a1, &sum3);
    let s44 = pt_add(&sum4, &sum4);
    let b1 = pt_add(&s44, &sum4);
    let b2 = pt_add(&b1, &sum4);
    let d = pt_sub(&sum1, &a2);
    let g2 = pt_add(&d, &b2);
    proof {
        let x1 = dot(evens(h.table()), evens(e.table()));
        let x2 = dot(evens(h.table()), odds(e.table()));
        let x3 = dot(odds(h.table()), evens(e.table()));
        let x4 = dot(odds(h.table()), odds(e.table()));
        lemma_add_mod_noop(x2, x2, q());
        lemma_add_mod_noop(x2 + x2, x3, q());
        lemma_mod_twice(x2 + x2, q());
        lemma_add_mod_noop(x2 + x2 + x3, x3, q());
        lemma_mod_twice(x2 + x2 + x3, q());
        lemma_add_mod_noop(x4, x4, q());
        lemma_add_mod_noop(x4 + x4, x4, q());
        lemma_mod_twice(x4 + x4, q());
        lemma_add_mod_noop(x4 + x4 + x4, x4, q());
        lemma_mod_twice(x4 + x4 + x4, q());
        lemma_sub_mod_noop(x1, x2 + x2 + x3 + x3, q());
        lemma_add_mod_noop(x1 - (x2 + x2 + x3 + x3), x4 + x4 + x4 + x4, q());
        lemma_mod_twice(x1 - (x2 + x2 + x3 + x3), q());
        lemma_mod_twice(x4 + x4 + x4 + x4, q());
        assert(x1 - (x2 + x2 + x3 + x3) + (x4 + x4 + x4 + x4) == x1 - 2 * x2 - 2 * x3 + 4 * x4);
    }
    [sum1, sum4, g2]
}

/// The requirements on `alpha` of the first `l` rounds: `alpha_{i-1}` is
/// neither zero nor one and the table of `eq(alpha_{<i-1}, ·)` has an
/// invertible product.
pub open spec fn gs_alpha_ok(alpha: Seq<Fr>, l: nat) -> bool {
    forall|i: int|
        1 <= i <= l ==> (#[trigger] alpha[i - 1]).val() != 0 && alpha[i - 1].val() != 1 && crate::utils::fprod(
            seq_mod(eq_table(alpha.map_values(|c: Fr| c.lin_val()).take(i - 1)), q()),
        ) % q() != 0
}

/// Whether `alpha` meets `gs_alpha_ok` for `l` rounds: each of its first
/// `l` values is neither 0 nor 1 and the `eq` table of the values before it
/// has a product that is not zero.
pub fn check_alpha(alpha: &[Fr], l: usize) -> (r: bool)
    requires
        l <= alpha@.len(),
        exp2(l as nat) <= usize::MAX,
    ensures
        r == gs_alpha_ok(alpha@, l as nat),
{
    let zero = crate::field::fr_zero();
    let one = fr_one();
    proof {
        crate::multilinear::lemma_exp2_gt(l as nat);
    }
    let mut i: usize = 1;
    while i <= l
        invariant
            1 <= i <= l + 1,
            l < usize::MAX,
            l <= alpha@.len(),
            exp2(l as nat) <= usize::MAX,
            zero.val() == 0,
            one.val() == 1,
            forall|j: int| 1 <= j < i ==> #[trigger] gs_alpha_ok_at(alpha@, j),
        decreases l + 1 - i,
    {
        let a = alpha[i - 1];
        if crate::field::fr_eq(&a, &zero) || crate::field::fr_eq(&a, &one) {
            proof {
                assert(!gs_alpha_ok_at(alpha@, i as int));
            }
            return false;
        }
        proof {
            crate::sums::lemma_exp2_monotone((i - 1) as nat, l as nat);
        }
        let prefix = vstd::slice::slice_subrange(alpha, 0, i - 1);
        let eqt = MultilinearPoly::<Fr>::init_with_eq(prefix);
        let ghost t = lvals(eqt.coeffs@);
        let mut acc = fr_one();
        let mut k: usize = 0;
        proof {
            assert(t.take(0).len() == 0);
        }
        while k < eqt.coeffs.len()
            invariant
                k <= eqt.coeffs@.len(),
                t == lvals(eqt.coeffs@),
                acc.val() == crate::utils::fprod(t.take(k as int)) % q(),
            decreases eqt.coeffs@.len() - k,
        {
            proof {
                crate::utils::lemma_fprod_push(t, k as int);
                lemma_mul_mod_noop_left(crate::utils::fprod(t.take(k as int)), t[k as int], q());
            }
            acc = fr_mul(&acc, &eqt.coeffs[k]);
            k = k + 1;
        }
        proof {
            assert(t.take(k as int) =~= t);
            assert(lvals(prefix@) =~= alpha@.map_values(|c: Fr| c.lin_val()).take(i - 1));
        }
        if crate::field::fr_eq(&acc, &zero) {
            proof {
                assert(!gs_alpha_ok_at(alpha@, i as int));
            }
            return false;
        }
        i = i + 1;
    }
    proof {
        assert forall|j: int| 1 <= j <= l implies (#[trigger] alpha@[j - 1]).val() != 0 && alpha@[j - 1].val() != 1
            && crate::utils::fprod(seq_mod(eq_table(alpha@.map_values(|c: Fr| c.lin_val()).take(j - 1)), q())) % q()
            != 0 by {
            assert(gs_alpha_ok_at(alpha@, j));
        }
    }
    true
}

/// The condition of `gs_alpha_ok` at position `i`.
pub open spec fn gs_alpha_ok_at(alpha: Seq<Fr>, i: int) -> bool {
    alpha[i - 1].val() != 0 && alpha[i - 1].val() != 1 && crate::utils::fprod(
        seq_mod(eq_table(alpha.map_values(|c: Fr| c.lin_val()).take(i - 1)), q()),
    ) % q() != 0
}

/// What the prover of the non-interactive group sum-check returns: `m`
/// challenges, each drawn from the transcript of the rounds before it, and
/// `m` round messages: for round `j < l` the values at `0, 1, 2` of the
/// round polynomial computed from `S_l` with `l - j - 1` variables summed
/// out, for round `j >= l` the message of folding `f` and `eq(alpha, ·)`,
/// restricted to the first `l` challenges, at the challenges since.
pub open spec fn np_prove_post(m: nat, l: nat, f_table: Seq<Pt>, alpha: Seq<Fr>, sigma: Pt, rv: Seq<int>, tr: Seq<[Pt; 3]>) -> bool {
    let f = lvals(f_table);
    let av = lvals(alpha);
    let log0 = gs_init_log(m as u64, l as u64, alpha, sigma);
    let slv = seq_mod(sl_table(f, av, l), q());
    let h0 = seq_mod(restrict_lo(f, rv.take(l as int), (m - l) as nat), q());
    let e0 = seq_mod(restrict_lo(seq_mod(eq_table(av), q()), rv.take(l as int), (m - l) as nat), q());
    &&& rv.len() == m
    &&& tr.len() == m
    &&& forall|j: int| 0 <= j < m ==> #[trigger] rv[j] == gp_r(log0, tr, j as nat)
    &&& forall|j: int, u: int|
        0 <= j < l && 0 <= u < 3 ==> #[trigger] tr[j][u].log() == gi_value(
            sum_top_times(slv, (l - j - 1) as nat),
            av,
            rv.take(j),
            u,
        )
    &&& forall|j: int, u: int|
        l <= j < m && 0 <= u < 3 ==> #[trigger] tr[j][u].log() == fold_round(
            fold_seq(h0, rv.subrange(l as int, j)),
            fold_seq(e0, rv.subrange(l as int, j)),
        )[u]
}

/// The prover of the non-interactive group sum-check for `sigma = f(alpha)`:
/// rounds `1..=l` from the tables `S_i`, rounds `l+1..=m` by folding `f`,
/// restricted to the first challenges, and `eq(alpha, ·)` together.
pub fn run_prover_noninteractive(m: usize, l: usize, f_table: &[Pt], alpha: &[Fr], sigma: Pt) -> (r: (
    Vec<Fr>,
    Vec<[Pt; 3]>,
))
    requires
        1 <= l < m,
        f_table@.len() == exp2(m as nat),
        alpha@.len() == m,
        gs_alpha_ok(alpha@, l as nat),
    ensures
        np_prove_post(m as nat, l as nat, f_table@, alpha@, sigma, lvals(r.0@), r.1@),
{
    let ghost f = lvals(f_table@);
    let ghost av = lvals(alpha@);
    let ghost log0 = gs_init_log(m as u64, l as u64, alpha@, sigma);
    let flen = f_table.len();
    let f_poly = MultilinearPoly::new(vstd::slice::slice_to_vec(f_table));
    proof {
        crate::sums::lemma_exp2_injective(f_poly.num_vars as nat, m as nat);
    }
    let s_l = compute_Sl_poly(m, l, &f_poly, alpha);
    let ghost slv = s_l.table();
    let s_tables = compute_all_S_tables(s_l.coeffs, l);
    let mut transcript = gs_bind_inputs(m, l, alpha, &sigma);
    let mut r_vec: Vec<Fr> = Vec::new();
    let mut gi_triples: Vec<[Pt; 3]> = Vec::new();
    let u_values = [fr_from_u64(0), fr_from_u64(1), fr_from_u64(2)];
    let mut i: usize = 1;
    while i <= l
        invariant
            1 <= i <= l + 1,
            l < m,
            alpha@.len() == m,
            av == lvals(alpha@),
            gs_alpha_ok(alpha@, l as nat),
            s_tables@.len() == l,
            forall|t: int| 0 <= t < l ==> (#[trigger] s_tables@[t])@.len() == exp2((l - t) as nat),
            forall|t: int| 0 <= t < l ==> lvals((#[trigger] s_tables@[t])@) == sum_top_times(slv, t as nat),
            u_values@[0].val() == 0,
            u_values@[1].val() == 1,
            u_values@[2].val() == 2,
            r_vec@.len() == i - 1,
            gi_triples@.len() == i - 1,
            transcript@ == gp_log(log0, gi_triples@, (i - 1) as nat),
            forall|j: int| 0 <= j < i - 1 ==> #[trigger] lvals(r_vec@)[j] == gp_r(log0, gi_triples@, j as nat),
            forall|j: int, u: int|
                0 <= j < i - 1 && 0 <= u < 3 ==> #[trigger] gi_triples@[j][u].log() == gi_value(
                    sum_top_times(slv, (l - j - 1) as nat),
                    av,
                    lvals(r_vec@).take(j),
                    u,
                ),
        decreases l + 1 - i,
    {
        proof {
            assert(alpha@[i - 1].val() != 0);
        }
        let gi = compute_gi_values(m, i, l, alpha, r_vec.as_slice(), &s_tables, u_values.as_slice());
        let t = [gi[0], gi[1], gi[2]];
        transcript_append_point(&mut transcript, "g_i(0)", &t[0]);
        transcript_append_point(&mut transcript, "g_i(1)", &t[1]);
        transcript_append_point(&mut transcript, "g_i(2)", &t[2]);
        let r_i = transcript_challenge_scalar(&mut transcript, "r_i");
        let ghost rv_old = lvals(r_vec@);
        let ghost tr_old = gi_triples@;
        r_vec.push(r_i);
        gi_triples.push(t);
        proof {
            let rv_new = lvals(r_vec@);
            let tr_new = gi_triples@;
            assert(rv_new =~= rv_old.push(r_i.val()));
            assert(tr_new =~= tr_old.push(t));
            lemma_gp_log_prefix(log0, tr_old, tr_new, (i - 1) as nat);
            assert(gp_msgs(gp_log(log0, tr_new, (i - 1) as nat), t) == gp_msgs(gp_log(log0, tr_old, (i - 1) as nat), t));
            assert forall|j: int| 0 <= j < i implies #[trigger] rv_new[j] == gp_r(log0, tr_new, j as nat) by {
                if j < i - 1 {
                    lemma_gp_log_prefix(log0, tr_old, tr_new, j as nat);
                    assert(tr_new[j] == tr_old[j]);
                }
            }
            assert forall|j: int, u: int|
                0 <= j < i && 0 <= u < 3 implies #[trigger] tr_new[j][u].log() == gi_value(
                sum_top_times(slv, (l - j - 1) as nat),
                av,
                rv_new.take(j),
                u,
            ) by {
                assert(rv_new.take(j) =~= rv_old.take(j));
                if j == i - 1 {
                    assert(rv_old.take(j) =~= rv_old);
                    assert(lvals(s_tables@[l - i]@) == sum_top_times(slv, (l - i) as nat));
                    assert(tr_new[j] == t);
                    assert((l - j - 1) as nat == (l - i) as nat);
                    if u == 0 {
                        assert(t[0] == gi@[0]);
                        assert(gi@[0].lin_val() == gi_value(lvals(s_tables@[l - i]@), av, rv_old, u_values@[0].val()));
                    } else if u == 1 {
                        assert(t[1] == gi@[1]);
                        assert(gi@[1].lin_val() == gi_value(lvals(s_tables@[l - i]@), av, rv_old, u_values@[1].val()));
                    } else {
                        assert(t[2] == gi@[2]);
                        assert(gi@[2].lin_val() == gi_value(lvals(s_tables@[l - i]@), av, rv_old, u_values@[2].val()));
                    }
                } else {
                    assert(tr_new[j] == tr_old[j]);
                }
            }
        }
        i = i + 1;
    }
    proof {
        assert(f_poly.num_vars == m);
    }
    let mut h_poly = f_poly.restrict(r_vec.as_slice());
    let eq_poly = MultilinearPoly::<Fr>::init_with_eq(alpha);
    let mut eq_red = eq_poly.restrict(r_vec.as_slice());
    let ghost rl = lvals(r_vec@);
    let ghost h0 = seq_mod(restrict_lo(f, rl, (m - l) as nat), q());
    let ghost e0 = seq_mod(restrict_lo(seq_mod(eq_table(av), q()), rl, (m - l) as nat), q());
    proof {
        assert(rl.subrange(l as int, l as int) =~= Seq::<int>::empty());
        assert(rl.take(l as int) =~= rl);
    }
    let mut j: usize = l;
    while j < m
        invariant
            l <= j <= m,
            rl.len() == l,
            h_poly.wf(),
            eq_red.wf(),
            h_poly.num_vars == m - j,
            eq_red.num_vars == m - j,
            h_poly.table() == fold_seq(h0, lvals(r_vec@).subrange(l as int, j as int)),
            eq_red.table() == fold_seq(e0, lvals(r_vec@).subrange(l as int, j as int)),
            lvals(r_vec@).take(l as int) == rl,
            r_vec@.len() == j,
            gi_triples@.len() == j,
            transcript@ == gp_log(log0, gi_triples@, j as nat),
            forall|t: int| 0 <= t < j ==> #[trigger] lvals(r_vec@)[t] == gp_r(log0, gi_triples@, t as nat),
            forall|t: int, u: int|
                0 <= t < l && 0 <= u < 3 ==> #[trigger] gi_triples@[t][u].log() == gi_value(
                    sum_top_times(slv, (l - t - 1) as nat),
                    av,
                    lvals(r_vec@).take(t),
                    u,
                ),
            forall|t: int, u: int|
                l <= t < j && 0 <= u < 3 ==> #[trigger] gi_triples@[t][u].log() == fold_round(
                    fold_seq(h0, lvals(r_vec@).subrange(l as int, t)),
                    fold_seq(e0, lvals(r_vec@).subrange(l as int, t)),
                )[u],
        decreases m - j,
    {
        let t = gp_fold_round(&h_poly, &eq_red);
        transcript_append_point(&mut transcript, "g_i(0)", &t[0]);
        transcript_append_point(&mut transcript, "g_i(1)", &t[1]);
        transcript_append_point(&mut transcript, "g_i(2)", &t[2]);
        let r_i = transcript_challenge_scalar(&mut transcript, "r_i");
        let ghost rv_old = lvals(r_vec@);
        let ghost tr_old = gi_triples@;
        r_vec.push(r_i);
        gi_triples.push(t);
        h_poly.fold_first(r_i);
        eq_red.fold_first(r_i);
        proof {
            let rv_new = lvals(r_vec@);
            let tr_new = gi_triples@;
            assert(rv_new =~= rv_old.push(r_i.val()));
            assert(tr_new =~= tr_old.push(t));
            assert(rv_new.take(l as int) =~= rv_old.take(l as int));
            assert(rv_new.subrange(l as int, j + 1) =~= rv_old.subrange(l as int, j as int).push(r_i.val()));
            assert(rv_new.subrange(l as int, j + 1).drop_last() =~= rv_old.subrange(l as int, j as int));
            lemma_gp_log_prefix(log0, tr_old, tr_new, j as nat);
            assert forall|k: int| 0 <= k <= j implies #[trigger] rv_new[k] == gp_r(log0, tr_new, k as nat) by {
                if k < j {
                    lemma_gp_log_prefix(log0, tr_old, tr_new, k as nat);
                    assert(tr_new[k] == tr_old[k]);
                }
            }
            assert forall|k: int, u: int|
                0 <= k < l && 0 <= u < 3 implies #[trigger] tr_new[k][u].log() == gi_value(
                sum_top_times(slv, (l - k - 1) as nat),
                av,
                rv_new.take(k),
                u,
            ) by {
                assert(rv_new.take(k) =~= rv_old.take(k));
                assert(tr_new[k] == tr_old[k]);
            }
            assert forall|k: int, u: int|
                l <= k <= j && 0 <= u < 3 implies #[trigger] tr_new[k][u].log() == fold_round(
                fold_seq(h0, rv_new.subrange(l as int, k)),
                fold_seq(e0, rv_new.subrange(l as int, k)),
            )[u] by {
                assert(rv_new.subrange(l as int, k) =~= rv_old.subrange(l as int, k));
                if k < j {
                    assert(tr_new[k] == tr_old[k]);
                }
            }
        }
        j = j + 1;
    }
    (r_vec, gi_triples)
}

} // verus!
