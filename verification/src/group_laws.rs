//! Completeness of the rounds of the group sum-check: each honest round
//! polynomial, read at the round's challenge, is the claim that the next
//! honest round sums to.
use vstd::prelude::*;
use vstd::arithmetic::div_mod::{
    lemma_fundamental_div_mod, lemma_mod_twice, lemma_add_mod_noop, lemma_mul_mod_noop_left, lemma_mul_mod_noop_right,
    lemma_small_mod,
};
use crate::field::q;
use vstd::arithmetic::div_mod::{lemma_fundamental_div_mod_converse, lemma_mul_mod_noop};
use crate::group_sumcheck::{inv2, eval_triple, efac, eprod, gi_value, gi_half, gi_weight, sum_top, sum_top_times, sl_table, sl_entry};
use crate::sumcheck_laws::{
    lemma_quad_interp, lemma_halve_congruence, lemma_sum_top_times_total, law_group_first_round_sums_to_claim,
};
use crate::field::Fr;
use crate::group::Pt;
use crate::traits::lvals;
use crate::transcript::TranscriptEntry;
use crate::group_sumcheck::{gp_r, gs_init_log, np_prove_post, fold_round, evens, odds, gv_final_ok};
use crate::sumcheck::sg_prev_claim;
use crate::field_sumcheck::fold_seq;
use crate::mle::{fold_lo, eq_poly, fold_hi, lemma_mle_fold_hi, lemma_mle_eq_table, lemma_mle_empty, lemma_eq_at_split};
use crate::sumcheck::{
    sg_round_ok, sg_prove_post, sg_init_log, SumCheckGroupRounds, sgb_prove_post, sgb_init_log, sgb_sl_tables, sg_comb,
    sg_eterms,
};
use crate::sumcheck_laws::law_group_batch_first_round_sums_to_claim;
use crate::multilinear::MultilinearPoly;
use crate::pcs::gamma_sum;
use vstd::arithmetic::power::pow;
use crate::sums::{dot, min_len, lemma_ssum_swap};
use crate::mle::{eq_table, restrict_lo, restrict_hi, lemma_mle_restrict_lo, lemma_mle_restrict_hi, lemma_mle_mod};
use crate::sumcheck::{
    sg_positions_ok,
    sg_poly_ok, sg_ytab, sg_yterms, sg_eval_ok, sg_leaf_cat, sg_eq_cat, sg_powers, sg_verdict, sg_openings_ok,
    sg_shape_ok, SumCheckGroupProof, sg_comb_terms, sgb_verdict, sgb_openings_ok, sgb_shape_ok, sgb_h_tables,
    tables_vals, SumCheckGroupBatchProof, sgb_gamma,
};
use crate::bulletproof::pow_vals;
use crate::field_sumcheck::{is_inverse, inverse_of, lemma_inverse_unique};
use crate::mle::{eq_at, eqf, lemma_eq_at_last, seq_mod, mle};
use crate::sums::{lemma_ssum_single, ssum, exp2, lemma_exp2_pos, lemma_exp2_adds, lemma_ssum_add, lemma_ssum_mod, lemma_ssum_scale, lemma_ssum_split};

verus! {

/// Whether `x` has an inverse modulo `q`.
pub open spec fn invertible(x: int) -> bool {
    exists|y: int| #[trigger] is_inverse(x, y)
}


/// Twice the Lagrange combination with `2 i2 = m + 1`.
proof fn lemma_double_lagrange(s0: int, s1: int, s2: int, a: int, b: int, c: int, i2: int, m: int, mb: int)
    requires
        2 * i2 == m + 1,
        mb == -b,
    ensures
        2 * (s0 * (a * i2) + s1 * mb + s2 * (c * i2)) == m * (s0 * a + s2 * c) + s0 * a - 2 * s1 * b + s2 * c,
{
    assert(2 * (s0 * (a * i2)) == (s0 * a) * (2 * i2)) by (nonlinear_arith);
    assert(2 * (s2 * (c * i2)) == (s2 * c) * (2 * i2)) by (nonlinear_arith);
    assert((s0 * a) * (2 * i2) == (s0 * a) * (m + 1)) by (nonlinear_arith)
        requires
            2 * i2 == m + 1,
    ;
    assert((s2 * c) * (2 * i2) == (s2 * c) * (m + 1)) by (nonlinear_arith)
        requires
            2 * i2 == m + 1,
    ;
    assert(2 * s1 * b == 2 * (s1 * b)) by (nonlinear_arith);
    assert((s0 * a) * (m + 1) == m * (s0 * a) + s0 * a) by (nonlinear_arith);
    assert((s2 * c) * (m + 1) == m * (s2 * c) + s2 * c) by (nonlinear_arith);
    assert(s1 * mb == -(s1 * b)) by (nonlinear_arith)
        requires
            mb == -b,
    ;
    assert(m * (s0 * a) + m * (s2 * c) == m * (s0 * a + s2 * c)) by (nonlinear_arith);
}

/// Replacing values by their residues `v = m d + s` in a combination.
proof fn lemma_residue_shift(
    q0: int,
    q1: int,
    q2: int,
    s0: int,
    s1: int,
    s2: int,
    d0: int,
    d1: int,
    d2: int,
    a: int,
    b: int,
    c: int,
    m: int,
)
    requires
        q0 == m * d0 + s0,
        q1 == m * d1 + s1,
        q2 == m * d2 + s2,
    ensures
        s0 * a - 2 * s1 * b + s2 * c == (q0 * a - 2 * q1 * b + q2 * c) - m * (d0 * a - 2 * d1 * b + d2 * c),
{
    assert(q0 * a == m * (d0 * a) + s0 * a) by (nonlinear_arith)
        requires
            q0 == m * d0 + s0,
    ;
    assert(q1 * b == m * (d1 * b) + s1 * b) by (nonlinear_arith)
        requires
            q1 == m * d1 + s1,
    ;
    assert(q2 * c == m * (d2 * c) + s2 * c) by (nonlinear_arith)
        requires
            q2 == m * d2 + s2,
    ;
    assert(m * (d0 * a) - 2 * (m * (d1 * b)) + m * (d2 * c) == m * (d0 * a - 2 * d1 * b + d2 * c)) by (nonlinear_arith);
    assert(2 * q1 * b == 2 * (q1 * b)) by (nonlinear_arith);
    assert(2 * s1 * b == 2 * (s1 * b)) by (nonlinear_arith);
}

/// The quadratic `c0 + c1 u + c2 u^2`, read back at `r` from its residues at
/// `0, 1, 2`, is its value at `r` modulo `q`.
proof fn lemma_eval_triple_quad(c0: int, c1: int, c2: int, r: int)
    ensures
        eval_triple(c0 % q(), (c0 + c1 + c2) % q(), (c0 + 2 * c1 + 4 * c2) % q(), r) == (c0 + c1 * r + c2 * r * r) % q(),
{
    let qq = q();
    let q0 = c0;
    let q1 = c0 + c1 + c2;
    let q2 = c0 + 2 * c1 + 4 * c2;
    let s0 = q0 % qq;
    let s1 = q1 % qq;
    let s2 = q2 % qq;
    let d0 = q0 / qq;
    let d1 = q1 / qq;
    let d2 = q2 / qq;
    lemma_fundamental_div_mod(q0, qq);
    lemma_fundamental_div_mod(q1, qq);
    lemma_fundamental_div_mod(q2, qq);
    let i2 = inv2();
    assert(2 * i2 == qq + 1);
    let a = (r - 1) * (r - 2);
    let b = r * (r - 2);
    let c = r * (r - 1);
    assert((2 - r) * r == -b) by (nonlinear_arith)
        requires
            b == r * (r - 2),
    ;
    lemma_quad_interp(c0, c1, c2, r);
    assert(c0 + c1 * 0 + c2 * 0 * 0 == q0);
    assert(c0 + c1 * 1 + c2 * 1 * 1 == q1);
    assert(c0 + c1 * 2 + c2 * 2 * 2 == q2);
    let ff = c0 + c1 * r + c2 * r * r;
    assert(q0 * a - 2 * q1 * b + q2 * c == 2 * ff);
    let c2r = (r - 1) * r;
    assert(c2r == c) by (nonlinear_arith)
        requires
            c2r == (r - 1) * r,
            c == r * (r - 1),
    ;
    let x = s0 * (a * i2) + s1 * ((2 - r) * r) + s2 * (c2r * i2);
    lemma_double_lagrange(s0, s1, s2, a, b, c, i2, qq, (2 - r) * r);
    lemma_residue_shift(q0, q1, q2, s0, s1, s2, d0, d1, d2, a, b, c, qq);
    let k = s0 * a + s2 * c - (d0 * a - 2 * d1 * b + d2 * c);
    assert(2 * (x - ff) == qq * k) by (nonlinear_arith)
        requires
            2 * x == qq * (s0 * a + s2 * c) + s0 * a - 2 * s1 * b + s2 * c,
            s0 * a - 2 * s1 * b + s2 * c == (q0 * a - 2 * q1 * b + q2 * c) - qq * (d0 * a - 2 * d1 * b + d2 * c),
            q0 * a - 2 * q1 * b + q2 * c == 2 * ff,
            k == s0 * a + s2 * c - (d0 * a - 2 * d1 * b + d2 * c),
    ;
    lemma_halve_congruence(x, ff, k);
    assert(eval_triple(s0, s1, s2, r) == x % qq);
}

/// A product of two invertible values is invertible, with the product of
/// the inverses as its inverse.
proof fn lemma_inverse_mul(x: int, y: int)
    requires
        exists|u: int| #[trigger] is_inverse(x, u),
        exists|v: int| #[trigger] is_inverse(y, v),
    ensures
        exists|w: int| #[trigger] is_inverse(x * y, w),
        inverse_of(x * y) == (inverse_of(x) * inverse_of(y)) % q(),
{
    let u = inverse_of(x);
    let v = inverse_of(y);
    assert(is_inverse(x, u));
    assert(is_inverse(y, v));
    let w = (u * v) % q();
    assert((x * y) * (u * v) == (x * u) * (y * v)) by (nonlinear_arith);
    lemma_mul_mod_noop_right(x * y, u * v, q());
    lemma_mul_mod_noop(x * u, y * v, q());
    lemma_small_mod(1, q() as nat);
    assert(((x * y) * w) % q() == 1);
    lemma_inverse_unique(x * y, w);
    assert(is_inverse(x * y, w));
}

/// The product `Π e(alpha_k, rho_k)` over the first `n` points ignores what
/// follows them.
proof fn lemma_eprod_prefix(alpha: Seq<int>, rho: Seq<int>, x: int, n: nat)
    requires
        n <= rho.len(),
    ensures
        eprod(alpha, rho.push(x), n) == eprod(alpha, rho, n),
    decreases n,
{
    if n > 0 {
        lemma_eprod_prefix(alpha, rho, x, (n - 1) as nat);
        assert(rho.push(x)[n - 1] == rho[n - 1]);
    }
}

/// `eq` at a point with one more coordinate `y`, on the half of the cube
/// where the new bit is `t`.
proof fn lemma_eq_push(x: Seq<int>, y: int, b: int, t: int)
    requires
        0 <= b < exp2(x.len()),
        t == 0 || t == 1,
    ensures
        eq_at(x.push(y), b + t * exp2(x.len())) == eq_at(x, b) * eqf(y, t == 1),
{
    let p = exp2(x.len()) as int;
    let z = x.push(y);
    lemma_exp2_pos(x.len());
    lemma_eq_at_last(z, b + t * p);
    assert(z.drop_last() =~= x);
    assert(b + t * p == t * p + b);
    lemma_fundamental_div_mod_converse(b + t * p, p, t, b);
    lemma_small_mod(t as nat, 2);
}

/// `e(a, u) = (1 - a) + (2a - 1) u`.
proof fn lemma_efac_line(a: int, u: int)
    ensures
        efac(a, u) == (1 - a) + (2 * a - 1) * u,
{
    assert(u * a + (1 - u) * (1 - a) == (1 - a) + (2 * a - 1) * u) by (nonlinear_arith);
}

/// The honest round polynomial is the quadratic with the coefficients below.
proof fn lemma_round_quadratic(h0: int, h1: int, i0: int, i1: int, pp: int, a: int, u: int)
    ensures
        ({
            let a0 = h0 * i0 * pp;
            let a1 = h1 * i1 * pp;
            let al = 1 - a;
            let be = 2 * a - 1;
            h0 * ((1 - u) * i0 * (efac(a, u) * pp)) + h1 * (u * i1 * (efac(a, u) * pp)) == a0 * al + (a0 * (be - al) + a1
                * al) * u + (be * (a1 - a0)) * u * u
        }),
{
    let a0 = h0 * i0 * pp;
    let a1 = h1 * i1 * pp;
    let al = 1 - a;
    let be = 2 * a - 1;
    let e = efac(a, u);
    lemma_efac_line(a, u);
    assert(h0 * ((1 - u) * i0 * (e * pp)) == a0 * ((1 - u) * e)) by (nonlinear_arith)
        requires
            a0 == h0 * i0 * pp,
    ;
    assert(h1 * (u * i1 * (e * pp)) == a1 * (u * e)) by (nonlinear_arith)
        requires
            a1 == h1 * i1 * pp,
    ;
    assert((1 - u) * e == al + (be - al) * u - be * u * u) by (nonlinear_arith)
        requires
            e == al + be * u,
    ;
    assert(u * e == al * u + be * u * u) by (nonlinear_arith)
        requires
            e == al + be * u,
    ;
    let uu = u * u;
    let t1 = (be - al) * u;
    let t2 = be * u * u;
    assert(a0 * (al + t1 - t2) == a0 * al + a0 * t1 - a0 * t2) by (nonlinear_arith);
    assert(a0 * t1 == (a0 * (be - al)) * u) by (nonlinear_arith)
        requires
            t1 == (be - al) * u,
    ;
    assert(a0 * t2 == (a0 * be) * uu) by (nonlinear_arith)
        requires
            t2 == be * u * u,
            uu == u * u,
    ;
    assert(a1 * (al * u + be * u * u) == (a1 * al) * u + (a1 * be) * uu) by (nonlinear_arith)
        requires
            uu == u * u,
    ;
    assert((a0 * (be - al) + a1 * al) * u == (a0 * (be - al)) * u + (a1 * al) * u) by (nonlinear_arith);
    assert((be * (a1 - a0)) * u * u == (a1 * be) * uu - (a0 * be) * uu) by (nonlinear_arith)
        requires
            uu == u * u,
    ;
}

/// One weighted term of the next round, moved back to this round's weight.
proof fn lemma_weight_term(t: int, rr: int, ie: int, x: int, ia: int, yred: int)
    requires
        yred == (ie * ia) % q(),
    ensures
        (t * ((rr * x) * yred)) % q() == ((x * ia) * (t * (rr * ie))) % q(),
{
    assert(t * ((rr * x) * yred) == (t * (rr * x)) * yred) by (nonlinear_arith);
    lemma_mul_mod_noop_right(t * (rr * x), ie * ia, q());
    assert((t * (rr * x)) * (ie * ia) == (x * ia) * (t * (rr * ie))) by (nonlinear_arith);
}

/// A value times a factor congruent to one.
proof fn lemma_times_unit(h: int, pp: int, i: int, z: int, s: int)
    requires
        (z * i) % q() == 1,
        s == h * pp * (i * z),
    ensures
        s % q() == (h * pp) % q(),
{
    assert(i * z == z * i) by (nonlinear_arith);
    assert(s == (h * pp) * (i * z)) by (nonlinear_arith)
        requires
            s == h * pp * (i * z),
    ;
    lemma_mul_mod_noop_right(h * pp, i * z, q());
    assert((h * pp) * 1 == h * pp);
}

/// One round of the honest group sum-check hands the next its claim: with
/// `tn` the table of the next round and `tn` with its last variable summed
/// out the table of this one, the next round's values at `0` and `1` add up
/// to this round's polynomial, read back from its values at `0, 1, 2`, at
/// the challenge `r`.
proof fn lemma_round_step(tn: Seq<int>, av: Seq<int>, rho: Seq<int>, r: int)
    requires
        tn.len() == exp2(rho.len() + 2),
        rho.len() + 1 < av.len(),
        invertible(1 - av[rho.len() as int]),
        invertible(av[rho.len() as int]),
        invertible(1 - av[rho.len() + 1int]),
        invertible(av[rho.len() + 1int]),
        forall|b: int| 0 <= b < exp2(rho.len()) ==> #[trigger] invertible(eq_at(av.take(rho.len() as int), b)),
    ensures
        ({
            let tc = seq_mod(sum_top(tn), q());
            let rho2 = rho.push(r);
            (gi_value(tn, av, rho2, 0) + gi_value(tn, av, rho2, 1)) % q() == eval_triple(
                gi_value(tc, av, rho, 0),
                gi_value(tc, av, rho, 1),
                gi_value(tc, av, rho, 2),
                r,
            )
        }),
{
    let j = rho.len();
    let p = exp2(j) as int;
    let p2 = exp2(j + 1) as int;
    lemma_exp2_pos(j);
    assert(exp2(j + 1) == 2 * exp2(j));
    assert(exp2(j + 2) == 2 * exp2(j + 1));
    let tc = seq_mod(sum_top(tn), q());
    assert(tc.len() == p2);
    let rho2 = rho.push(r);
    let a = av[j as int];
    let a2 = av[j + 1int];
    let i0 = inverse_of(1 - a);
    let i1 = inverse_of(a);
    let j0 = inverse_of(1 - a2);
    let j1 = inverse_of(a2);
    assert(is_inverse(1 - a, i0));
    assert(is_inverse(a, i1));
    assert(is_inverse(1 - a2, j0));
    assert(is_inverse(a2, j1));
    let pp = eprod(av, rho, j);
    let h0 = gi_half(tc, av, rho, 0);
    let h1 = gi_half(tc, av, rho, p);
    // this round as a quadratic in its variable
    let a0 = h0 * i0 * pp;
    let a1 = h1 * i1 * pp;
    let al = 1 - a;
    let be = 2 * a - 1;
    let c0 = a0 * al;
    let c1 = a0 * (be - al) + a1 * al;
    let c2 = be * (a1 - a0);
    lemma_round_quadratic(h0, h1, i0, i1, pp, a, 0);
    lemma_round_quadratic(h0, h1, i0, i1, pp, a, 1);
    lemma_round_quadratic(h0, h1, i0, i1, pp, a, 2);
    lemma_round_quadratic(h0, h1, i0, i1, pp, a, r);
    assert(gi_value(tc, av, rho, 0) == c0 % q());
    assert(gi_value(tc, av, rho, 1) == (c0 + c1 + c2) % q());
    assert(gi_value(tc, av, rho, 2) == (c0 + 2 * c1 + 4 * c2) % q());
    lemma_eval_triple_quad(c0, c1, c2, r);
    let ea = efac(a, r);
    let gr = h0 * ((1 - r) * i0 * (ea * pp)) + h1 * (r * i1 * (ea * pp));
    assert(gr == c0 + c1 * r + c2 * r * r);
    // the next round's values at 0 and 1
    let pp2 = eprod(av, rho2, j + 1);
    lemma_eprod_prefix(av, rho, r, j);
    assert(rho2[j as int] == r);
    assert(pp2 == pp * ea);
    let k0 = gi_half(tn, av, rho2, 0);
    let k1 = gi_half(tn, av, rho2, p2);
    assert(rho2.len() == j + 1);
    assert(efac(a2, 0) == 1 - a2);
    assert(efac(a2, 1) == a2);
    let gv0 = gi_value(tn, av, rho2, 0);
    let gv1 = gi_value(tn, av, rho2, 1);
    let s0 = k0 * ((1 - 0) * j0 * (efac(a2, 0) * pp2)) + k1 * (0 * j1 * (efac(a2, 0) * pp2));
    let s1 = k0 * ((1 - 1) * j0 * (efac(a2, 1) * pp2)) + k1 * (1 * j1 * (efac(a2, 1) * pp2));
    assert(gv0 == s0 % q());
    assert(gv1 == s1 % q());
    assert(s0 == k0 * pp2 * (j0 * (1 - a2))) by (nonlinear_arith)
        requires
            s0 == k0 * ((1 - 0) * j0 * (efac(a2, 0) * pp2)) + k1 * (0 * j1 * (efac(a2, 0) * pp2)),
            efac(a2, 0) == 1 - a2,
    ;
    assert(s1 == k1 * pp2 * (j1 * a2)) by (nonlinear_arith)
        requires
            s1 == k0 * ((1 - 1) * j0 * (efac(a2, 1) * pp2)) + k1 * (1 * j1 * (efac(a2, 1) * pp2)),
            efac(a2, 1) == a2,
    ;
    lemma_times_unit(k0, pp2, j0, 1 - a2, s0);
    lemma_times_unit(k1, pp2, j1, a2, s1);
    lemma_add_mod_noop(s0, s1, q());
    lemma_add_mod_noop(k0 * pp2, k1 * pp2, q());
    assert(k0 * pp2 + k1 * pp2 == (k0 + k1) * pp2) by (nonlinear_arith);
    assert((gv0 + gv1) % q() == ((k0 + k1) * pp2) % q());
    // the next round's halves add up to this round's table, reweighted
    let sseq = Seq::new(p2 as nat, |b: int| tc[b] * gi_weight(av, rho2, b));
    let z0 = Seq::new(p2 as nat, |b: int| tn[0 + b] * gi_weight(av, rho2, b));
    let z1 = Seq::new(p2 as nat, |b: int| tn[p2 + b] * gi_weight(av, rho2, b));
    let zz = Seq::new(p2 as nat, |b: int| (tn[b] + tn[b + p2]) * gi_weight(av, rho2, b));
    assert(z0 =~= Seq::new(exp2(rho2.len()), |b: int| tn[0 + b] * gi_weight(av, rho2, b)));
    assert(z1 =~= Seq::new(exp2(rho2.len()), |b: int| tn[p2 + b] * gi_weight(av, rho2, b)));
    assert forall|b: int| 0 <= b < p2 implies #[trigger] zz[b] == z0[b] + z1[b] by {
        let wt = gi_weight(av, rho2, b);
        assert((tn[b] + tn[b + p2]) * wt == tn[b] * wt + tn[p2 + b] * wt) by (nonlinear_arith);
    }
    lemma_ssum_add(zz, z0, z1);
    assert(tn.len() / 2 == p2);
    assert forall|b: int| 0 <= b < p2 implies #[trigger] sseq[b] % q() == zz[b] % q() by {
        assert(tc[b] == (tn[b] + tn[b + p2]) % q());
        lemma_mul_mod_noop_left(tn[b] + tn[b + p2], gi_weight(av, rho2, b), q());
    }
    lemma_ssum_mod(sseq, zz, q());
    // splitting the reweighted sum by the new bit
    lemma_ssum_split(sseq, p);
    let lo = Seq::new(p as nat, |b: int| ((1 - r) * i0) * (tc[0 + b] * gi_weight(av, rho, b)));
    let hi = Seq::new(p as nat, |b: int| (r * i1) * (tc[p + b] * gi_weight(av, rho, b)));
    let x0 = Seq::new(p as nat, |b: int| tc[0 + b] * gi_weight(av, rho, b));
    let x1 = Seq::new(p as nat, |b: int| tc[p + b] * gi_weight(av, rho, b));
    assert(x0 =~= Seq::new(exp2(rho.len()), |b: int| tc[0 + b] * gi_weight(av, rho, b)));
    assert(x1 =~= Seq::new(exp2(rho.len()), |b: int| tc[p + b] * gi_weight(av, rho, b)));
    lemma_ssum_scale(lo, x0, (1 - r) * i0);
    lemma_ssum_scale(hi, x1, r * i1);
    let avj = av.take(j as int);
    assert(av.take(j + 1int) =~= avj.push(a));
    assert(avj.len() == j);
    assert forall|b: int| 0 <= b < p implies #[trigger] sseq.take(p)[b] % q() == lo[b] % q() by {
        let ee = eq_at(avj, b);
        assert(invertible(ee));
        lemma_inverse_mul(ee, 1 - a);
        lemma_eq_push(rho, r, b, 0);
        lemma_eq_push(avj, a, b, 0);
        assert(gi_weight(av, rho2, b) == (eq_at(rho, b) * (1 - r)) * ((inverse_of(ee) * i0) % q()));
        lemma_weight_term(tc[b], eq_at(rho, b), inverse_of(ee), 1 - r, i0, (inverse_of(ee) * i0) % q());
    }
    assert forall|b: int| 0 <= b < p implies #[trigger] sseq.skip(p)[b] % q() == hi[b] % q() by {
        let ee = eq_at(avj, b);
        assert(invertible(ee));
        lemma_inverse_mul(ee, a);
        lemma_eq_push(rho, r, b, 1);
        lemma_eq_push(avj, a, b, 1);
        assert(sseq.skip(p)[b] == tc[p + b] * gi_weight(av, rho2, p + b));
        assert(gi_weight(av, rho2, p + b) == (eq_at(rho, b) * r) * ((inverse_of(ee) * i1) % q()));
        lemma_weight_term(tc[p + b], eq_at(rho, b), inverse_of(ee), r, i1, (inverse_of(ee) * i1) % q());
    }
    lemma_ssum_mod(sseq.take(p), lo, q());
    lemma_ssum_mod(sseq.skip(p), hi, q());
    let hs = ((1 - r) * i0) * h0 + (r * i1) * h1;
    lemma_add_mod_noop(ssum(sseq.take(p)), ssum(sseq.skip(p)), q());
    lemma_add_mod_noop(ssum(lo), ssum(hi), q());
    assert(ssum(sseq) % q() == hs % q());
    assert(ssum(zz) % q() == hs % q());
    lemma_mul_mod_noop_left(k0 + k1, pp2, q());
    lemma_mul_mod_noop_left(hs, pp2, q());
    assert(((k0 + k1) * pp2) % q() == (hs * pp2) % q());
    assert(hs * pp2 == gr) by (nonlinear_arith)
        requires
            hs == ((1 - r) * i0) * h0 + (r * i1) * h1,
            pp2 == pp * ea,
            gr == h0 * ((1 - r) * i0 * (ea * pp)) + h1 * (r * i1 * (ea * pp)),
    ;
}

/// Whether the inverses that the honest rounds divide by exist: those of
/// `alpha_i` and `1 - alpha_i`, and of every entry of the table of
/// `eq(alpha_{<i}, ·)`, for `i < l`. (All of them exist when `q` is prime and
/// none of these values is zero modulo `q`.)
pub open spec fn round_inverses_exist(av: Seq<int>, l: nat) -> bool {
    &&& forall|i: int| 0 <= i < l ==> #[trigger] invertible(av[i]) && invertible(1 - av[i])
    &&& forall|i: int, b: int| 0 <= i < l && 0 <= b < exp2(i as nat) ==> #[trigger] invertible(eq_at(av.take(i), b))
}

/// The rounds after the first pass the verifier's check when the round
/// messages are the honest ones for the table `slv` of `S_l`: round `j`
/// from `slv` with its last `l - j - 1` variables summed out and the
/// challenges drawn before it.
proof fn lemma_later_rounds_pass(slv: Seq<int>, av: Seq<int>, l: nat, init: Seq<TranscriptEntry>, tr: Seq<[Pt; 3]>, sigma: int)
    requires
        slv.len() == exp2(l),
        1 <= l < av.len(),
        tr.len() >= l,
        round_inverses_exist(av, l),
        forall|j: int, u: int|
            0 <= j < l && 0 <= u < 3 ==> #[trigger] tr[j][u].log() == gi_value(
                sum_top_times(slv, (l - j - 1) as nat),
                av,
                Seq::new(l, |k: int| gp_r(init, tr, k as nat)).take(j),
                u,
            ),
    ensures
        forall|j: int| 1 <= j < l ==> #[trigger] sg_round_ok(init, tr, sigma, j),
{
    let rv = Seq::new(l, |k: int| gp_r(init, tr, k as nat));
    assert forall|j: int| 1 <= j < l implies #[trigger] sg_round_ok(init, tr, sigma, j) by {
        let tn = sum_top_times(slv, (l - j - 1) as nat);
        let rho = rv.take(j - 1);
        let r = rv[j - 1];
        lemma_sum_top_times_total(slv, l, (l - j - 1) as nat);
        assert((l - (l - j - 1)) as nat == (j - 1) + 2);
        assert(((l - j) as nat - 1) as nat == (l - j - 1) as nat);
        assert(sum_top_times(slv, (l - j) as nat) == seq_mod(sum_top(tn), q()));
        assert(rho.len() == j - 1);
        assert(invertible(av[j - 1]));
        assert(invertible(av[j]));
        assert(rho.len() as int == j - 1);
        assert forall|b: int| 0 <= b < exp2(rho.len()) implies #[trigger] invertible(eq_at(av.take(rho.len() as int), b)) by {
            assert(invertible(eq_at(av.take(j - 1), b)));
        }
        lemma_round_step(tn, av, rho, r);
        assert(rho.push(r) =~= rv.take(j));
        assert(r == gp_r(init, tr, (j - 1) as nat));
        assert forall|u: int| 0 <= u < 3 implies #[trigger] tr[j - 1][u].log() == gi_value(
            seq_mod(sum_top(tn), q()),
            av,
            rho,
            u,
        ) by {
            assert(((l - (j - 1) - 1) as nat) == (l - j) as nat);
        }
        assert(tr[j - 1][0].log() == gi_value(seq_mod(sum_top(tn), q()), av, rho, 0));
        assert(tr[j - 1][1].log() == gi_value(seq_mod(sum_top(tn), q()), av, rho, 1));
        assert(tr[j - 1][2].log() == gi_value(seq_mod(sum_top(tn), q()), av, rho, 2));
        assert(tr[j][0].log() == gi_value(tn, av, rho.push(r), 0));
        assert(tr[j][1].log() == gi_value(tn, av, rho.push(r), 1));
    }
}

/// Completeness of the rounds of the group sum-check: on what the prover
/// sends for a polynomial `f` with `sigma = f(alpha)`, every round passes the
/// verifier's check `g_j(0) + g_j(1) = claim`, the claim being `sigma` for
/// the first round and the previous round polynomial at the previous
/// challenge after that.
pub proof fn law_group_prove_rounds_pass(
    m: usize,
    l: usize,
    domain_len: int,
    commitment: Seq<u8>,
    alpha: Seq<Fr>,
    sigma: Pt,
    num_queries: usize,
    f: Seq<int>,
    log0: Seq<TranscriptEntry>,
    r: SumCheckGroupRounds,
    log1: Seq<TranscriptEntry>,
)
    requires
        1 <= l < m,
        alpha.len() == m,
        f.len() == exp2(m as nat),
        sigma.log() == mle(f, lvals(alpha)) % q(),
        round_inverses_exist(lvals(alpha), l as nat),
        sg_prove_post(m, l, domain_len, commitment, alpha, sigma, num_queries, f, log0, r, log1),
    ensures
        forall|j: int|
            0 <= j < l ==> #[trigger] sg_round_ok(
                sg_init_log(log0, m, l, commitment, alpha, sigma),
                r.round_messages@,
                sigma.log(),
                j,
            ),
{
    let init = sg_init_log(log0, m, l, commitment, alpha, sigma);
    let tr = r.round_messages@;
    let av = lvals(alpha);
    let rv = lvals(r.r_vec@);
    let slv = seq_mod(sl_table(f, av, l as nat), q());
    let gr = Seq::new(l as nat, |k: int| gp_r(init, tr, k as nat));
    assert(rv =~= gr);
    assert(slv.len() == exp2(l as nat));
    lemma_later_rounds_pass(slv, av, l as nat, init, tr, sigma.log());
    assert(invertible(av[0]));
    law_group_first_round_sums_to_claim(f, av, l as nat);
    assert(rv.take(0) =~= Seq::<int>::empty());
    assert(tr[0][0].log() == gi_value(sum_top_times(slv, (l - 1) as nat), av, Seq::<int>::empty(), 0));
    assert(tr[0][1].log() == gi_value(sum_top_times(slv, (l - 1) as nat), av, Seq::<int>::empty(), 1));
    assert(sg_round_ok(init, tr, sigma.log(), 0));
}

/// Completeness of the rounds of the batched group sum-check: on what the
/// prover sends for polynomials `f_i` with `sigma_i = f_i(alpha)`, every
/// round passes the verifier's check, the first against the batched claim
/// `Σ_i γ^i sigma_i` for the `gamma` drawn after the statement.
pub proof fn law_group_prove_batch_rounds_pass(
    m: usize,
    l: usize,
    domain_len: int,
    commitments: Seq<Seq<u8>>,
    alpha: Seq<Fr>,
    sigmas: Seq<Pt>,
    num_queries: usize,
    polys: Seq<MultilinearPoly<Pt>>,
    log0: Seq<TranscriptEntry>,
    rounds: SumCheckGroupRounds,
    g: int,
    log1: Seq<TranscriptEntry>,
)
    requires
        1 <= l < m,
        alpha.len() == m,
        sigmas.len() == polys.len(),
        forall|i: int| 0 <= i < polys.len() ==> (#[trigger] polys[i]).table().len() == exp2(m as nat),
        forall|i: int|
            0 <= i < polys.len() ==> (#[trigger] sigmas[i]).log() == mle(polys[i].table(), lvals(alpha)) % q(),
        round_inverses_exist(lvals(alpha), l as nat),
        sgb_prove_post(m, l, domain_len, commitments, alpha, sigmas, num_queries, polys, log0, rounds, g, log1),
    ensures
        ({
            let start = sgb_init_log(log0, m, l, commitments, alpha, sigmas).push(TranscriptEntry::Challenge("gamma"@, 64));
            let sigma = ssum(sg_eterms(lvals(sigmas), g, sigmas.len())) % q();
            forall|j: int| 0 <= j < l ==> #[trigger] sg_round_ok(start, rounds.round_messages@, sigma, j)
        }),
{
    let start = sgb_init_log(log0, m, l, commitments, alpha, sigmas).push(TranscriptEntry::Challenge("gamma"@, 64));
    let sigma = ssum(sg_eterms(lvals(sigmas), g, sigmas.len())) % q();
    let tr = rounds.round_messages@;
    let av = lvals(alpha);
    let rv = lvals(rounds.r_vec@);
    let k = polys.len();
    let slv = sg_comb(sgb_sl_tables(polys, av, l as nat), g, exp2(l as nat));
    let gr = Seq::new(l as nat, |t: int| gp_r(start, tr, t as nat));
    assert(rv =~= gr);
    lemma_later_rounds_pass(slv, av, l as nat, start, tr, sigma);
    // the first round
    let fs = Seq::new(k, |i: int| polys[i].table());
    assert(invertible(av[0]));
    law_group_batch_first_round_sums_to_claim(fs, av, l as nat, g);
    let tabs = Seq::new(fs.len(), |i: int| seq_mod(sl_table(fs[i], av, l as nat), q()));
    assert(tabs =~= sgb_sl_tables(polys, av, l as nat));
    assert(rv.take(0) =~= Seq::<int>::empty());
    assert(tr[0][0].log() == gi_value(sum_top_times(slv, (l - 1) as nat), av, Seq::<int>::empty(), 0));
    assert(tr[0][1].log() == gi_value(sum_top_times(slv, (l - 1) as nat), av, Seq::<int>::empty(), 1));
    // the batched claim is the combination of the values
    let vals = Seq::new(fs.len(), |i: int| mle(fs[i], av));
    let et = sg_eterms(lvals(sigmas), g, sigmas.len());
    let gt = Seq::new(vals.len(), |i: int| pow(g, i as nat) * vals[i]);
    assert forall|i: int| 0 <= i < et.len() implies #[trigger] et[i] % q() == gt[i] % q() by {
        let pw = pow(g, i as nat);
        assert(lvals(sigmas)[i] == sigmas[i].log());
        assert(sigmas[i].log() == mle(fs[i], av) % q());
        lemma_mul_mod_noop_left(mle(fs[i], av), pw, q());
        assert(mle(fs[i], av) * pw == pw * mle(fs[i], av)) by (nonlinear_arith);
    }
    lemma_ssum_mod(et, gt, q());
    assert(gamma_sum(vals, g) == ssum(gt));
    lemma_mod_twice(ssum(et), q());
    assert(sg_round_ok(start, tr, sigma, 0));
}

/// The inner product with the reduced table of `eq(x, ·)` is the value at
/// `x`, modulo `q`.
pub(crate) proof fn lemma_dot_mle(a: Seq<int>, x: Seq<int>)
    requires
        a.len() == exp2(x.len()),
    ensures
        dot(a, seq_mod(eq_table(x), q())) % q() == mle(a, x) % q(),
{
    let t = seq_mod(eq_table(x), q());
    let d = Seq::new(min_len(a.len() as int, t.len() as int) as nat, |i: int| a[i] * t[i]);
    let mm = Seq::new(exp2(x.len()), |b: int| a[b] * eq_at(x, b));
    assert forall|i: int| 0 <= i < d.len() implies #[trigger] d[i] % q() == mm[i] % q() by {
        lemma_mul_mod_noop_right(a[i], eq_at(x, i), q());
    }
    lemma_ssum_mod(d, mm, q());
}

/// A leaf of the coset commitment, read at the round challenges, agrees with
/// the restricted polynomial read at the leaf's point: both are `f` at the
/// challenges followed by the powers of the point.
proof fn lemma_leaf_consistent(f: Seq<int>, rv: Seq<int>, yp: Seq<int>)
    requires
        f.len() == exp2(rv.len() + yp.len()),
    ensures
        dot(seq_mod(restrict_lo(f, rv, yp.len()), q()), seq_mod(eq_table(yp), q())) % q() == dot(
            seq_mod(restrict_hi(f, yp, rv.len()), q()),
            seq_mod(eq_table(rv), q()),
        ) % q(),
{
    let a = restrict_lo(f, rv, yp.len());
    let c = restrict_hi(f, yp, rv.len());
    lemma_dot_mle(seq_mod(a, q()), yp);
    lemma_dot_mle(seq_mod(c, q()), rv);
    assert forall|i: int| 0 <= i < a.len() implies #[trigger] seq_mod(a, q())[i] % q() == a[i] % q() by {
        lemma_mod_twice(a[i], q());
    }
    assert forall|i: int| 0 <= i < c.len() implies #[trigger] seq_mod(c, q())[i] % q() == c[i] % q() by {
        lemma_mod_twice(c[i], q());
    }
    lemma_mle_mod(seq_mod(a, q()), a, yp, q());
    lemma_mle_mod(seq_mod(c, q()), c, rv, q());
    lemma_mle_restrict_lo(f, rv, yp);
    lemma_mle_restrict_hi(f, rv, yp);
}

/// The check of the restricted polynomial passes when each evaluation
/// agrees modulo `q` with `g` read at the powers of its point:
/// `⟨g, Σ_i γ^i ytab(y_i)⟩ = Σ_i γ^i evals[i]` modulo `q`.
proof fn lemma_poly_check_core(g: Seq<Pt>, domain: Seq<Fr>, idxs: Seq<usize>, evals: Seq<int>, gamma: int, w: nat)
    requires
        g.len() == exp2(w),
        evals.len() == idxs.len(),
        forall|i: int| 0 <= i < idxs.len() ==> #[trigger] evals[i] % q() == dot(
            lvals(g),
            sg_ytab(domain[idxs[i] as int].val(), w),
        ) % q(),
    ensures
        sg_poly_ok(g, domain, idxs, evals, gamma, w),
{
    let n = idxs.len();
    let gv = lvals(g);
    let nw = exp2(w);
    assert(gv.len() == nw);
    let ysum = Seq::new(nw, |idx: int| ssum(sg_yterms(domain, idxs, gamma, w, idx, n)) % q());
    let mm = Seq::new(nw, |idx: int| Seq::new(n, |i: int| gv[idx] * (sg_ytab(domain[idxs[i] as int].val(), w)[idx] * pow(gamma, i as nat))));
    let lhs = Seq::new(min_len(gv.len() as int, ysum.len() as int) as nat, |idx: int| gv[idx] * ysum[idx]);
    let rows = Seq::new(mm.len(), |idx: int| ssum(mm[idx]));
    assert forall|idx: int| 0 <= idx < nw implies #[trigger] lhs[idx] % q() == rows[idx] % q() by {
        let yt = sg_yterms(domain, idxs, gamma, w, idx, n);
        lemma_ssum_scale(mm[idx], yt, gv[idx]);
        lemma_mul_mod_noop_right(gv[idx], ssum(yt), q());
    }
    lemma_ssum_mod(lhs, rows, q());
    lemma_ssum_swap(mm, n as int);
    let cols = Seq::new(n, |i: int| ssum(Seq::new(mm.len(), |idx: int| mm[idx][i])));
    let et = sg_eterms(evals, gamma, n);
    assert forall|i: int| 0 <= i < n implies #[trigger] cols[i] % q() == et[i] % q() by {
        let y = domain[idxs[i] as int].val();
        let yt = sg_ytab(y, w);
        let pw = pow(gamma, i as nat);
        let col = Seq::new(mm.len(), |idx: int| mm[idx][i]);
        let dd = Seq::new(min_len(gv.len() as int, yt.len() as int) as nat, |idx: int| gv[idx] * yt[idx]);
        assert(pow_vals(y, w).len() == w);
        assert(yt.len() == nw);
        assert forall|idx: int| 0 <= idx < nw implies #[trigger] col[idx] == pw * dd[idx] by {
            assert(gv[idx] * (yt[idx] * pw) == pw * (gv[idx] * yt[idx])) by (nonlinear_arith);
        }
        lemma_ssum_scale(col, dd, pw);
        assert(dot(gv, yt) == ssum(dd));
        lemma_mul_mod_noop_right(pw, dot(gv, yt), q());
        lemma_mul_mod_noop_right(pw, evals[i], q());
        assert(evals[i] * pw == pw * evals[i]) by (nonlinear_arith);
    }
    lemma_ssum_mod(cols, et, q());
    assert(rows =~= Seq::new(mm.len(), |idx: int| ssum(mm[idx])));
    assert(dot(gv, ysum) == ssum(lhs));
}

/// The check of the restricted polynomial passes on honest leaves: for `g`
/// the table of `f` with its first variables fixed to `rv`, and evaluations
/// `evals[i]` the leaves at the points `y_i` read at `rv`,
/// `⟨g, Σ_i γ^i ytab(y_i)⟩ = Σ_i γ^i evals[i]` modulo `q`.
proof fn lemma_poly_check_passes(
    f: Seq<int>,
    rv: Seq<int>,
    w: nat,
    g: Seq<Pt>,
    domain: Seq<Fr>,
    idxs: Seq<usize>,
    evals: Seq<int>,
    gamma: int,
)
    requires
        f.len() == exp2(rv.len() + w),
        lvals(g) == seq_mod(restrict_lo(f, rv, w), q()),
        evals.len() == idxs.len(),
        forall|i: int| 0 <= i < idxs.len() ==> #[trigger] evals[i] == dot(
            seq_mod(restrict_hi(f, pow_vals(domain[idxs[i] as int].val(), w), rv.len()), q()),
            seq_mod(eq_table(rv), q()),
        ) % q(),
    ensures
        sg_poly_ok(g, domain, idxs, evals, gamma, w),
{
    assert forall|i: int| 0 <= i < idxs.len() implies #[trigger] evals[i] % q() == dot(
        lvals(g),
        sg_ytab(domain[idxs[i] as int].val(), w),
    ) % q() by {
        let y = domain[idxs[i] as int].val();
        assert(pow_vals(y, w).len() == w);
        lemma_leaf_consistent(f, rv, pow_vals(y, w));
        lemma_mod_twice(dot(seq_mod(restrict_hi(f, pow_vals(y, w), rv.len()), q()), seq_mod(eq_table(rv), q())), q());
    }
    assert(lvals(g).len() == g.len());
    assert(restrict_lo(f, rv, w).len() == exp2(w));
    lemma_poly_check_core(g, domain, idxs, evals, gamma, w);
}

/// The inner product of two concatenations, part by part.
pub(crate) proof fn lemma_dot_concat(a1: Seq<int>, a2: Seq<int>, b1: Seq<int>, b2: Seq<int>)
    requires
        a1.len() == b1.len(),
        a2.len() == b2.len(),
    ensures
        dot(a1 + a2, b1 + b2) == dot(a1, b1) + dot(a2, b2),
{
    let a = a1 + a2;
    let b = b1 + b2;
    let d = Seq::new(a.len(), |i: int| a[i] * b[i]);
    assert(d =~= Seq::new(min_len(a.len() as int, b.len() as int) as nat, |i: int| a[i] * b[i]));
    lemma_ssum_split(d, a1.len() as int);
    assert(d.take(a1.len() as int) =~= Seq::new(min_len(a1.len() as int, b1.len() as int) as nat, |i: int| a1[i] * b1[i]));
    assert(d.skip(a1.len() as int) =~= Seq::new(min_len(a2.len() as int, b2.len() as int) as nat, |i: int| a2[i] * b2[i]));
}

/// The batched check of the evaluations against the leaves, over the first
/// `n` leaves, when each evaluation is its leaf read with `e`.
proof fn lemma_eval_batch(leaves: Seq<Vec<Pt>>, evals: Seq<Pt>, e: Seq<int>, r: int, n: nat)
    requires
        n <= leaves.len(),
        leaves.len() == evals.len(),
        forall|t: int| 0 <= t < leaves.len() ==> (#[trigger] leaves[t])@.len() == e.len(),
        forall|t: int| 0 <= t < leaves.len() ==> (#[trigger] evals[t]).log() == dot(lvals(leaves[t]@), e) % q(),
    ensures
        sg_leaf_cat(leaves, n).len() == n * e.len(),
        sg_eq_cat(e, r, n).len() == n * e.len(),
        dot(sg_leaf_cat(leaves, n), sg_eq_cat(e, r, n)) % q() == ssum(
            Seq::new(n, |i: int| lvals(evals)[i] * (pow(r, i as nat) % q())),
        ) % q(),
    decreases n,
{
    let rs = Seq::new(n, |i: int| lvals(evals)[i] * (pow(r, i as nat) % q()));
    if n == 0 {
        assert(sg_leaf_cat(leaves, 0) =~= Seq::<int>::empty());
        assert(sg_eq_cat(e, r, 0) =~= Seq::<int>::empty());
        assert(rs =~= Seq::<int>::empty());
        assert(dot(Seq::<int>::empty(), Seq::<int>::empty()) == ssum(Seq::<int>::empty()));
    } else {
        let k = (n - 1) as nat;
        lemma_eval_batch(leaves, evals, e, r, k);
        let lv = lvals(leaves[k as int]@);
        let pw = pow(r, k);
        let en = Seq::new(e.len(), |j: int| (e[j] * pw) % q());
        assert(sg_leaf_cat(leaves, n) == sg_leaf_cat(leaves, k) + lv);
        assert(sg_eq_cat(e, r, n) == sg_eq_cat(e, r, k) + en);
        assert(k * e.len() + e.len() == n * e.len()) by (nonlinear_arith)
            requires
                k == n - 1,
        ;
        lemma_dot_concat(sg_leaf_cat(leaves, k), lv, sg_eq_cat(e, r, k), en);
        // the new leaf's part
        let d1 = Seq::new(min_len(lv.len() as int, en.len() as int) as nat, |j: int| lv[j] * en[j]);
        let d2 = Seq::new(lv.len(), |j: int| pw * (lv[j] * e[j]));
        let d3 = Seq::new(min_len(lv.len() as int, e.len() as int) as nat, |j: int| lv[j] * e[j]);
        assert forall|j: int| 0 <= j < d1.len() implies #[trigger] d1[j] % q() == d2[j] % q() by {
            lemma_mul_mod_noop_right(lv[j], e[j] * pw, q());
            assert(lv[j] * (e[j] * pw) == pw * (lv[j] * e[j])) by (nonlinear_arith);
        }
        lemma_ssum_mod(d1, d2, q());
        lemma_ssum_scale(d2, d3, pw);
        // the new term of the right-hand side
        let rk = Seq::new(k, |i: int| lvals(evals)[i] * (pow(r, i as nat) % q()));
        assert(rs.drop_last() =~= rk);
        let ev = dot(lv, e) % q();
        assert(lvals(evals)[k as int] == ev);
        lemma_mul_mod_noop_right(ev, pw, q());
        lemma_mul_mod_noop_left(dot(lv, e), pw, q());
        assert(dot(lv, e) * pw == pw * dot(lv, e)) by (nonlinear_arith);
        assert(rs.last() % q() == (pw * dot(lv, e)) % q());
        lemma_add_mod_noop(dot(sg_leaf_cat(leaves, k), sg_eq_cat(e, r, k)), dot(lv, en), q());
        lemma_add_mod_noop(ssum(rk), rs.last(), q());
    }
}

/// The batched check of the evaluations passes when each evaluation is its
/// leaf read with `e`, whatever the batching scalar `r`.
proof fn lemma_eval_check_passes(leaves: Seq<Vec<Pt>>, evals: Seq<Pt>, e: Seq<int>, r: int)
    requires
        leaves.len() == evals.len(),
        forall|t: int| 0 <= t < leaves.len() ==> (#[trigger] leaves[t])@.len() == e.len(),
        forall|t: int| 0 <= t < leaves.len() ==> (#[trigger] evals[t]).log() == dot(lvals(leaves[t]@), e) % q(),
    ensures
        sg_eval_ok(leaves, evals, e, r),
{
    lemma_eval_batch(leaves, evals, e, r, leaves.len());
    let n = evals.len();
    assert(Seq::new(min_len(lvals(evals).len() as int, sg_powers(r, n).len() as int) as nat, |i: int| lvals(evals)[i] * sg_powers(r, n)[i])
        =~= Seq::new(n, |i: int| lvals(evals)[i] * (pow(r, i as nat) % q())));
}

/// Completeness of the group sum-check: on the proof that the prover
/// produces for a polynomial `f` with `sigma = f(alpha)`, opened at one
/// position or more, the verifier's verdict is true for every pair of
/// batching scalars `r` and `gamma` when the authentication paths check out.
pub proof fn law_group_sumcheck_complete(
    m: usize,
    l: usize,
    domain: Seq<Fr>,
    commitment: Seq<u8>,
    alpha: Seq<Fr>,
    sigma: Pt,
    num_queries: usize,
    f: Seq<int>,
    log0: Seq<TranscriptEntry>,
    rounds: SumCheckGroupRounds,
    log1: Seq<TranscriptEntry>,
    p: SumCheckGroupProof,
    r: int,
    gamma: int,
)
    requires
        1 <= l < m,
        alpha.len() == m,
        f.len() == exp2(m as nat),
        num_queries > 0,
        sigma.log() == mle(f, lvals(alpha)) % q(),
        round_inverses_exist(lvals(alpha), l as nat),
        sg_prove_post(m, l, domain.len() as int, commitment, alpha, sigma, num_queries, f, log0, rounds, log1),
        p.round_messages@ == rounds.round_messages@,
        p.g_poly == rounds.g_poly,
        sg_openings_ok(domain, f, m as nat, l as nat, rounds, p),
    ensures
        sg_verdict(p, m, l, domain, num_queries, commitment, alpha, sigma, log0, true, r, gamma),
{
    let init = sg_init_log(log0, m, l, commitment, alpha, sigma);
    let tr = p.round_messages@;
    let rv = Seq::new(l as nat, |j: int| gp_r(init, tr, j as nat));
    assert(lvals(rounds.r_vec@) =~= rv);
    let w = (m - l) as nat;
    let e = seq_mod(eq_table(rv), q());
    let idx = p.leaf_indices@;
    // the rounds
    law_group_prove_rounds_pass(m, l, domain.len() as int, commitment, alpha, sigma, num_queries, f, log0, rounds, log1);
    // the shapes
    let qs = rounds.queries@;
    assert(qs.map_values(|y: usize| y as int).len() == num_queries);
    assert(qs.len() > 0);
    assert(idx.contains(qs[0]));
    assert forall|t: int| 0 <= t < idx.len() implies #[trigger] idx[t] < domain.len() by {
        assert(qs.contains(idx[t]));
        let k = choose|k: int| 0 <= k < qs.len() && qs[k] == idx[t];
        assert(qs[k] < domain.len());
    }
    assert(sg_shape_ok(p, m, l, domain.len() as int));
    lemma_positions_from_openings(idx, qs, qs.map_values(|y: usize| y as int));
    // the evaluations against the leaves
    assert(e.len() == exp2(l as nat));
    lemma_eval_check_passes(p.leaves@, p.evaluations@, e, r);
    // the restricted polynomial against the evaluations
    assert(exp2((l + w) as nat) == exp2(m as nat));
    assert forall|i: int| 0 <= i < idx.len() implies #[trigger] lvals(p.evaluations@)[i] == dot(
        seq_mod(restrict_hi(f, pow_vals(domain[idx[i] as int].val(), w), rv.len()), q()),
        seq_mod(eq_table(rv), q()),
    ) % q() by {
        assert(crate::pcs::coset_leaf_ok(f, l as nat, w, domain[idx[i] as int], p.leaves@[i]));
    }
    lemma_poly_check_passes(f, rv, w, p.g_poly.coeffs@, domain, idx, lvals(p.evaluations@), gamma);
}

/// The value of a `gamma`-combination of tables is the combination of
/// their values.
proof fn lemma_mle_comb(hs: Seq<Seq<int>>, gamma: int, x: Seq<int>)
    requires
        forall|i: int| 0 <= i < hs.len() ==> (#[trigger] hs[i]).len() == exp2(x.len()),
    ensures
        mle(Seq::new(exp2(x.len()), |b: int| ssum(sg_comb_terms(hs, gamma, b, hs.len()))), x) == ssum(
            Seq::new(hs.len(), |i: int| mle(hs[i], x) * pow(gamma, i as nat)),
        ),
{
    let n = exp2(x.len());
    let k = hs.len();
    let c = Seq::new(n, |b: int| ssum(sg_comb_terms(hs, gamma, b, k)));
    let mm = Seq::new(n, |b: int| Seq::new(k, |i: int| eq_at(x, b) * (hs[i][b] * pow(gamma, i as nat))));
    let rows = Seq::new(mm.len(), |b: int| ssum(mm[b]));
    assert forall|b: int| 0 <= b < n implies #[trigger] rows[b] == c[b] * eq_at(x, b) by {
        lemma_ssum_scale(mm[b], sg_comb_terms(hs, gamma, b, k), eq_at(x, b));
        assert(eq_at(x, b) * c[b] == c[b] * eq_at(x, b)) by (nonlinear_arith);
    }
    assert(Seq::new(n, |b: int| c[b] * eq_at(x, b)) =~= rows);
    lemma_ssum_swap(mm, k as int);
    let cols = Seq::new(k, |i: int| ssum(Seq::new(mm.len(), |b: int| mm[b][i])));
    let target = Seq::new(k, |i: int| mle(hs[i], x) * pow(gamma, i as nat));
    assert forall|i: int| 0 <= i < k implies #[trigger] cols[i] == target[i] by {
        let pw = pow(gamma, i as nat);
        let col = Seq::new(mm.len(), |b: int| mm[b][i]);
        let hv = Seq::new(n, |b: int| hs[i][b] * eq_at(x, b));
        assert forall|b: int| 0 <= b < n implies #[trigger] col[b] == pw * hv[b] by {
            assert(eq_at(x, b) * (hs[i][b] * pw) == pw * (hs[i][b] * eq_at(x, b))) by (nonlinear_arith);
        }
        lemma_ssum_scale(col, hv, pw);
        assert(mle(hs[i], x) == ssum(hv));
        assert(pw * ssum(hv) == ssum(hv) * pw) by (nonlinear_arith);
    }
    assert(cols =~= target);
}

/// A leaf of one of the batched polynomials, read at the round challenges,
/// is that polynomial at the challenges followed by the powers of the
/// leaf's point, modulo `q`.
pub(crate) proof fn lemma_leaf_value(f: Seq<int>, rv: Seq<int>, yp: Seq<int>, leaf: Seq<int>)
    requires
        f.len() == exp2(rv.len() + yp.len()),
        leaf == seq_mod(restrict_hi(f, yp, rv.len()), q()),
    ensures
        dot(leaf, seq_mod(eq_table(rv), q())) % q() == mle(f, rv + yp) % q(),
{
    let c = restrict_hi(f, yp, rv.len());
    lemma_dot_mle(leaf, rv);
    assert forall|i: int| 0 <= i < c.len() implies #[trigger] leaf[i] % q() == c[i] % q() by {
        lemma_mod_twice(c[i], q());
    }
    lemma_mle_mod(leaf, c, rv, q());
    lemma_mle_restrict_hi(f, rv, yp);
}

/// Completeness of the batched group sum-check: on the proof that the
/// batched prover produces for polynomials `f_i` with `sigma_i = f_i(alpha)`,
/// opened at one position or more, the verifier's verdict is true for every
/// choice of the batching scalars `rs` and `delta` when the authentication
/// paths check out.
pub proof fn law_group_batch_sumcheck_complete(
    m: usize,
    l: usize,
    domain: Seq<Fr>,
    commitments: Seq<Seq<u8>>,
    alpha: Seq<Fr>,
    sigmas: Seq<Pt>,
    num_queries: usize,
    polys: Seq<MultilinearPoly<Pt>>,
    log0: Seq<TranscriptEntry>,
    rounds: SumCheckGroupRounds,
    g: int,
    log1: Seq<TranscriptEntry>,
    p: SumCheckGroupBatchProof,
    rs: Seq<int>,
    delta: int,
)
    requires
        1 <= l < m,
        alpha.len() == m,
        polys.len() > 0,
        polys.len() == commitments.len(),
        polys.len() == sigmas.len(),
        forall|i: int| 0 <= i < polys.len() ==> (#[trigger] polys[i]).wf() && polys[i].num_vars == m,
        num_queries > 0,
        forall|i: int|
            0 <= i < polys.len() ==> (#[trigger] sigmas[i]).log() == mle(polys[i].table(), lvals(alpha)) % q(),
        round_inverses_exist(lvals(alpha), l as nat),
        sgb_prove_post(m, l, domain.len() as int, commitments, alpha, sigmas, num_queries, polys, log0, rounds, g, log1),
        p.round_messages@ == rounds.round_messages@,
        p.g_poly == rounds.g_poly,
        sgb_openings_ok(domain, polys, m as nat, l as nat, rounds, p),
    ensures
        sgb_verdict(p, m, l, domain, num_queries, commitments, alpha, sigmas, log0, true, rs, delta),
{
    let init = sgb_init_log(log0, m, l, commitments, alpha, sigmas);
    let start = init.push(TranscriptEntry::Challenge("gamma"@, 64));
    let tr = p.round_messages@;
    let rv = Seq::new(l as nat, |j: int| gp_r(start, tr, j as nat));
    assert(lvals(rounds.r_vec@) =~= rv);
    let w = (m - l) as nat;
    let e = seq_mod(eq_table(rv), q());
    let idx = p.leaf_indices@;
    let k = polys.len();
    assert forall|i: int| 0 <= i < k implies (#[trigger] polys[i]).table().len() == exp2(m as nat) by {
        assert(polys[i].wf());
    }
    // the rounds
    law_group_prove_batch_rounds_pass(m, l, domain.len() as int, commitments, alpha, sigmas, num_queries, polys, log0, rounds, g, log1);
    // the shapes
    let qs = rounds.queries@;
    assert(qs.map_values(|y: usize| y as int).len() == num_queries);
    assert(qs.len() > 0);
    assert(idx.contains(qs[0]));
    assert forall|t: int| 0 <= t < idx.len() implies #[trigger] idx[t] < domain.len() by {
        assert(qs.contains(idx[t]));
        let kk = choose|kk: int| 0 <= kk < qs.len() && qs[kk] == idx[t];
        assert(qs[kk] < domain.len());
    }
    assert forall|i: int, j: int| 0 <= i < k && 0 <= j < idx.len() implies (#[trigger] p.leaves@[i]@[j])@.len() == exp2(l as nat) by {
        assert(crate::pcs::coset_leaf_ok(polys[i].table(), l as nat, w, domain[idx[j] as int], p.leaves@[i]@[j]));
    }
    assert(sgb_shape_ok(p, m, l, commitments.len(), domain.len() as int));
    lemma_positions_from_openings(idx, qs, qs.map_values(|y: usize| y as int));
    // the evaluations against the leaves
    assert(e.len() == exp2(l as nat));
    assert forall|i: int| 0 <= i < commitments.len() implies #[trigger] sg_eval_ok(
        p.leaves@[i]@,
        p.evaluations@[i]@,
        e,
        rs[i],
    ) by {
        assert forall|t: int| 0 <= t < p.leaves@[i]@.len() implies (#[trigger] p.leaves@[i]@[t])@.len() == e.len() by {
            assert(p.leaves@[i]@[t]@.len() == exp2(l as nat));
        }
        assert forall|t: int| 0 <= t < p.leaves@[i]@.len() implies (#[trigger] p.evaluations@[i]@[t]).log() == dot(
            lvals(p.leaves@[i]@[t]@),
            e,
        ) % q() by {
            assert(p.evaluations@[i]@[t].log() == dot(lvals(p.leaves@[i]@[t]@), e) % q());
        }
        lemma_eval_check_passes(p.leaves@[i]@, p.evaluations@[i]@, e, rs[i]);
    }
    // the restricted combination against the combined evaluations
    let n = idx.len();
    let tabs = tables_vals(p.evaluations@);
    let evs = sg_comb(tabs, g, n);
    let hs = sgb_h_tables(polys, rv, w);
    let gcv = lvals(p.g_poly.coeffs@);
    assert(gcv == sg_comb(hs, g, exp2(w)));
    assert(exp2((l + w) as nat) == exp2(m as nat));
    assert forall|t: int| 0 <= t < n implies #[trigger] evs[t] % q() == dot(gcv, sg_ytab(domain[idx[t] as int].val(), w)) % q() by {
        let yp = pow_vals(domain[idx[t] as int].val(), w);
        assert(yp.len() == w);
        let vals = Seq::new(k, |i: int| mle(polys[i].table(), rv + yp) * pow(g, i as nat));
        // the combined evaluation
        let et = sg_comb_terms(tabs, g, t, tabs.len());
        assert forall|i: int| 0 <= i < k implies #[trigger] et[i] % q() == vals[i] % q() by {
            let lf = lvals(p.leaves@[i]@[t]@);
            assert(crate::pcs::coset_leaf_ok(polys[i].table(), l as nat, w, domain[idx[t] as int], p.leaves@[i]@[t]));
            lemma_leaf_value(polys[i].table(), rv, yp, lf);
            assert(tabs[i][t] == p.evaluations@[i]@[t].log());
            lemma_mod_twice(dot(lf, e), q());
            lemma_mul_mod_noop_left(tabs[i][t], pow(g, i as nat), q());
            lemma_mul_mod_noop_left(mle(polys[i].table(), rv + yp), pow(g, i as nat), q());
        }
        lemma_ssum_mod(et, vals, q());
        lemma_mod_twice(ssum(et), q());
        // the restricted combination read at the point
        lemma_dot_mle(gcv, yp);
        let raw = Seq::new(exp2(w), |b: int| ssum(sg_comb_terms(hs, g, b, hs.len())));
        assert forall|b: int| 0 <= b < gcv.len() implies #[trigger] gcv[b] % q() == raw[b] % q() by {
            lemma_mod_twice(raw[b], q());
        }
        lemma_mle_mod(gcv, raw, yp, q());
        assert forall|i: int| 0 <= i < hs.len() implies (#[trigger] hs[i]).len() == exp2(yp.len()) by {}
        lemma_mle_comb(hs, g, yp);
        let hv = Seq::new(hs.len(), |i: int| mle(hs[i], yp) * pow(g, i as nat));
        assert forall|i: int| 0 <= i < k implies #[trigger] hv[i] % q() == vals[i] % q() by {
            let rl = restrict_lo(polys[i].table(), rv, w);
            assert forall|b: int| 0 <= b < rl.len() implies #[trigger] hs[i][b] % q() == rl[b] % q() by {
                lemma_mod_twice(rl[b], q());
            }
            lemma_mle_mod(hs[i], rl, yp, q());
            lemma_mle_restrict_lo(polys[i].table(), rv, yp);
            lemma_mul_mod_noop_left(mle(hs[i], yp), pow(g, i as nat), q());
            lemma_mul_mod_noop_left(mle(polys[i].table(), rv + yp), pow(g, i as nat), q());
        }
        lemma_ssum_mod(hv, vals, q());
        assert(sg_ytab(domain[idx[t] as int].val(), w) == seq_mod(eq_table(yp), q()));
    }
    assert(p.g_poly.coeffs@.len() == exp2(w));
    lemma_poly_check_core(p.g_poly.coeffs@, domain, idx, evs, delta, w);
}

/// Positions opened once each, in increasing order, at exactly the queried
/// positions meet the verifier's check of the opened positions.
proof fn lemma_positions_from_openings(idx: Seq<usize>, qs: Seq<usize>, bq: Seq<int>)
    requires
        qs.map_values(|y: usize| y as int) == bq,
        forall|a: int, b: int| 0 <= a < b < idx.len() ==> idx[a] < idx[b],
        forall|t: int| 0 <= t < idx.len() ==> qs.contains(#[trigger] idx[t]),
        forall|t: int| 0 <= t < qs.len() ==> idx.contains(#[trigger] qs[t]),
    ensures
        sg_positions_ok(idx, bq),
{
    assert forall|t: int| 0 <= t < idx.len() implies bq.contains(#[trigger] idx[t] as int) by {
        assert(qs.contains(idx[t]));
        let k = choose|k: int| 0 <= k < qs.len() && qs[k] == idx[t];
        assert(bq[k] == qs[k] as int);
    }
    assert forall|t: int| 0 <= t < bq.len() implies idx.map_values(|y: usize| y as int).contains(#[trigger] bq[t]) by {
        assert(bq[t] == qs[t] as int);
        assert(idx.contains(qs[t]));
        let u = choose|u: int| 0 <= u < idx.len() && idx[u] == qs[t];
        assert(idx.map_values(|y: usize| y as int)[u] == bq[t]);
    }
}


/// A sum of an even number of terms is the sum of its even-indexed terms
/// plus the sum of its odd-indexed terms.
proof fn lemma_ssum_parity(s: Seq<int>, n: nat)
    requires
        s.len() == 2 * n,
    ensures
        ssum(s) == ssum(Seq::new(n, |b: int| s[2 * b])) + ssum(Seq::new(n, |b: int| s[2 * b + 1])),
    decreases n,
{
    let ev = Seq::new(n, |b: int| s[2 * b]);
    let od = Seq::new(n, |b: int| s[2 * b + 1]);
    if n == 0 {
        assert(ev.len() == 0 && od.len() == 0);
    } else {
        let t = s.drop_last().drop_last();
        lemma_ssum_parity(t, (n - 1) as nat);
        assert(ev.drop_last() =~= Seq::new((n - 1) as nat, |b: int| t[2 * b]));
        assert(od.drop_last() =~= Seq::new((n - 1) as nat, |b: int| t[2 * b + 1]));
        assert(ssum(s) == ssum(s.drop_last()) + s[2 * n - 1]);
        assert(ssum(s.drop_last()) == ssum(t) + s[2 * n - 2]);
        assert(ssum(ev) == ssum(ev.drop_last()) + s[2 * n - 2]);
        assert(ssum(od) == ssum(od.drop_last()) + s[2 * n - 1]);
    }
}

/// A sum of terms that are each a fixed combination of four terms is that
/// combination of the four sums.
pub(crate) proof fn lemma_ssum_lin4(t: Seq<int>, t1: Seq<int>, t2: Seq<int>, t3: Seq<int>, t4: Seq<int>, x: int, y: int, w: int, z: int)
    requires
        t1.len() == t.len(),
        t2.len() == t.len(),
        t3.len() == t.len(),
        t4.len() == t.len(),
        forall|i: int| 0 <= i < t.len() ==> #[trigger] t[i] == x * t1[i] + y * t2[i] + w * t3[i] + z * t4[i],
    ensures
        ssum(t) == x * ssum(t1) + y * ssum(t2) + w * ssum(t3) + z * ssum(t4),
    decreases t.len(),
{
    if t.len() > 0 {
        let k = t.len() - 1;
        lemma_ssum_lin4(t.drop_last(), t1.drop_last(), t2.drop_last(), t3.drop_last(), t4.drop_last(), x, y, w, z);
        let (a, b, c, d) = (ssum(t1.drop_last()), ssum(t2.drop_last()), ssum(t3.drop_last()), ssum(t4.drop_last()));
        let (a1, b1, c1, d1) = (t1[k], t2[k], t3[k], t4[k]);
        assert(t[k] == x * a1 + y * b1 + w * c1 + z * d1);
        assert(x * (a + a1) == x * a + x * a1) by (nonlinear_arith);
        assert(y * (b + b1) == y * b + y * b1) by (nonlinear_arith);
        assert(w * (c + c1) == w * c + w * c1) by (nonlinear_arith);
        assert(z * (d + d1) == z * d + z * d1) by (nonlinear_arith);
    }
}

/// The message of a folding round adds up, at `0` and `1`, to the inner
/// product of the two tables, modulo `q`.
proof fn lemma_fold_round_sum(h: Seq<int>, e: Seq<int>)
    requires
        h.len() == e.len(),
        h.len() % 2 == 0,
    ensures
        (fold_round(h, e)[0] + fold_round(h, e)[1]) % q() == dot(h, e) % q(),
{
    let n = (h.len() / 2) as nat;
    let d = Seq::new(min_len(h.len() as int, e.len() as int) as nat, |i: int| h[i] * e[i]);
    lemma_ssum_parity(d, n);
    let (a, b, c, dd) = (evens(h), odds(h), evens(e), odds(e));
    assert(Seq::new(n, |k: int| d[2 * k]) =~= Seq::new(min_len(a.len() as int, c.len() as int) as nat, |i: int| a[i] * c[i]));
    assert(Seq::new(n, |k: int| d[2 * k + 1]) =~= Seq::new(min_len(b.len() as int, dd.len() as int) as nat, |i: int| b[i] * dd[i]));
    lemma_add_mod_noop(dot(a, c), dot(b, dd), q());
}

/// The quadratic through `s1, s4, s1 - 2 s2 - 2 s3 + 4 s4` at `0, 1, 2`, by
/// its coefficients and by its Bernstein form.
proof fn lemma_quad_coeffs(s1: int, s2: int, s3: int, s4: int, r: int)
    ensures
        s1 + (-2 * s1 + s2 + s3) * r + (s1 - s2 - s3 + s4) * r * r == ((1 - r) * (1 - r)) * s1 + (r * (1 - r)) * s2 + (r
            * (1 - r)) * s3 + (r * r) * s4,
{
    assert((-2 * s1 + s2 + s3) * r == -2 * (s1 * r) + s2 * r + s3 * r) by (nonlinear_arith);
    assert((s1 - s2 - s3 + s4) * r * r == s1 * (r * r) - s2 * (r * r) - s3 * (r * r) + s4 * (r * r)) by (nonlinear_arith);
    assert(((1 - r) * (1 - r)) * s1 == s1 - 2 * (s1 * r) + s1 * (r * r)) by (nonlinear_arith);
    assert((r * (1 - r)) * s2 == s2 * r - s2 * (r * r)) by (nonlinear_arith);
    assert((r * (1 - r)) * s3 == s3 * r - s3 * (r * r)) by (nonlinear_arith);
    assert((r * r) * s4 == s4 * (r * r)) by (nonlinear_arith);
}

/// `(a p + b r)(c p + d r)` expanded.
proof fn lemma_bilinear(a: int, b: int, c: int, d: int, p: int, r: int)
    ensures
        (a * p + b * r) * (c * p + d * r) == (p * p) * (a * c) + (r * p) * (a * d) + (r * p) * (b * c) + (r * r) * (b * d),
{
    let u = a * p;
    let v = b * r;
    assert((u + v) * (c * p + d * r) == u * (c * p) + u * (d * r) + v * (c * p) + v * (d * r)) by (nonlinear_arith);
    assert(u * (c * p) == (p * p) * (a * c)) by (nonlinear_arith)
        requires
            u == a * p,
    ;
    assert(u * (d * r) == (r * p) * (a * d)) by (nonlinear_arith)
        requires
            u == a * p,
    ;
    assert(v * (c * p) == (r * p) * (b * c)) by (nonlinear_arith)
        requires
            v == b * r,
    ;
    assert(v * (d * r) == (r * r) * (b * d)) by (nonlinear_arith)
        requires
            v == b * r,
    ;
}

/// The message of a folding round, read at `r` as a quadratic, is the inner
/// product of the two tables with their first variable fixed to `r`,
/// modulo `q`.
proof fn lemma_fold_round_at(h: Seq<int>, e: Seq<int>, r: int)
    requires
        h.len() == e.len(),
    ensures
        eval_triple(fold_round(h, e)[0], fold_round(h, e)[1], fold_round(h, e)[2], r) == dot(
            seq_mod(fold_lo(h, r), q()),
            seq_mod(fold_lo(e, r), q()),
        ) % q(),
{
    let n = (h.len() / 2) as nat;
    let (a, b, c, dd) = (evens(h), odds(h), evens(e), odds(e));
    let t1 = Seq::new(min_len(a.len() as int, c.len() as int) as nat, |i: int| a[i] * c[i]);
    let t2 = Seq::new(min_len(a.len() as int, dd.len() as int) as nat, |i: int| a[i] * dd[i]);
    let t3 = Seq::new(min_len(b.len() as int, c.len() as int) as nat, |i: int| b[i] * c[i]);
    let t4 = Seq::new(min_len(b.len() as int, dd.len() as int) as nat, |i: int| b[i] * dd[i]);
    let (s1, s2, s3, s4) = (ssum(t1), ssum(t2), ssum(t3), ssum(t4));
    let c1 = -2 * s1 + s2 + s3;
    let c2 = s1 - s2 - s3 + s4;
    lemma_eval_triple_quad(s1, c1, c2, r);
    assert(s1 + c1 + c2 == s4);
    assert(s1 + 2 * c1 + 4 * c2 == s1 - 2 * s2 - 2 * s3 + 4 * s4);
    // the inner product of the folded tables
    let fh = fold_lo(h, r);
    let fe = fold_lo(e, r);
    let t = Seq::new(min_len(fh.len() as int, fe.len() as int) as nat, |i: int| fh[i] * fe[i]);
    let x = (1 - r) * (1 - r);
    let y = r * (1 - r);
    let z = r * r;
    assert forall|i: int| 0 <= i < t.len() implies #[trigger] t[i] == x * t1[i] + y * t2[i] + y * t3[i] + z * t4[i] by {
        let (ai, bi, ci, di) = (h[2 * i], h[2 * i + 1], e[2 * i], e[2 * i + 1]);
        assert(fh[i] == ai * (1 - r) + bi * r);
        assert(fe[i] == ci * (1 - r) + di * r);
        lemma_bilinear(ai, bi, ci, di, 1 - r, r);
    }
    lemma_ssum_lin4(t, t1, t2, t3, t4, x, y, y, z);
    lemma_quad_coeffs(s1, s2, s3, s4, r);
    // reducing the folded tables modulo q does not change the sum modulo q
    let mh = seq_mod(fh, q());
    let me = seq_mod(fe, q());
    let tm = Seq::new(min_len(mh.len() as int, me.len() as int) as nat, |i: int| mh[i] * me[i]);
    assert forall|i: int| 0 <= i < tm.len() implies #[trigger] tm[i] % q() == t[i] % q() by {
        lemma_mul_mod_noop(fh[i], fe[i], q());
    }
    lemma_ssum_mod(tm, t, q());
}

/// A table of `2^(rho.len() + k)` entries, folded at `rho`, has `2^k`.
proof fn lemma_fold_seq_len(c: Seq<int>, rho: Seq<int>, k: nat)
    requires
        c.len() == exp2(rho.len() + k),
    ensures
        fold_seq(c, rho).len() == exp2(k),
    decreases rho.len(),
{
    if rho.len() > 0 {
        lemma_fold_seq_len(c, rho.drop_last(), k + 1);
        assert(exp2(k + 1) == 2 * exp2(k));
    }
}

/// The rounds of the non-interactive group sum-check that fold the tables
/// chain up: for each round `j` with `l < j < m`, `g_j(0) + g_j(1)` is the
/// previous round polynomial at the previous challenge.
pub proof fn law_noninteractive_fold_rounds_pass(
    m: nat,
    l: nat,
    f_table: Seq<Pt>,
    alpha: Seq<Fr>,
    sigma: Pt,
    rv: Seq<int>,
    tr: Seq<[Pt; 3]>,
)
    requires
        1 <= l < m,
        f_table.len() == exp2(m),
        alpha.len() == m,
        np_prove_post(m, l, f_table, alpha, sigma, rv, tr),
    ensures
        forall|j: int| l < j < m ==> #[trigger] sg_round_ok(gs_init_log(m as u64, l as u64, alpha, sigma), tr, sigma.log(), j),
{
    let log0 = gs_init_log(m as u64, l as u64, alpha, sigma);
    let f = lvals(f_table);
    let av = lvals(alpha);
    let h0 = seq_mod(restrict_lo(f, rv.take(l as int), (m - l) as nat), q());
    let e0 = seq_mod(restrict_lo(seq_mod(eq_table(av), q()), rv.take(l as int), (m - l) as nat), q());
    assert forall|j: int| l < j < m implies #[trigger] sg_round_ok(log0, tr, sigma.log(), j) by {
        let rp = rv.subrange(l as int, j - 1);
        let rn = rv.subrange(l as int, j);
        let r = rv[j - 1];
        assert(rn.drop_last() =~= rp);
        assert(rn.last() == r);
        let hp = fold_seq(h0, rp);
        let ep = fold_seq(e0, rp);
        let hn = fold_seq(h0, rn);
        let en = fold_seq(e0, rn);
        assert(hn == seq_mod(fold_lo(hp, r), q()));
        assert(en == seq_mod(fold_lo(ep, r), q()));
        let k = (m - j) as nat;
        assert(h0.len() == exp2((rp.len() + k + 1) as nat));
        assert(e0.len() == exp2((rp.len() + k + 1) as nat));
        lemma_fold_seq_len(h0, rp, k + 1);
        lemma_fold_seq_len(e0, rp, k + 1);
        lemma_fold_seq_len(h0, rn, k);
        lemma_fold_seq_len(e0, rn, k);
        lemma_exp2_pos((k - 1) as nat);
        assert(exp2(k) == 2 * exp2((k - 1) as nat));
        lemma_fold_round_at(hp, ep, r);
        lemma_fold_round_sum(hn, en);
        assert(tr[j - 1][0].log() == fold_round(hp, ep)[0]);
        assert(tr[j - 1][1].log() == fold_round(hp, ep)[1]);
        assert(tr[j - 1][2].log() == fold_round(hp, ep)[2]);
        assert(tr[j][0].log() == fold_round(hn, en)[0]);
        assert(tr[j][1].log() == fold_round(hn, en)[1]);
        assert(r == gp_r(log0, tr, (j - 1) as nat));
    }
}

/// The rounds of the non-interactive group sum-check answered from the
/// tables `S_i` pass: for `sigma = f(alpha)`, `g_1(0) + g_1(1) = sigma`, and
/// for each later round `j < l`, `g_j(0) + g_j(1)` is the previous round
/// polynomial at the previous challenge.
pub proof fn law_noninteractive_table_rounds_pass(
    m: nat,
    l: nat,
    f_table: Seq<Pt>,
    alpha: Seq<Fr>,
    sigma: Pt,
    rv: Seq<int>,
    tr: Seq<[Pt; 3]>,
)
    requires
        1 <= l < m,
        f_table.len() == exp2(m),
        alpha.len() == m,
        sigma.log() == mle(lvals(f_table), lvals(alpha)) % q(),
        round_inverses_exist(lvals(alpha), l),
        np_prove_post(m, l, f_table, alpha, sigma, rv, tr),
    ensures
        forall|j: int| 0 <= j < l ==> #[trigger] sg_round_ok(gs_init_log(m as u64, l as u64, alpha, sigma), tr, sigma.log(), j),
{
    let log0 = gs_init_log(m as u64, l as u64, alpha, sigma);
    let f = lvals(f_table);
    let av = lvals(alpha);
    let slv = seq_mod(sl_table(f, av, l), q());
    let gr = Seq::new(l, |k: int| gp_r(log0, tr, k as nat));
    assert forall|j: int| 0 <= j <= l implies #[trigger] rv.take(j) == gr.take(j) by {
        assert(rv.take(j) =~= gr.take(j));
    }
    assert(slv.len() == exp2(l));
    assert forall|j: int, u: int|
        0 <= j < l && 0 <= u < 3 implies #[trigger] tr[j][u].log() == gi_value(
        sum_top_times(slv, (l - j - 1) as nat),
        av,
        gr.take(j),
        u,
    ) by {
        assert(rv.take(j) == gr.take(j));
    }
    lemma_later_rounds_pass(slv, av, l, log0, tr, sigma.log());
    assert(invertible(av[0]));
    law_group_first_round_sums_to_claim(f, av, l);
    assert(rv.take(0) =~= Seq::<int>::empty());
    assert(tr[0][0].log() == gi_value(sum_top_times(slv, (l - 1) as nat), av, Seq::<int>::empty(), 0));
    assert(tr[0][1].log() == gi_value(sum_top_times(slv, (l - 1) as nat), av, Seq::<int>::empty(), 1));
    assert(sg_round_ok(log0, tr, sigma.log(), 0));
}


/// An honest round polynomial, read back at `r` from its values at
/// `0, 1, 2`: `K(r) · ((1 - r) / (1 - α_j) · H_0 + r / α_j · H_1)`.
proof fn lemma_round_at(tc: Seq<int>, av: Seq<int>, rho: Seq<int>, r: int)
    requires
        rho.len() < av.len(),
    ensures
        ({
            let j = rho.len();
            let a = av[j as int];
            let pp = eprod(av, rho, j);
            let h0 = gi_half(tc, av, rho, 0);
            let h1 = gi_half(tc, av, rho, exp2(j) as int);
            eval_triple(gi_value(tc, av, rho, 0), gi_value(tc, av, rho, 1), gi_value(tc, av, rho, 2), r) == (h0 * ((1
                - r) * inverse_of(1 - a) * (efac(a, r) * pp)) + h1 * (r * inverse_of(a) * (efac(a, r) * pp))) % q()
        }),
{
    let j = rho.len();
    let p = exp2(j) as int;
    let a = av[j as int];
    let i0 = inverse_of(1 - a);
    let i1 = inverse_of(a);
    let pp = eprod(av, rho, j);
    let h0 = gi_half(tc, av, rho, 0);
    let h1 = gi_half(tc, av, rho, p);
    let a0 = h0 * i0 * pp;
    let a1 = h1 * i1 * pp;
    let al = 1 - a;
    let be = 2 * a - 1;
    let c0 = a0 * al;
    let c1 = a0 * (be - al) + a1 * al;
    let c2 = be * (a1 - a0);
    lemma_round_quadratic(h0, h1, i0, i1, pp, a, 0);
    lemma_round_quadratic(h0, h1, i0, i1, pp, a, 1);
    lemma_round_quadratic(h0, h1, i0, i1, pp, a, 2);
    lemma_round_quadratic(h0, h1, i0, i1, pp, a, r);
    assert(gi_value(tc, av, rho, 0) == c0 % q());
    assert(gi_value(tc, av, rho, 1) == (c0 + c1 + c2) % q());
    assert(gi_value(tc, av, rho, 2) == (c0 + 2 * c1 + 4 * c2) % q());
    lemma_eval_triple_quad(c0, c1, c2, r);
}

/// `eq(a, x)` in product form seen from the last coordinate.
proof fn lemma_eq_poly_last(a: Seq<int>, x: Seq<int>)
    requires
        a.len() == x.len(),
        a.len() >= 1,
    ensures
        eq_poly(a, x) == eq_poly(a.drop_last(), x.drop_last()) * efac(a.last(), x.last()),
    decreases a.len(),
{
    if a.len() == 1 {
        assert(a.drop_first().len() == 0);
        assert(a.drop_last().len() == 0);
        assert(eq_poly(a.drop_first(), x.drop_first()) == 1);
        assert(eq_poly(a.drop_last(), x.drop_last()) == 1);
        assert(efac(a.last(), x.last()) == a[0] * x[0] + (1 - a[0]) * (1 - x[0])) by (nonlinear_arith)
            requires
                a.last() == a[0],
                x.last() == x[0],
        ;
    } else {
        let a1 = a.drop_first();
        let x1 = x.drop_first();
        lemma_eq_poly_last(a1, x1);
        assert(a1.drop_last() =~= a.drop_last().drop_first());
        assert(x1.drop_last() =~= x.drop_last().drop_first());
        assert(a.drop_last()[0] == a[0]);
        assert(x.drop_last()[0] == x[0]);
        let f0 = a[0] * x[0] + (1 - a[0]) * (1 - x[0]);
        let rest = eq_poly(a1.drop_last(), x1.drop_last());
        let fl = efac(a.last(), x.last());
        assert(f0 * (rest * fl) == (f0 * rest) * fl) by (nonlinear_arith);
    }
}

/// `Π_{k < n} e(alpha_k, x_k)` is `eq(alpha_{<n}, x_{<n})`.
proof fn lemma_eprod_eq_poly(av: Seq<int>, x: Seq<int>, n: nat)
    requires
        n <= av.len(),
        n <= x.len(),
    ensures
        eprod(av, x, n) == eq_poly(av.take(n as int), x.take(n as int)),
    decreases n,
{
    if n == 0 {
        assert(av.take(0).len() == 0);
    } else {
        lemma_eprod_eq_poly(av, x, (n - 1) as nat);
        lemma_eq_poly_last(av.take(n as int), x.take(n as int));
        assert(av.take(n as int).drop_last() =~= av.take(n - 1));
        assert(x.take(n as int).drop_last() =~= x.take(n - 1));
    }
}


/// `j · ((e f g mod q) · (rr · i))` is `g · rr` modulo `q` when `i`
/// inverts `e` and `j` inverts `f`.
proof fn lemma_cancel2(e: int, i: int, f: int, j: int, g: int, rr: int)
    requires
        (e * i) % q() == 1,
        (f * j) % q() == 1,
    ensures
        (j * (((e * f * g) % q()) * (rr * i))) % q() == (g * rr) % q(),
{
    let x = e * f * g;
    let z = (rr * i) * j;
    assert(j * ((x % q()) * (rr * i)) == (x % q()) * z) by (nonlinear_arith)
        requires
            z == (rr * i) * j,
    ;
    lemma_mul_mod_noop_left(x, z, q());
    assert(x * z == ((e * i) * (f * j)) * (g * rr)) by (nonlinear_arith)
        requires
            x == e * f * g,
            z == (rr * i) * j,
    ;
    let aa = (e * i) * (f * j);
    let bb = g * rr;
    lemma_mul_mod_noop(e * i, f * j, q());
    lemma_small_mod(1, q() as nat);
    assert(aa % q() == 1);
    lemma_mul_mod_noop(aa, bb, q());
    assert((aa * bb) % q() == (1 * (bb % q())) % q());
    lemma_mod_twice(bb, q());
    assert((j * ((x % q()) * (rr * i))) % q() == (x * z) % q());
    assert(x * z == aa * bb);
}

/// `S_l[c]` is `eq(alpha_{<l}, c)` times the entry `c` of the table `G` of
/// `f` with its last variables fixed to `alpha_{>=l}`.
proof fn lemma_sl_entry_split(f: Seq<int>, av: Seq<int>, l: nat, c: int)
    requires
        l <= av.len(),
        0 <= c < exp2(l),
    ensures
        sl_entry(f, av, l, c) == eq_at(av.take(l as int), c) * restrict_hi(f, av.skip(l as int), l)[c],
{
    let lo = av.take(l as int);
    let hi = av.skip(l as int);
    assert(av =~= lo + hi);
    let n = exp2((av.len() - l) as nat);
    assert(hi.len() == av.len() - l);
    let s = Seq::new(n, |x: int| f[x * exp2(l) + c] * eq_at(av, x * exp2(l) + c));
    let g = Seq::new(exp2(hi.len()), |x: int| f[x * exp2(l) + c] * eq_at(hi, x));
    assert forall|x: int| 0 <= x < s.len() implies #[trigger] s[x] == eq_at(lo, c) * g[x] by {
        lemma_eq_at_split(lo, hi, x, c);
        let fv = f[x * exp2(l) + c];
        assert(fv * (eq_at(lo, c) * eq_at(hi, x)) == eq_at(lo, c) * (fv * eq_at(hi, x))) by (nonlinear_arith);
    }
    lemma_ssum_scale(s, g, eq_at(lo, c));
}

/// A weighted half of `S_l`, divided by its factor `e(alpha_{l-1}, t)`, is
/// the same half of `G` read at `rho`, modulo `q`.
proof fn lemma_sl_half(f: Seq<int>, av: Seq<int>, l: nat, rho: Seq<int>, t: int)
    requires
        1 <= l <= av.len(),
        rho.len() == l - 1,
        t == 0 || t == 1,
        invertible(eqf(av[l - 1], t == 1)),
        forall|b: int| 0 <= b < exp2((l - 1) as nat) ==> #[trigger] invertible(eq_at(av.take(l - 1), b)),
    ensures
        ({
            let p = exp2((l - 1) as nat) as int;
            let g = restrict_hi(f, av.skip(l as int), l);
            (gi_half(seq_mod(sl_table(f, av, l), q()), av, rho, t * p) * inverse_of(eqf(av[l - 1], t == 1))) % q()
                == ssum(Seq::new(exp2(rho.len()), |b: int| g[t * p + b] * eq_at(rho, b))) % q()
        }),
{
    let p = exp2((l - 1) as nat) as int;
    lemma_exp2_pos((l - 1) as nat);
    assert(exp2(l) == 2 * exp2((l - 1) as nat));
    let slv = seq_mod(sl_table(f, av, l), q());
    let g = restrict_hi(f, av.skip(l as int), l);
    let a = av[l - 1];
    let ef = eqf(a, t == 1);
    let jj = inverse_of(ef);
    assert(is_inverse(ef, jj));
    let hs = Seq::new(exp2(rho.len()), |b: int| slv[t * p + b] * gi_weight(av, rho, b));
    let hsj = Seq::new(exp2(rho.len()), |b: int| jj * hs[b]);
    let tg = Seq::new(exp2(rho.len()), |b: int| g[t * p + b] * eq_at(rho, b));
    lemma_ssum_scale(hsj, hs, jj);
    assert forall|b: int| 0 <= b < hsj.len() implies #[trigger] hsj[b] % q() == tg[b] % q() by {
        let c = t * p + b;
        let eb = eq_at(av.take(l - 1), b);
        let ib = inverse_of(eb);
        assert(invertible(eb));
        assert(is_inverse(eb, ib));
        lemma_sl_entry_split(f, av, l, c);
        assert(av.take(l as int) =~= av.take(l - 1).push(a));
        assert(av.take(l - 1).len() == l - 1);
        lemma_eq_push(av.take(l - 1), a, b, t);
        assert(b + t * p == c);
        assert(eq_at(av.take(l as int), c) == eb * ef);
        assert(slv[c] == (eb * ef * g[c]) % q());
        assert(rho.len() as int == l - 1);
        assert(gi_weight(av, rho, b) == eq_at(rho, b) * ib);
        lemma_cancel2(eb, ib, ef, jj, g[c], eq_at(rho, b));
    }
    lemma_ssum_mod(hsj, tg, q());
    assert(gi_half(slv, av, rho, t * p) == ssum(hs));
    assert(ssum(hs) * jj == jj * ssum(hs)) by (nonlinear_arith);
}


/// Two sums of multiples, congruent term by term, are congruent.
proof fn lemma_lin2_congr(x0: int, y0: int, x1: int, y1: int, c0: int, c1: int)
    requires
        x0 % q() == y0 % q(),
        x1 % q() == y1 % q(),
    ensures
        (x0 * c0 + x1 * c1) % q() == (y0 * c0 + y1 * c1) % q(),
{
    lemma_mul_mod_noop_left(x0, c0, q());
    lemma_mul_mod_noop_left(y0, c0, q());
    lemma_mul_mod_noop_left(x1, c1, q());
    lemma_mul_mod_noop_left(y1, c1, q());
    lemma_add_mod_noop(x0 * c0, x1 * c1, q());
    lemma_add_mod_noop(y0 * c0, y1 * c1, q());
}

/// The last round answered from `S_l`, read at its challenge `r`, is
/// `eq(alpha_{<l}, rho r) · f(rho r, alpha_{>=l})` modulo `q`.
proof fn lemma_switch_claim(f: Seq<int>, av: Seq<int>, l: nat, rho: Seq<int>, r: int)
    requires
        1 <= l <= av.len(),
        f.len() == exp2(av.len()),
        rho.len() == l - 1,
        invertible(av[l - 1]),
        invertible(1 - av[l - 1]),
        forall|b: int| 0 <= b < exp2((l - 1) as nat) ==> #[trigger] invertible(eq_at(av.take(l - 1), b)),
    ensures
        ({
            let slv = seq_mod(sl_table(f, av, l), q());
            let rho2 = rho.push(r);
            eval_triple(gi_value(slv, av, rho, 0), gi_value(slv, av, rho, 1), gi_value(slv, av, rho, 2), r) == (eprod(
                av,
                rho2,
                l,
            ) * mle(f, rho2 + av.skip(l as int))) % q()
        }),
{
    let p = exp2((l - 1) as nat) as int;
    lemma_exp2_pos((l - 1) as nat);
    assert(exp2(l) == 2 * exp2((l - 1) as nat));
    let slv = seq_mod(sl_table(f, av, l), q());
    let hi = av.skip(l as int);
    let g = restrict_hi(f, hi, l);
    let rho2 = rho.push(r);
    let a = av[l - 1];
    let i0 = inverse_of(1 - a);
    let i1 = inverse_of(a);
    let pp = eprod(av, rho, (l - 1) as nat);
    let ea = efac(a, r);
    let kk = ea * pp;
    let h0 = gi_half(slv, av, rho, 0);
    let h1 = gi_half(slv, av, rho, p);
    lemma_round_at(slv, av, rho, r);
    assert(rho.len() == (l - 1) as nat);
    let gr = h0 * ((1 - r) * i0 * kk) + h1 * (r * i1 * kk);
    assert(eqf(a, false) == 1 - a);
    assert(eqf(a, true) == a);
    lemma_sl_half(f, av, l, rho, 0);
    lemma_sl_half(f, av, l, rho, 1);
    let tg0 = Seq::new(exp2(rho.len()), |b: int| g[0 * p + b] * eq_at(rho, b));
    let tg1 = Seq::new(exp2(rho.len()), |b: int| g[1 * p + b] * eq_at(rho, b));
    let m0 = ssum(tg0);
    let m1 = ssum(tg1);
    assert(gr == (h0 * i0) * ((1 - r) * kk) + (h1 * i1) * (r * kk)) by (nonlinear_arith)
        requires
            gr == h0 * ((1 - r) * i0 * kk) + h1 * (r * i1 * kk),
    ;
    lemma_lin2_congr(h0 * i0, m0, h1 * i1, m1, (1 - r) * kk, r * kk);
    // the polynomial of `G` at `rho r`
    lemma_mle_fold_hi(g, rho2);
    assert(rho2.drop_last() =~= rho);
    assert(rho2.last() == r);
    let fg = fold_hi(g, r);
    let t = Seq::new(exp2(rho.len()), |b: int| fg[b] * eq_at(rho, b));
    assert forall|b: int| 0 <= b < t.len() implies #[trigger] t[b] == (1 - r) * tg0[b] + r * tg1[b] + 0 * tg0[b] + 0
        * tg1[b] by {
        assert(fg[b] == g[b] * (1 - r) + g[b + p] * r);
        let e = eq_at(rho, b);
        assert((g[b] * (1 - r) + g[b + p] * r) * e == (1 - r) * (g[b] * e) + r * (g[b + p] * e)) by (nonlinear_arith);
    }
    lemma_ssum_lin4(t, tg0, tg1, tg0, tg1, 1 - r, r, 0, 0);
    assert(mle(g, rho2) == (1 - r) * m0 + r * m1);
    assert(m0 * ((1 - r) * kk) + m1 * (r * kk) == kk * ((1 - r) * m0 + r * m1)) by (nonlinear_arith);
    // the factor of `eq(alpha_{<l}, ·)`
    lemma_eprod_prefix(av, rho, r, (l - 1) as nat);
    assert(rho2[l - 1] == r);
    assert(eprod(av, rho2, l) == pp * ea);
    assert(pp * ea == kk) by (nonlinear_arith)
        requires
            kk == ea * pp,
    ;
    lemma_mle_restrict_hi(f, rho2, hi);
    assert(av.len() == rho2.len() + hi.len());
}

/// The inner product of the two tables the folding rounds start from is
/// `eq(alpha_{<l}, rho) · f(rho, alpha_{>=l})` modulo `q`.
proof fn lemma_switch_dot(f: Seq<int>, av: Seq<int>, rho: Seq<int>)
    requires
        rho.len() <= av.len(),
        f.len() == exp2(av.len()),
    ensures
        ({
            let l = rho.len();
            let w = (av.len() - l) as nat;
            let h0 = seq_mod(restrict_lo(f, rho, w), q());
            let e0 = seq_mod(restrict_lo(seq_mod(eq_table(av), q()), rho, w), q());
            dot(h0, e0) % q() == (eprod(av, rho, l) * mle(f, rho + av.skip(l as int))) % q()
        }),
{
    let l = rho.len();
    let w = (av.len() - l) as nat;
    let lo = av.take(l as int);
    let hi = av.skip(l as int);
    assert(av =~= lo + hi);
    assert(hi.len() == w);
    let eqm = seq_mod(eq_table(av), q());
    let hh = restrict_lo(f, rho, w);
    let ee = restrict_lo(eqm, rho, w);
    let h0 = seq_mod(hh, q());
    let e0 = seq_mod(ee, q());
    let ev = eq_poly(lo, rho);
    lemma_mle_eq_table(lo, rho);
    lemma_exp2_adds(l, w);
    lemma_exp2_pos(l);
    // each entry of the restricted `eq` table
    assert forall|x: int| 0 <= x < exp2(w) implies #[trigger] ee[x] % q() == (eq_at(hi, x) * ev) % q() by {
        let s = Seq::new(exp2(l), |j: int| eqm[x * exp2(l) + j] * eq_at(rho, j));
        let u = Seq::new(exp2(l), |j: int| eq_at(hi, x) * (eq_table(lo)[j] * eq_at(rho, j)));
        let v = Seq::new(exp2(rho.len()), |j: int| eq_table(lo)[j] * eq_at(rho, j));
        assert forall|j: int| 0 <= j < s.len() implies #[trigger] s[j] % q() == u[j] % q() by {
            lemma_eq_at_split(lo, hi, x, j);
            assert(lo.len() == l);
            assert(x * exp2(l) + j < exp2(av.len())) by (nonlinear_arith)
                requires
                    0 <= x < exp2(w),
                    0 <= j < exp2(l),
                    exp2(av.len()) == exp2(l) * exp2(w),
            ;
            lemma_mul_mod_noop_left(eq_at(av, x * exp2(l) + j), eq_at(rho, j), q());
            let (e1, e2, e3) = (eq_at(lo, j), eq_at(hi, x), eq_at(rho, j));
            assert((e1 * e2) * e3 == e2 * (e1 * e3)) by (nonlinear_arith);
        }
        lemma_ssum_mod(s, u, q());
        lemma_ssum_scale(u, v, eq_at(hi, x));
        assert(ssum(v) == mle(eq_table(lo), rho));
    }
    // the inner product
    let d = Seq::new(min_len(h0.len() as int, e0.len() as int) as nat, |x: int| h0[x] * e0[x]);
    let d2 = Seq::new(exp2(w), |x: int| ev * (hh[x] * eq_at(hi, x)));
    let d3 = Seq::new(exp2(hi.len()), |x: int| hh[x] * eq_at(hi, x));
    assert forall|x: int| 0 <= x < d.len() implies #[trigger] d[x] % q() == d2[x] % q() by {
        lemma_mul_mod_noop(hh[x], ee[x], q());
        lemma_mul_mod_noop(hh[x], eq_at(hi, x) * ev, q());
        assert(hh[x] * (eq_at(hi, x) * ev) == ev * (hh[x] * eq_at(hi, x))) by (nonlinear_arith);
    }
    lemma_ssum_mod(d, d2, q());
    lemma_ssum_scale(d2, d3, ev);
    assert(ssum(d3) == mle(hh, hi));
    lemma_mle_restrict_lo(f, rho, hi);
    lemma_eprod_eq_poly(av, rho, l);
    assert(rho.take(l as int) =~= rho);
}


/// A table folded at every one of its `k` variables is its value there,
/// modulo `q`.
proof fn lemma_fold_seq_value(c: Seq<int>, rho: Seq<int>)
    requires
        rho.len() >= 1,
        c.len() == exp2(rho.len()),
    ensures
        fold_seq(c, rho).len() == 1,
        fold_seq(c, rho)[0] == mle(c, rho) % q(),
{
    crate::pcs_laws::lemma_fold_seq_mle(c, rho, Seq::<int>::empty());
    assert(rho + Seq::<int>::empty() =~= rho);
    let fs = fold_seq(c, rho);
    lemma_mle_empty(fs);
    assert(fs == seq_mod(fold_lo(fold_seq(c, rho.drop_last()), rho.last()), q()));
    lemma_mod_twice(fold_lo(fold_seq(c, rho.drop_last()), rho.last())[0], q());
}

/// The round of the non-interactive group sum-check that switches from the
/// tables `S_i` to folding passes: `g_l(0) + g_l(1)` is the last round
/// polynomial answered from `S_l` at its challenge.
proof fn lemma_noninteractive_switch_round(
    m: nat,
    l: nat,
    f_table: Seq<Pt>,
    alpha: Seq<Fr>,
    sigma: Pt,
    rv: Seq<int>,
    tr: Seq<[Pt; 3]>,
)
    requires
        1 <= l < m,
        f_table.len() == exp2(m),
        alpha.len() == m,
        round_inverses_exist(lvals(alpha), l),
        np_prove_post(m, l, f_table, alpha, sigma, rv, tr),
    ensures
        sg_round_ok(gs_init_log(m as u64, l as u64, alpha, sigma), tr, sigma.log(), l as int),
{
    let log0 = gs_init_log(m as u64, l as u64, alpha, sigma);
    let f = lvals(f_table);
    let av = lvals(alpha);
    let w = (m - l) as nat;
    let rho2 = rv.take(l as int);
    let h0 = seq_mod(restrict_lo(f, rho2, w), q());
    let e0 = seq_mod(restrict_lo(seq_mod(eq_table(av), q()), rho2, w), q());
    assert(h0.len() == exp2(w));
    assert(e0.len() == exp2(w));
    lemma_exp2_pos((w - 1) as nat);
    assert(exp2(w) == 2 * exp2((w - 1) as nat));
    let slv = seq_mod(sl_table(f, av, l), q());
    let rho = rv.take(l - 1);
    let r = rv[l - 1];
    assert(rho.push(r) =~= rho2);
    assert(sum_top_times(slv, 0) == slv);
    assert(((l - (l - 1) - 1) as nat) == 0);
    assert(tr[l - 1][0].log() == gi_value(slv, av, rho, 0));
    assert(tr[l - 1][1].log() == gi_value(slv, av, rho, 1));
    assert(tr[l - 1][2].log() == gi_value(slv, av, rho, 2));
    assert(forall|b: int| 0 <= b < exp2((l - 1) as nat) ==> #[trigger] invertible(eq_at(av.take(l - 1), b)));
    assert(invertible(av[l - 1]));
    assert(invertible(1 - av[l - 1]));
    lemma_switch_claim(f, av, l, rho, r);
    lemma_switch_dot(f, av, rho2);
    assert(rv.subrange(l as int, l as int) =~= Seq::<int>::empty());
    assert(fold_seq(h0, rv.subrange(l as int, l as int)) == h0);
    assert(fold_seq(e0, rv.subrange(l as int, l as int)) == e0);
    lemma_fold_round_sum(h0, e0);
    assert(tr[l as int][0].log() == fold_round(h0, e0)[0]);
    assert(tr[l as int][1].log() == fold_round(h0, e0)[1]);
    assert(r == gp_r(log0, tr, (l - 1) as nat));
}

/// The last claim of the non-interactive group sum-check, the last round
/// polynomial at the last challenge, is `eq(alpha, r) · f(r)` at the
/// challenges `r`.
proof fn lemma_noninteractive_final(
    m: nat,
    l: nat,
    f_table: Seq<Pt>,
    alpha: Seq<Fr>,
    sigma: Pt,
    rv: Seq<int>,
    tr: Seq<[Pt; 3]>,
)
    requires
        1 <= l < m,
        f_table.len() == exp2(m),
        alpha.len() == m,
        np_prove_post(m, l, f_table, alpha, sigma, rv, tr),
    ensures
        ({
            let log0 = gs_init_log(m as u64, l as u64, alpha, sigma);
            gv_final_ok(
                lvals(f_table),
                lvals(alpha),
                m,
                sg_prev_claim(log0, tr, sigma.log(), m as int),
                Seq::new(m, |j: int| gp_r(log0, tr, j as nat)),
            )
        }),
{
    let log0 = gs_init_log(m as u64, l as u64, alpha, sigma);
    let f = lvals(f_table);
    let av = lvals(alpha);
    let s = sigma.log();
    let w = (m - l) as nat;
    let rho2 = rv.take(l as int);
    let h0 = seq_mod(restrict_lo(f, rho2, w), q());
    let e0 = seq_mod(restrict_lo(seq_mod(eq_table(av), q()), rho2, w), q());
    assert(h0.len() == exp2(w));
    assert(e0.len() == exp2(w));
    let rhi = rv.subrange(l as int, m as int);
    let rp = rv.subrange(l as int, m - 1);
    let rl = rv[m - 1];
    assert(rhi.drop_last() =~= rp);
    assert(rhi.last() == rl);
    let hp = fold_seq(h0, rp);
    let ep = fold_seq(e0, rp);
    let hm = fold_seq(h0, rhi);
    let em = fold_seq(e0, rhi);
    assert(hm == seq_mod(fold_lo(hp, rl), q()));
    assert(em == seq_mod(fold_lo(ep, rl), q()));
    lemma_fold_seq_len(h0, rp, 1);
    lemma_fold_seq_len(e0, rp, 1);
    lemma_fold_round_at(hp, ep, rl);
    assert(tr[m - 1][0].log() == fold_round(hp, ep)[0]);
    assert(tr[m - 1][1].log() == fold_round(hp, ep)[1]);
    assert(tr[m - 1][2].log() == fold_round(hp, ep)[2]);
    assert(rl == gp_r(log0, tr, (m - 1) as nat));
    let claim = sg_prev_claim(log0, tr, s, m as int);
    assert(claim == dot(hm, em) % q());
    lemma_fold_seq_value(h0, rhi);
    lemma_fold_seq_value(e0, rhi);
    let dd = Seq::new(min_len(hm.len() as int, em.len() as int) as nat, |i: int| hm[i] * em[i]);
    assert(dd.len() == 1);
    lemma_ssum_single(dd);
    assert(dot(hm, em) == hm[0] * em[0]);
    // the two tables at the last challenges
    let hh = restrict_lo(f, rho2, w);
    let eqm = seq_mod(eq_table(av), q());
    let ee = restrict_lo(eqm, rho2, w);
    assert(rho2.len() + rhi.len() == m);
    assert(rho2 + rhi =~= rv);
    assert forall|i: int| 0 <= i < h0.len() implies #[trigger] h0[i] % q() == hh[i] % q() by {
        lemma_mod_twice(hh[i], q());
    }
    assert forall|i: int| 0 <= i < e0.len() implies #[trigger] e0[i] % q() == ee[i] % q() by {
        lemma_mod_twice(ee[i], q());
    }
    lemma_mle_mod(h0, hh, rhi, q());
    lemma_mle_mod(e0, ee, rhi, q());
    lemma_mle_restrict_lo(f, rho2, rhi);
    lemma_mle_restrict_lo(eqm, rho2, rhi);
    assert forall|i: int| 0 <= i < eqm.len() implies #[trigger] eqm[i] % q() == eq_table(av)[i] % q() by {
        lemma_mod_twice(eq_table(av)[i], q());
    }
    lemma_mle_mod(eqm, eq_table(av), rv, q());
    lemma_mle_eq_table(av, rv);
    let grv = Seq::new(m, |j: int| gp_r(log0, tr, j as nat));
    assert(grv =~= rv);
    assert(hm[0] == mle(f, rv) % q());
    assert(em[0] == eq_poly(av, rv) % q());
}

/// Completeness of the non-interactive group sum-check: on the challenges
/// and round messages that the prover returns for `sigma = f(alpha)`, every
/// round passes its check `g_j(0) + g_j(1) = claim`, and the last claim is
/// `eq(alpha, r) · f(r)` at the challenges `r`, so the verifier accepts.
pub proof fn law_noninteractive_complete(
    m: nat,
    l: nat,
    f_table: Seq<Pt>,
    alpha: Seq<Fr>,
    sigma: Pt,
    rv: Seq<int>,
    tr: Seq<[Pt; 3]>,
)
    requires
        1 <= l < m,
        f_table.len() == exp2(m),
        alpha.len() == m,
        sigma.log() == mle(lvals(f_table), lvals(alpha)) % q(),
        round_inverses_exist(lvals(alpha), l),
        np_prove_post(m, l, f_table, alpha, sigma, rv, tr),
    ensures
        ({
            let log0 = gs_init_log(m as u64, l as u64, alpha, sigma);
            &&& forall|j: int| 0 <= j < m ==> #[trigger] sg_round_ok(log0, tr, sigma.log(), j)
            &&& gv_final_ok(
                lvals(f_table),
                lvals(alpha),
                m,
                sg_prev_claim(log0, tr, sigma.log(), m as int),
                Seq::new(m, |j: int| gp_r(log0, tr, j as nat)),
            )
        }),
{
    law_noninteractive_table_rounds_pass(m, l, f_table, alpha, sigma, rv, tr);
    law_noninteractive_fold_rounds_pass(m, l, f_table, alpha, sigma, rv, tr);
    lemma_noninteractive_switch_round(m, l, f_table, alpha, sigma, rv, tr);
    lemma_noninteractive_final(m, l, f_table, alpha, sigma, rv, tr);
}

} // verus!
