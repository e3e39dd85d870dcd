//! Completeness of the field sum-check: on the honest prover's messages the
//! verifier accepts every round, and the claim it is left with is the
//! combining function at the tables folded to the challenges; and, for the
//! group sum-check, that the honest first round sums to the claim.
use vstd::prelude::*;
use vstd::arithmetic::div_mod::{
    lemma_small_mod, lemma_mod_twice, lemma_add_mod_noop, lemma_sub_mod_noop, lemma_mul_mod_noop_left,
    lemma_mul_mod_noop_right,
};
use crate::field::q;
use crate::snark_prover::{R1csCombine, ReduceCombine};
use vstd::arithmetic::div_mod::lemma_mul_mod_noop;
use crate::sums::{ssum, exp2, lemma_ssum_mod, lemma_ssum_add, lemma_ssum_scale, lemma_ssum_pairs, lemma_mul_mod_congruent};
use crate::utils::fprod;
use crate::mle::{fold_lo, seq_mod};
use crate::field_sumcheck::{
    CombineFn, IdentityCombine, ProductCombine, column, cube_sum, line_tables, round_tables, fold_seq,
    lagrange_eval, lag_num, lag_den, lag_num_factors, lag_den_factors, inverse_of, lemma_inverse_unique,
    sc_prev_claim, sc_round_fails, sc_challenge,
};
use crate::group_sumcheck::{inv2, sum_top, sum_top_times, sl_table, gi_value, gi_half, gi_weight, efac, eprod};
use crate::mle::{eq_at, mle};
use crate::field_sumcheck::is_inverse;
use crate::sums::{lemma_ssum_split, lemma_ssum_swap, lemma_ssum_blocks, lemma_exp2_adds, lemma_exp2_pos, lemma_ssum_single};

verus! {

/// Tables of `size` entries in `[0, q)`.
pub open spec fn reduced_tables(t: Seq<Seq<int>>, size: nat) -> bool {
    forall|p: int, b: int| 0 <= p < t.len() && 0 <= b < size ==> (#[trigger] t[p][b]) >= 0 && t[p][b] < q() && t[p].len()
        == size
}

/// The values `g(0) + g(1)` of a round polynomial add up to the sum over the
/// cube of its tables.
proof fn lemma_line_split<C: CombineFn>(comb: C, t: Seq<Seq<int>>, h: nat)
    requires
        forall|p: int| 0 <= p < t.len() ==> (#[trigger] t[p]).len() == 2 * h,
        reduced_tables(t, 2 * h),
    ensures
        cube_sum(comb, line_tables(t, 0), h) + cube_sum(comb, line_tables(t, 1), h) == cube_sum(comb, t, 2 * h),
{
    let s = Seq::new(2 * h, |b: int| comb.spec_combine(column(t, b)));
    let s0 = Seq::new(h, |b: int| comb.spec_combine(column(line_tables(t, 0), b)));
    let s1 = Seq::new(h, |b: int| comb.spec_combine(column(line_tables(t, 1), b)));
    let u = Seq::new(h, |b: int| s0[b] + s1[b]);
    assert forall|b: int| 0 <= b < h implies #[trigger] u[b] == s[2 * b] + s[2 * b + 1] by {
        assert(column(line_tables(t, 0), b) =~= column(t, 2 * b)) by {
            assert forall|p: int| 0 <= p < t.len() implies #[trigger] column(line_tables(t, 0), b)[p] == column(t, 2 * b)[p] by {
                assert(t[p].len() == 2 * h);
                assert(fold_lo(t[p], 0)[b] == t[p][2 * b] * (1 - 0) + t[p][2 * b + 1] * 0);
                assert(t[p][2 * b] >= 0 && t[p][2 * b] < q());
                lemma_small_mod(t[p][2 * b] as nat, q() as nat);
            }
        }
        assert(column(line_tables(t, 1), b) =~= column(t, 2 * b + 1)) by {
            assert forall|p: int| 0 <= p < t.len() implies #[trigger] column(line_tables(t, 1), b)[p] == column(t, 2 * b + 1)[p] by {
                assert(t[p].len() == 2 * h);
                assert(fold_lo(t[p], 1)[b] == t[p][2 * b] * (1 - 1) + t[p][2 * b + 1] * 1);
                assert(t[p][2 * b + 1] >= 0 && t[p][2 * b + 1] < q());
                lemma_small_mod(t[p][2 * b + 1] as nat, q() as nat);
            }
        }
    }
    lemma_ssum_pairs(s, u);
    lemma_ssum_add(u, s0, s1);
}

/// Fixing the first variables to `rho` and then one more to `x` is fixing
/// them to `rho` followed by `x`.
proof fn lemma_round_tables_push(tabs: Seq<Seq<int>>, rho: Seq<int>, x: int)
    ensures
        round_tables(tabs, rho.push(x)) == line_tables(round_tables(tabs, rho), x),
{
    assert forall|p: int| 0 <= p < tabs.len() implies #[trigger] round_tables(tabs, rho.push(x))[p] == line_tables(
        round_tables(tabs, rho),
        x,
    )[p] by {
        assert(rho.push(x).drop_last() =~= rho);
    }
    assert(round_tables(tabs, rho.push(x)) =~= line_tables(round_tables(tabs, rho), x));
}

/// Tables folded `k` times have `2^(n-k)` entries in `[0, q)`.
proof fn lemma_round_tables_shape(tabs: Seq<Seq<int>>, rho: Seq<int>, n: nat)
    requires
        rho.len() <= n,
        reduced_tables(tabs, exp2(n)),
        forall|p: int| 0 <= p < tabs.len() ==> (#[trigger] tabs[p]).len() == exp2(n),
    ensures
        forall|p: int| 0 <= p < tabs.len() ==> (#[trigger] round_tables(tabs, rho)[p]).len() == exp2((n - rho.len()) as nat),
        reduced_tables(round_tables(tabs, rho), exp2((n - rho.len()) as nat)),
    decreases rho.len(),
{
    if rho.len() > 0 {
        let r0 = rho.drop_last();
        lemma_round_tables_shape(tabs, r0, n);
        lemma_round_tables_push(tabs, r0, rho.last());
        assert(rho =~= r0.push(rho.last()));
        let k = (n - rho.len()) as nat;
        assert(exp2((n - r0.len()) as nat) == 2 * exp2(k));
        assert forall|p: int, b: int|
            0 <= p < tabs.len() && 0 <= b < exp2(k) implies (#[trigger] round_tables(tabs, rho)[p][b]) >= 0
            && round_tables(tabs, rho)[p][b] < q() && round_tables(tabs, rho)[p].len() == exp2(k) by {
            assert(round_tables(tabs, r0)[p].len() == 2 * exp2(k));
        }
        assert forall|p: int| 0 <= p < tabs.len() implies (#[trigger] round_tables(tabs, rho)[p]).len() == exp2(k) by {
            assert(round_tables(tabs, r0)[p].len() == 2 * exp2(k));
        }
    } else {
        assert forall|p: int| 0 <= p < tabs.len() implies #[trigger] round_tables(tabs, rho)[p] == tabs[p] by {}
        assert(round_tables(tabs, rho) =~= tabs);
    }
}


proof fn lemma_fprod2(a: int, b: int)
    ensures
        fprod(seq![a, b]) == a * b,
{
    assert(seq![a, b].drop_last() =~= seq![a]);
    assert(seq![a].drop_last() =~= Seq::<int>::empty());
    assert(fprod(Seq::<int>::empty()) == 1);
    assert(fprod(seq![a]) == 1 * a);
    assert(fprod(seq![a, b]) == fprod(seq![a]) * b);
}

proof fn lemma_fprod3(a: int, b: int, c: int)
    ensures
        fprod(seq![a, b, c]) == a * b * c,
{
    assert(seq![a, b, c].drop_last() =~= seq![a, b]);
    lemma_fprod2(a, b);
}

/// The Lagrange factors over the points `0, 1`.
proof fn lemma_lag2(x: int)
    ensures
        lag_num(2, 0, x) == x - 1,
        lag_den(2, 0) == -1,
        lag_num(2, 1, x) == x,
        lag_den(2, 1) == 1,
{
    assert(lag_num_factors(2, 0, x) =~= seq![1, x - 1]);
    assert(lag_den_factors(2, 0) =~= seq![1, -1]);
    assert(lag_num_factors(2, 1, x) =~= seq![x, 1]);
    assert(lag_den_factors(2, 1) =~= seq![1, 1]);
    lemma_fprod2(1, x - 1);
    lemma_fprod2(1, -1);
    lemma_fprod2(x, 1);
    lemma_fprod2(1, 1);
}

/// The Lagrange factors over the points `0, 1, 2`.
proof fn lemma_lag3(x: int)
    ensures
        lag_num(3, 0, x) == (x - 1) * (x - 2),
        lag_den(3, 0) == 2,
        lag_num(3, 1, x) == x * (x - 2),
        lag_den(3, 1) == -1,
        lag_num(3, 2, x) == x * (x - 1),
        lag_den(3, 2) == 2,
{
    assert(lag_num_factors(3, 0, x) =~= seq![1, x - 1, x - 2]);
    assert(lag_den_factors(3, 0) =~= seq![1, -1, -2]);
    assert(lag_num_factors(3, 1, x) =~= seq![x, 1, x - 2]);
    assert(lag_den_factors(3, 1) =~= seq![1, 1, -1]);
    assert(lag_num_factors(3, 2, x) =~= seq![x, x - 1, 1]);
    assert(lag_den_factors(3, 2) =~= seq![2, 1, 1]);
    lemma_fprod3(1, x - 1, x - 2);
    lemma_fprod3(1, -1, -2);
    lemma_fprod3(x, 1, x - 2);
    lemma_fprod3(1, 1, -1);
    lemma_fprod3(x, x - 1, 1);
    lemma_fprod3(2, 1, 1);
}

/// The inverses of `-1`, `1` and `2` modulo `q`.
proof fn lemma_small_inverses()
    ensures
        inverse_of(-1) == q() - 1,
        inverse_of(1) == 1,
        inverse_of(2) == inv2(),
{
    vstd::arithmetic::div_mod::lemma_mod_sub_multiples_vanish(1, q());
    lemma_small_mod(1, q() as nat);
    assert(-1 * (q() - 1) == -q() + 1);
    lemma_inverse_unique(-1, q() - 1);
    assert(1 * 1 == 1);
    lemma_inverse_unique(1, 1);
    vstd::arithmetic::div_mod::lemma_mod_add_multiples_vanish(1, q());
    assert(2 * inv2() == q() + 1);
    lemma_inverse_unique(2, inv2());
}

/// `Σ_t rounds[t] · L_t(x)` over two points, as the verifier computes it.
proof fn lemma_lagrange2(e0: int, e1: int, x: int)
    ensures
        lagrange_eval(seq![e0, e1], x) % q() == (e0 * (1 - x) + e1 * x) % q(),
{
    lemma_lag2(x);
    lemma_small_inverses();
    let terms = Seq::new(2, |i: int| seq![e0, e1][i] * lag_num(2, i, x) * inverse_of(lag_den(2, i)));
    assert(terms =~= seq![e0 * (x - 1) * (q() - 1), e1 * x * 1]);
    assert(ssum(terms) == e0 * (x - 1) * (q() - 1) + e1 * x) by {
        assert(terms.drop_last() =~= seq![e0 * (x - 1) * (q() - 1)]);
        assert(terms.drop_last().drop_last() =~= Seq::<int>::empty());
        assert(ssum(Seq::<int>::empty()) == 0);
        assert(ssum(terms.drop_last()) == 0 + e0 * (x - 1) * (q() - 1));
        assert(ssum(terms) == ssum(terms.drop_last()) + terms.last());
    }
    assert(e0 * (x - 1) * (q() - 1) == e0 * (1 - x) + (e0 * (x - 1)) * q()) by (nonlinear_arith);
    vstd::arithmetic::div_mod::lemma_mod_multiples_vanish(e0 * (x - 1), e0 * (1 - x) + e1 * x, q());
    assert(e0 * (x - 1) * (q() - 1) + e1 * x == q() * (e0 * (x - 1)) + (e0 * (1 - x) + e1 * x)) by (nonlinear_arith);
}


/// The round polynomial of tables `t` (each of `2h` entries) at `u`.
pub open spec fn round_poly<C: CombineFn>(comb: C, t: Seq<Seq<int>>, h: nat, u: int) -> int {
    cube_sum(comb, line_tables(t, u), h)
}

/// The values of the round polynomial at `0, 1, ..., d`, modulo `q`.
pub open spec fn round_values<C: CombineFn>(comb: C, t: Seq<Seq<int>>, h: nat, d: nat) -> Seq<int> {
    Seq::new(d + 1, |u: int| round_poly(comb, t, h, u) % q())
}

/// Whether interpolating the round polynomial from its values at
/// `0, ..., d` gives its value at `x`.
pub open spec fn interp_ok<C: CombineFn>(comb: C, t: Seq<Seq<int>>, h: nat, x: int, d: nat) -> bool {
    (forall|p: int| 0 <= p < t.len() ==> (#[trigger] t[p]).len() == 2 * h) && comb.accepts(t.len() as nat) ==> lagrange_eval(
        round_values(comb, t, h, d),
        x,
    ) % q() == round_poly(comb, t, h, x) % q()
}

/// For `G(a) = a_0` the round polynomial is `(1 - u) E + u O` modulo `q`,
/// with `E` and `O` the sums of the even and the odd entries of the first
/// table.
proof fn lemma_identity_round_poly(t: Seq<Seq<int>>, h: nat, u: int)
    requires
        t.len() >= 1,
        t[0].len() == 2 * h,
    ensures
        round_poly(IdentityCombine, t, h, u) % q() == ((1 - u) * ssum(Seq::new(h, |b: int| t[0][2 * b])) + u * ssum(
            Seq::new(h, |b: int| t[0][2 * b + 1]),
        )) % q(),
{
    let ev = Seq::new(h, |b: int| t[0][2 * b]);
    let od = Seq::new(h, |b: int| t[0][2 * b + 1]);
    let s1 = Seq::new(h, |b: int| IdentityCombine.spec_combine(column(line_tables(t, u), b)));
    let s2 = Seq::new(h, |b: int| t[0][2 * b] * (1 - u) + t[0][2 * b + 1] * u);
    let sa = Seq::new(h, |b: int| (1 - u) * ev[b]);
    let sb = Seq::new(h, |b: int| u * od[b]);
    assert forall|b: int| 0 <= b < h implies #[trigger] s1[b] % q() == s2[b] % q() by {
        assert(column(line_tables(t, u), b)[0] == seq_mod(fold_lo(t[0], u), q())[b]);
        lemma_mod_twice(s2[b], q());
    }
    lemma_ssum_mod(s1, s2, q());
    assert forall|b: int| 0 <= b < h implies #[trigger] s2[b] == sa[b] + sb[b] by {
        assert(t[0][2 * b] * (1 - u) == (1 - u) * t[0][2 * b]) by (nonlinear_arith);
        assert(t[0][2 * b + 1] * u == u * t[0][2 * b + 1]) by (nonlinear_arith);
    }
    lemma_ssum_add(s2, sa, sb);
    lemma_ssum_scale(sa, ev, 1 - u);
    lemma_ssum_scale(sb, od, u);
}

/// Interpolation recovers the round polynomial of `G(a) = a_0`.
proof fn lemma_identity_interp(t: Seq<Seq<int>>, h: nat, x: int)
    ensures
        interp_ok(IdentityCombine, t, h, x, 1),
{
    if (forall|p: int| 0 <= p < t.len() ==> (#[trigger] t[p]).len() == 2 * h) && IdentityCombine.accepts(t.len() as nat) {
        let e = ssum(Seq::new(h, |b: int| t[0][2 * b]));
        let o = ssum(Seq::new(h, |b: int| t[0][2 * b + 1]));
        assert(t[0].len() == 2 * h);
        lemma_identity_round_poly(t, h, 0);
        lemma_identity_round_poly(t, h, 1);
        lemma_identity_round_poly(t, h, x);
        let vals = round_values(IdentityCombine, t, h, 1);
        let e0 = vals[0];
        let e1 = vals[1];
        assert(vals =~= seq![e0, e1]);
        lemma_lagrange2(e0, e1, x);
        assert(e0 % q() == e % q()) by {
            lemma_mod_twice(round_poly(IdentityCombine, t, h, 0), q());
            assert((1 - 0) * e + 0 * o == e);
        }
        assert(e1 % q() == o % q()) by {
            lemma_mod_twice(round_poly(IdentityCombine, t, h, 1), q());
            assert((1 - 1) * e + 1 * o == o);
        }
        lemma_mul_mod_congruent(e0, e, 1 - x, q());
        lemma_mul_mod_congruent(e1, o, x, q());
        lemma_add_mod_noop(e0 * (1 - x), e1 * x, q());
        lemma_add_mod_noop(e * (1 - x), o * x, q());
        assert(e * (1 - x) == (1 - x) * e) by (nonlinear_arith);
        assert(o * x == x * o) by (nonlinear_arith);
    }
}


/// Whether `rounds` and `ch` are what the honest prover produces for the
/// tables `tabs` in `n` variables: round `j` holds the round polynomial of
/// the tables folded to the first `j` challenges at `0, ..., degree`, and
/// each challenge is drawn from the transcript of the rounds before it.
pub open spec fn honest_run<C: CombineFn>(
    comb: C,
    degree: nat,
    log0: Seq<crate::transcript::TranscriptEntry>,
    tabs: Seq<Seq<int>>,
    n: nat,
    rounds: Seq<Seq<int>>,
    ch: Seq<int>,
) -> bool {
    let claimed = cube_sum(comb, tabs, exp2(n)) % q();
    &&& rounds.len() == n
    &&& ch.len() == n
    &&& forall|j: int| 0 <= j < n ==> (#[trigger] rounds[j]).len() == degree + 1
    &&& forall|j: int, t: int|
        0 <= j < n && 0 <= t <= degree ==> #[trigger] rounds[j][t] == cube_sum(
            comb,
            line_tables(round_tables(tabs, ch.take(j)), t),
            exp2((n - j - 1) as nat),
        ) % q()
    &&& forall|j: int| 0 <= j < n ==> #[trigger] ch[j] == sc_challenge(log0, claimed, rounds, j as nat)
}

/// Along an honest run the claim the verifier holds before round `j` is the
/// sum over the cube of the tables folded to the first `j` challenges.
proof fn lemma_honest_claims<C: CombineFn>(
    comb: C,
    degree: nat,
    log0: Seq<crate::transcript::TranscriptEntry>,
    tabs: Seq<Seq<int>>,
    n: nat,
    rounds: Seq<Seq<int>>,
    ch: Seq<int>,
    j: nat,
)
    requires
        j <= n,
        comb.accepts(tabs.len() as nat),
        forall|p: int| 0 <= p < tabs.len() ==> (#[trigger] tabs[p]).len() == exp2(n),
        reduced_tables(tabs, exp2(n)),
        honest_run(comb, degree, log0, tabs, n, rounds, ch),
        forall|tt: Seq<Seq<int>>, hh: nat, x: int| #[trigger] interp_ok(comb, tt, hh, x, degree),
    ensures
        sc_prev_claim(log0, cube_sum(comb, tabs, exp2(n)) % q(), rounds, j) == cube_sum(
            comb,
            round_tables(tabs, ch.take(j as int)),
            exp2((n - j) as nat),
        ) % q(),
    decreases j,
{
    let claimed = cube_sum(comb, tabs, exp2(n)) % q();
    if j == 0 {
        lemma_round_tables_shape(tabs, ch.take(0), n);
        assert(round_tables(tabs, ch.take(0)) =~= tabs) by {
            assert forall|p: int| 0 <= p < tabs.len() implies #[trigger] round_tables(tabs, ch.take(0))[p] == tabs[p] by {}
        }
    } else {
        let i = (j - 1) as nat;
        lemma_honest_claims(comb, degree, log0, tabs, n, rounds, ch, i);
        let ti = round_tables(tabs, ch.take(i as int));
        let h = exp2((n - j) as nat);
        lemma_round_tables_shape(tabs, ch.take(i as int), n);
        assert(exp2((n - i) as nat) == 2 * h);
        assert(rounds[i as int] =~= round_values(comb, ti, h, degree));
        assert(ti.len() == tabs.len());
        assert(interp_ok(comb, ti, h, ch[i as int], degree));
        assert(ch.take(j as int) =~= ch.take(i as int).push(ch[i as int]));
        lemma_round_tables_push(tabs, ch.take(i as int), ch[i as int]);
    }
}

/// Completeness along an honest run, for a combining function whose round
/// polynomials interpolation recovers.
proof fn lemma_honest_accepts<C: CombineFn>(
    comb: C,
    degree: nat,
    log0: Seq<crate::transcript::TranscriptEntry>,
    tabs: Seq<Seq<int>>,
    n: nat,
    rounds: Seq<Seq<int>>,
    ch: Seq<int>,
)
    requires
        comb.accepts(tabs.len() as nat),
        forall|p: int| 0 <= p < tabs.len() ==> (#[trigger] tabs[p]).len() == exp2(n),
        reduced_tables(tabs, exp2(n)),
        honest_run(comb, degree, log0, tabs, n, rounds, ch),
        degree >= 1,
        forall|tt: Seq<Seq<int>>, hh: nat, x: int| #[trigger] interp_ok(comb, tt, hh, x, degree),
    ensures
        forall|j: int| 0 <= j < n ==> !#[trigger] sc_round_fails(log0, cube_sum(comb, tabs, exp2(n)) % q(), rounds, degree, j),
        sc_prev_claim(log0, cube_sum(comb, tabs, exp2(n)) % q(), rounds, n) == cube_sum(comb, round_tables(tabs, ch), 1)
            % q(),
{
    let claimed = cube_sum(comb, tabs, exp2(n)) % q();
    assert forall|j: int| 0 <= j < n implies !#[trigger] sc_round_fails(log0, claimed, rounds, degree, j) by {
        lemma_honest_claims(comb, degree, log0, tabs, n, rounds, ch, j as nat);
        let tj = round_tables(tabs, ch.take(j));
        let h = exp2((n - j - 1) as nat);
        lemma_round_tables_shape(tabs, ch.take(j), n);
        assert(exp2((n - j) as nat) == 2 * h);
        lemma_line_split(comb, tj, h);
        assert(rounds[j][0] == round_poly(comb, tj, h, 0) % q());
        assert(rounds[j][1] == round_poly(comb, tj, h, 1) % q());
        lemma_add_mod_noop(round_poly(comb, tj, h, 0), round_poly(comb, tj, h, 1), q());
    }
    lemma_honest_claims(comb, degree, log0, tabs, n, rounds, ch, n);
    assert(ch.take(n as int) =~= ch);
    assert(exp2(0) == 1);
}

/// Completeness of the sum-check for any combining function whose round
/// polynomials have degree at most `degree`, in the sense that interpolation
/// from their values at `0, ..., degree` gives them back: on the honest
/// prover's rounds and challenges for tables with entries in `[0, q)`, the
/// verifier fails no round, and the claim it is left with is the function
/// at the tables folded to the challenges.
pub proof fn law_sumcheck_complete<C: CombineFn>(
    comb: C,
    degree: nat,
    log0: Seq<crate::transcript::TranscriptEntry>,
    tabs: Seq<Seq<int>>,
    n: nat,
    rounds: Seq<Seq<int>>,
    ch: Seq<int>,
)
    requires
        comb.accepts(tabs.len() as nat),
        forall|p: int| 0 <= p < tabs.len() ==> (#[trigger] tabs[p]).len() == exp2(n),
        reduced_tables(tabs, exp2(n)),
        honest_run(comb, degree, log0, tabs, n, rounds, ch),
        degree >= 1,
        forall|tt: Seq<Seq<int>>, hh: nat, x: int| #[trigger] interp_ok(comb, tt, hh, x, degree),
    ensures
        forall|j: int| 0 <= j < n ==> !#[trigger] sc_round_fails(log0, cube_sum(comb, tabs, exp2(n)) % q(), rounds, degree, j),
        sc_prev_claim(log0, cube_sum(comb, tabs, exp2(n)) % q(), rounds, n) == cube_sum(comb, round_tables(tabs, ch), 1)
            % q(),
{
    lemma_honest_accepts(comb, degree, log0, tabs, n, rounds, ch);
}

/// Completeness of the sum-check for `G(a) = a_0`: on the honest prover's
/// rounds and challenges for tables with entries in `[0, q)`, the verifier
/// fails no round, and the claim it is left with is the first table folded
/// to the challenges.
pub proof fn law_identity_sumcheck_complete(
    log0: Seq<crate::transcript::TranscriptEntry>,
    tabs: Seq<Seq<int>>,
    n: nat,
    rounds: Seq<Seq<int>>,
    ch: Seq<int>,
)
    requires
        tabs.len() >= 1,
        forall|p: int| 0 <= p < tabs.len() ==> (#[trigger] tabs[p]).len() == exp2(n),
        reduced_tables(tabs, exp2(n)),
        honest_run(IdentityCombine, 1, log0, tabs, n, rounds, ch),
    ensures
        forall|j: int|
            0 <= j < n ==> !#[trigger] sc_round_fails(log0, cube_sum(IdentityCombine, tabs, exp2(n)) % q(), rounds, 1, j),
        sc_prev_claim(log0, cube_sum(IdentityCombine, tabs, exp2(n)) % q(), rounds, n) == round_tables(tabs, ch)[0][0]
            % q(),
{
    assert forall|tt: Seq<Seq<int>>, hh: nat, x: int| #[trigger] interp_ok(IdentityCombine, tt, hh, x, 1) by {
        lemma_identity_interp(tt, hh, x);
    }
    lemma_honest_accepts(IdentityCombine, 1, log0, tabs, n, rounds, ch);
    let s = Seq::new(1, |b: int| IdentityCombine.spec_combine(column(round_tables(tabs, ch), b)));
    assert(s.drop_last() =~= Seq::<int>::empty());
    assert(ssum(Seq::<int>::empty()) == 0);
    assert(ssum(s) == ssum(s.drop_last()) + s.last());
    assert(ssum(s) == s[0]);
    assert(s[0] == column(round_tables(tabs, ch), 0)[0]);
}


/// `Σ_t values[t] · L_t(x)` over the points `0, 1, 2`, term by term.
proof fn lemma_lagrange3(e0: int, e1: int, e2: int, x: int)
    ensures
        lagrange_eval(seq![e0, e1, e2], x) == e0 * ((x - 1) * (x - 2)) * inv2() + e1 * (x * (x - 2)) * (q() - 1) + e2 * (
        x * (x - 1)) * inv2(),
{
    lemma_lag3(x);
    lemma_small_inverses();
    let terms = Seq::new(3, |i: int| seq![e0, e1, e2][i] * lag_num(3, i, x) * inverse_of(lag_den(3, i)));
    let a = e0 * ((x - 1) * (x - 2)) * inv2();
    let b = e1 * (x * (x - 2)) * (q() - 1);
    let c = e2 * (x * (x - 1)) * inv2();
    assert(terms =~= seq![a, b, c]);
    assert(terms.drop_last() =~= seq![a, b]);
    assert(terms.drop_last().drop_last() =~= seq![a]);
    assert(terms.drop_last().drop_last().drop_last() =~= Seq::<int>::empty());
    assert(ssum(Seq::<int>::empty()) == 0);
    assert(ssum(seq![a]) == a) by {
        assert(ssum(seq![a]) == ssum(seq![a].drop_last()) + a);
    }
    assert(ssum(seq![a, b]) == a + b) by {
        assert(ssum(seq![a, b]) == ssum(seq![a, b].drop_last()) + b);
    }
    assert(ssum(terms) == ssum(terms.drop_last()) + c);
}

/// Interpolating a quadratic from its values at `0, 1, 2`, with the
/// denominators cleared.
pub(crate) proof fn lemma_quad_interp(c0: int, c1: int, c2: int, x: int)
    ensures
        (c0 + c1 * 0 + c2 * 0 * 0) * ((x - 1) * (x - 2)) - 2 * (c0 + c1 * 1 + c2 * 1 * 1) * (x * (x - 2)) + (c0 + c1 * 2
            + c2 * 2 * 2) * (x * (x - 1)) == 2 * (c0 + c1 * x + c2 * x * x),
{
    let xx = x * x;
    let a = (x - 1) * (x - 2);
    let b = x * (x - 2);
    let c = x * (x - 1);
    assert(a == xx - 3 * x + 2) by (nonlinear_arith)
        requires
            a == (x - 1) * (x - 2),
            xx == x * x,
    ;
    assert(b == xx - 2 * x) by (nonlinear_arith)
        requires
            b == x * (x - 2),
            xx == x * x,
    ;
    assert(c == xx - x) by (nonlinear_arith)
        requires
            c == x * (x - 1),
            xx == x * x,
    ;
    let q0 = c0 + c1 * 0 + c2 * 0 * 0;
    let q1 = c0 + c1 * 1 + c2 * 1 * 1;
    let q2 = c0 + c1 * 2 + c2 * 2 * 2;
    assert(q0 == c0);
    assert(q1 == c0 + c1 + c2);
    assert(q2 == c0 + 2 * c1 + 4 * c2);
    assert(q1 * b == c0 * b + c1 * b + c2 * b) by (nonlinear_arith)
        requires
            q1 == c0 + c1 + c2,
    ;
    assert(q2 * c == c0 * c + 2 * (c1 * c) + 4 * (c2 * c)) by (nonlinear_arith)
        requires
            q2 == c0 + 2 * c1 + 4 * c2,
    ;
    assert(c0 * a - 2 * (c0 * b) + c0 * c == c0 * (a - 2 * b + c)) by (nonlinear_arith);
    assert(-2 * (c1 * b) + 2 * (c1 * c) == c1 * (-2 * b + 2 * c)) by (nonlinear_arith);
    assert(-2 * (c2 * b) + 4 * (c2 * c) == c2 * (-2 * b + 4 * c)) by (nonlinear_arith);
    assert(a - 2 * b + c == 2);
    assert(-2 * b + 2 * c == 2 * x);
    assert(-2 * b + 4 * c == 2 * xx);
    assert(c1 * (2 * x) == 2 * (c1 * x)) by (nonlinear_arith);
    assert(c2 * (2 * xx) == 2 * (c2 * x * x)) by (nonlinear_arith)
        requires
            xx == x * x,
    ;
    assert(2 * q1 * b == 2 * (q1 * b)) by (nonlinear_arith);
    assert(q0 * a == c0 * a);
    assert(q0 * a - 2 * q1 * b + q2 * c == (c0 * a - 2 * (c0 * b) + c0 * c) + (-2 * (c1 * b) + 2 * (c1 * c)) + (-2 * (c2
        * b) + 4 * (c2 * c)));
    assert(c0 * (a - 2 * b + c) == c0 * 2);
    assert(q0 * a - 2 * q1 * b + q2 * c == c0 * 2 + 2 * (c1 * x) + 2 * (c2 * x * x));
}

/// If `2 (X - F)` is a multiple of `q` then `X` and `F` agree modulo `q`.
pub(crate) proof fn lemma_halve_congruence(xx: int, ff: int, k: int)
    requires
        2 * (xx - ff) == q() * k,
    ensures
        xx % q() == ff % q(),
{
    let y = xx - ff;
    let i2 = inv2();
    assert(2 * i2 == q() + 1);
    assert(y == q() * (k * i2 - y)) by (nonlinear_arith)
        requires
            2 * y == q() * k,
            2 * i2 == q() + 1,
    ;
    vstd::arithmetic::div_mod::lemma_mod_multiples_vanish(k * i2 - y, ff, q());
}

/// The product of two lines, as a quadratic in `u`.
proof fn lemma_line_product(a0: int, a1: int, b0: int, b1: int, u: int)
    ensures
        (a0 * (1 - u) + a1 * u) * (b0 * (1 - u) + b1 * u) == a0 * b0 + (a0 * (b1 - b0) + b0 * (a1 - a0)) * u + ((a1 - a0) * (
        b1 - b0)) * u * u,
{
    let da = a1 - a0;
    let db = b1 - b0;
    assert(a0 * (1 - u) + a1 * u == a0 + da * u) by (nonlinear_arith)
        requires
            da == a1 - a0,
    ;
    assert(b0 * (1 - u) + b1 * u == b0 + db * u) by (nonlinear_arith)
        requires
            db == b1 - b0,
    ;
    let p = da * u;
    let r = db * u;
    assert((a0 + p) * (b0 + r) == a0 * b0 + a0 * r + p * b0 + p * r) by (nonlinear_arith);
    assert(a0 * r == (a0 * db) * u) by (nonlinear_arith)
        requires
            r == db * u,
    ;
    assert(p * b0 == (b0 * da) * u) by (nonlinear_arith)
        requires
            p == da * u,
    ;
    assert(p * r == (da * db) * u * u) by (nonlinear_arith)
        requires
            p == da * u,
            r == db * u,
    ;
    assert((a0 * db) * u + (b0 * da) * u == (a0 * db + b0 * da) * u) by (nonlinear_arith);
}


/// The constant coefficients `a0 b0` of the products of the lines of the
/// first two tables.
pub open spec fn prod_c0(t: Seq<Seq<int>>, h: nat) -> Seq<int> {
    Seq::new(h, |b: int| t[0][2 * b] * t[1][2 * b])
}

/// The linear coefficients `a0 (b1 - b0) + b0 (a1 - a0)`.
pub open spec fn prod_c1(t: Seq<Seq<int>>, h: nat) -> Seq<int> {
    Seq::new(
        h,
        |b: int| t[0][2 * b] * (t[1][2 * b + 1] - t[1][2 * b]) + t[1][2 * b] * (t[0][2 * b + 1] - t[0][2 * b]),
    )
}

/// The quadratic coefficients `(a1 - a0) (b1 - b0)`.
pub open spec fn prod_c2(t: Seq<Seq<int>>, h: nat) -> Seq<int> {
    Seq::new(h, |b: int| (t[0][2 * b + 1] - t[0][2 * b]) * (t[1][2 * b + 1] - t[1][2 * b]))
}

/// For `G(a) = a_0 a_1` the round polynomial is a quadratic in `u` modulo `q`.
proof fn lemma_product_round_poly(t: Seq<Seq<int>>, h: nat, u: int)
    requires
        t.len() >= 2,
        t[0].len() == 2 * h,
        t[1].len() == 2 * h,
    ensures
        round_poly(ProductCombine, t, h, u) % q() == (ssum(prod_c0(t, h)) + ssum(prod_c1(t, h)) * u + ssum(prod_c2(t, h))
            * u * u) % q(),
{
    let c0 = prod_c0(t, h);
    let c1 = prod_c1(t, h);
    let c2 = prod_c2(t, h);
    let s1 = Seq::new(h, |b: int| ProductCombine.spec_combine(column(line_tables(t, u), b)));
    let s2 = Seq::new(
        h,
        |b: int| (t[0][2 * b] * (1 - u) + t[0][2 * b + 1] * u) * (t[1][2 * b] * (1 - u) + t[1][2 * b + 1] * u),
    );
    let sb = Seq::new(h, |b: int| u * c1[b]);
    let sc = Seq::new(h, |b: int| (u * u) * c2[b]);
    let sbc = Seq::new(h, |b: int| sb[b] + sc[b]);
    assert forall|b: int| 0 <= b < h implies #[trigger] s1[b] % q() == s2[b] % q() by {
        let la = t[0][2 * b] * (1 - u) + t[0][2 * b + 1] * u;
        let lb = t[1][2 * b] * (1 - u) + t[1][2 * b + 1] * u;
        assert(column(line_tables(t, u), b)[0] == la % q());
        assert(column(line_tables(t, u), b)[1] == lb % q());
        vstd::arithmetic::div_mod::lemma_mul_mod_noop(la, lb, q());
    }
    lemma_ssum_mod(s1, s2, q());
    assert forall|b: int| 0 <= b < h implies #[trigger] s2[b] == c0[b] + sbc[b] by {
        lemma_line_product(t[0][2 * b], t[0][2 * b + 1], t[1][2 * b], t[1][2 * b + 1], u);
        assert(c1[b] * u == u * c1[b]) by (nonlinear_arith);
        assert(c2[b] * u * u == (u * u) * c2[b]) by (nonlinear_arith);
    }
    lemma_ssum_add(s2, c0, sbc);
    lemma_ssum_add(sbc, sb, sc);
    lemma_ssum_scale(sb, c1, u);
    lemma_ssum_scale(sc, c2, u * u);
    assert(u * ssum(c1) == ssum(c1) * u) by (nonlinear_arith);
    assert((u * u) * ssum(c2) == ssum(c2) * u * u) by (nonlinear_arith);
}

/// Interpolation recovers the round polynomial of `G(a) = a_0 a_1`.
proof fn lemma_product_interp(t: Seq<Seq<int>>, h: nat, x: int)
    ensures
        interp_ok(ProductCombine, t, h, x, 2),
{
    if (forall|p: int| 0 <= p < t.len() ==> (#[trigger] t[p]).len() == 2 * h) && ProductCombine.accepts(t.len() as nat) {
        assert(t[0].len() == 2 * h);
        assert(t[1].len() == 2 * h);
        let k0 = ssum(prod_c0(t, h));
        let k1 = ssum(prod_c1(t, h));
        let k2 = ssum(prod_c2(t, h));
        let f0 = k0 + k1 * 0 + k2 * 0 * 0;
        let f1 = k0 + k1 * 1 + k2 * 1 * 1;
        let f2 = k0 + k1 * 2 + k2 * 2 * 2;
        let fx = k0 + k1 * x + k2 * x * x;
        lemma_product_round_poly(t, h, 0);
        lemma_product_round_poly(t, h, 1);
        lemma_product_round_poly(t, h, 2);
        lemma_product_round_poly(t, h, x);
        let vals = round_values(ProductCombine, t, h, 2);
        let e0 = vals[0];
        let e1 = vals[1];
        let e2 = vals[2];
        assert(vals =~= seq![e0, e1, e2]);
        lemma_lagrange3(e0, e1, e2, x);
        lemma_mod_twice(round_poly(ProductCombine, t, h, 0), q());
        lemma_mod_twice(round_poly(ProductCombine, t, h, 1), q());
        lemma_mod_twice(round_poly(ProductCombine, t, h, 2), q());
        assert(e0 % q() == f0 % q());
        assert(e1 % q() == f1 % q());
        assert(e2 % q() == f2 % q());
        let n0 = (x - 1) * (x - 2);
        let n1 = x * (x - 2);
        let n2 = x * (x - 1);
        let i2 = inv2();
        // the values may be replaced by the quadratic's values modulo q
        lemma_mul_mod_congruent(e0, f0, n0, q());
        lemma_mul_mod_congruent(e0 * n0, f0 * n0, i2, q());
        lemma_mul_mod_congruent(e1, f1, n1, q());
        lemma_mul_mod_congruent(e1 * n1, f1 * n1, q() - 1, q());
        lemma_mul_mod_congruent(e2, f2, n2, q());
        lemma_mul_mod_congruent(e2 * n2, f2 * n2, i2, q());
        let a = e0 * n0 * i2;
        let b = e1 * n1 * (q() - 1);
        let c = e2 * n2 * i2;
        let a2 = f0 * n0 * i2;
        let b2 = f1 * n1 * (q() - 1);
        let c2 = f2 * n2 * i2;
        lemma_add_mod_noop(a, b, q());
        lemma_add_mod_noop(a2, b2, q());
        assert((a + b) % q() == (a2 + b2) % q());
        lemma_add_mod_noop(a + b, c, q());
        lemma_add_mod_noop(a2 + b2, c2, q());
        assert((a + b + c) % q() == (a2 + b2 + c2) % q());
        // clearing the denominators: 2 X = q K + 2 f(x)
        lemma_quad_interp(k0, k1, k2, x);
        let p0 = f0 * n0;
        let p1 = f1 * n1;
        let p2 = f2 * n2;
        assert(p0 - 2 * p1 + p2 == 2 * fx) by (nonlinear_arith)
            requires
                p0 == f0 * n0,
                p1 == f1 * n1,
                p2 == f2 * n2,
                f0 * n0 - 2 * f1 * n1 + f2 * n2 == 2 * fx,
        ;
        assert(2 * i2 == q() + 1);
        assert(2 * ((a2 + b2 + c2) - fx) == q() * (p0 + 2 * p1 + p2)) by (nonlinear_arith)
            requires
                a2 == p0 * i2,
                b2 == p1 * (q() - 1),
                c2 == p2 * i2,
                2 * i2 == q() + 1,
                p0 - 2 * p1 + p2 == 2 * fx,
        ;
        lemma_halve_congruence(a2 + b2 + c2, fx, p0 + 2 * p1 + p2);
    }
}

/// Completeness of the sum-check for `G(a) = a_0 a_1`: on the honest
/// prover's rounds and challenges for two or more tables with entries in
/// `[0, q)`, the verifier fails no round, and the claim it is left with is
/// the product of the first two tables folded to the challenges.
pub proof fn law_product_sumcheck_complete(
    log0: Seq<crate::transcript::TranscriptEntry>,
    tabs: Seq<Seq<int>>,
    n: nat,
    rounds: Seq<Seq<int>>,
    ch: Seq<int>,
)
    requires
        tabs.len() >= 2,
        forall|p: int| 0 <= p < tabs.len() ==> (#[trigger] tabs[p]).len() == exp2(n),
        reduced_tables(tabs, exp2(n)),
        honest_run(ProductCombine, 2, log0, tabs, n, rounds, ch),
    ensures
        forall|j: int|
            0 <= j < n ==> !#[trigger] sc_round_fails(log0, cube_sum(ProductCombine, tabs, exp2(n)) % q(), rounds, 2, j),
        sc_prev_claim(log0, cube_sum(ProductCombine, tabs, exp2(n)) % q(), rounds, n) == (round_tables(tabs, ch)[0][0]
            * round_tables(tabs, ch)[1][0]) % q(),
{
    assert forall|tt: Seq<Seq<int>>, hh: nat, x: int| #[trigger] interp_ok(ProductCombine, tt, hh, x, 2) by {
        lemma_product_interp(tt, hh, x);
    }
    lemma_honest_accepts(ProductCombine, 2, log0, tabs, n, rounds, ch);
    let s = Seq::new(1, |b: int| ProductCombine.spec_combine(column(round_tables(tabs, ch), b)));
    assert(s.drop_last() =~= Seq::<int>::empty());
    assert(ssum(Seq::<int>::empty()) == 0);
    assert(ssum(s) == ssum(s.drop_last()) + s.last());
    assert(ssum(s) == s[0]);
    assert(column(round_tables(tabs, ch), 0)[0] == round_tables(tabs, ch)[0][0]);
    assert(column(round_tables(tabs, ch), 0)[1] == round_tables(tabs, ch)[1][0]);
}


/// Summing out the last variable keeps the total.
proof fn lemma_sum_top_total(c: Seq<int>)
    requires
        c.len() % 2 == 0,
    ensures
        ssum(sum_top(c)) == ssum(c),
{
    let h = (c.len() / 2) as int;
    lemma_ssum_split(c, h);
    lemma_ssum_add(sum_top(c), c.take(h), c.skip(h));
}

/// Summing out the last `i` variables keeps the total modulo `q`.
pub(crate) proof fn lemma_sum_top_times_total(c: Seq<int>, k: nat, i: nat)
    requires
        c.len() == exp2(k),
        i <= k,
    ensures
        sum_top_times(c, i).len() == exp2((k - i) as nat),
        ssum(sum_top_times(c, i)) % q() == ssum(c) % q(),
    decreases i,
{
    if i > 0 {
        lemma_sum_top_times_total(c, k, (i - 1) as nat);
        let prev = sum_top_times(c, (i - 1) as nat);
        let kk = (k - i + 1) as nat;
        assert(exp2(kk) == 2 * exp2((kk - 1) as nat));
        lemma_sum_top_total(prev);
        let t = sum_top(prev);
        assert forall|j: int| 0 <= j < t.len() implies #[trigger] seq_mod(t, q())[j] % q() == t[j] % q() by {
            lemma_mod_twice(t[j], q());
        }
        lemma_ssum_mod(seq_mod(t, q()), t, q());
    }
}

/// The partial sums `S_l` add up to the value of the polynomial at `alpha`.
proof fn lemma_sl_total(f: Seq<int>, av: Seq<int>, l: nat)
    requires
        f.len() == exp2(av.len()),
        l <= av.len(),
    ensures
        ssum(sl_table(f, av, l)) == mle(f, av),
{
    let n = av.len();
    let h = exp2(l) as int;
    let w = exp2((n - l) as nat) as int;
    lemma_exp2_adds((n - l) as nat, l);
    assert((n - l) as nat + l == n);
    lemma_exp2_pos(l);
    lemma_exp2_pos((n - l) as nat);
    let ff = Seq::new(exp2(n), |i: int| f[i] * eq_at(av, i));
    let mm = Seq::new(h as nat, |b: int| Seq::new(w as nat, |x: int| ff[x * h + b]));
    assert forall|b: int| 0 <= b < h implies #[trigger] sl_table(f, av, l)[b] == ssum(mm[b]) by {
        assert forall|x: int| 0 <= x < w implies #[trigger] mm[b][x] == f[x * h + b] * eq_at(av, x * h + b) by {
            assert(x * h + b < w * h) by (nonlinear_arith)
                requires
                    0 <= x < w,
                    0 <= b < h,
            ;
        }
        assert(mm[b] =~= Seq::new(w as nat, |x: int| f[x * h + b] * eq_at(av, x * h + b)));
    }
    assert(sl_table(f, av, l) =~= Seq::new(mm.len(), |b: int| ssum(mm[b])));
    lemma_ssum_swap(mm, w);
    let cols = Seq::new(w as nat, |x: int| ssum(Seq::new(mm.len(), |b: int| mm[b][x])));
    assert forall|x: int| 0 <= x < w implies #[trigger] cols[x] == ssum(ff.subrange(x * h, x * h + h)) by {
        assert(x * h + h <= w * h) by (nonlinear_arith)
            requires
                0 <= x < w,
                h >= 0,
        ;
        assert(Seq::new(mm.len(), |b: int| mm[b][x]) =~= ff.subrange(x * h, x * h + h));
    }
    lemma_ssum_blocks(ff, cols, h);
}

/// The values at `0` and `1` of the first round computed from a table `S`
/// of `2^l` entries (with its last `l - 1` variables summed out) add up to
/// the total of `S` modulo `q`.
proof fn lemma_first_round_total(slm: Seq<int>, av: Seq<int>, l: nat)
    requires
        slm.len() == exp2(l),
        1 <= l <= av.len(),
        exists|y: int| #[trigger] is_inverse(1 - av[0], y),
        exists|y: int| #[trigger] is_inverse(av[0], y),
    ensures
        ({
            let s1 = sum_top_times(slm, (l - 1) as nat);
            (gi_value(s1, av, Seq::empty(), 0) + gi_value(s1, av, Seq::empty(), 1)) % q() == ssum(slm) % q()
        }),
{
    let s1 = sum_top_times(slm, (l - 1) as nat);
    lemma_sum_top_times_total(slm, l, (l - 1) as nat);
    assert(((l - (l - 1)) as nat) == 1nat);
    assert(exp2(1) == 2) by {
        assert(exp2(1) == 2 * exp2(0));
    }
    assert(s1.len() == 2);
    // ssum of two entries
    assert(s1.drop_last().drop_last().len() == 0);
    assert(ssum(s1) == s1[0] + s1[1]) by {
        assert(ssum(s1.drop_last()) == ssum(s1.drop_last().drop_last()) + s1.drop_last().last());
    }
    // the round's weights and factors
    let e: Seq<int> = Seq::empty();
    lemma_small_mod(1, q() as nat);
    lemma_inverse_unique(1, 1);
    assert(eq_at(e, 0) == 1);
    assert(av.take(0) =~= e);
    assert(gi_weight(av, e, 0) == 1);
    assert(exp2(0) == 1);
    let z0 = Seq::new(exp2(e.len()), |b: int| s1[0 + b] * gi_weight(av, e, b));
    let z1 = Seq::new(exp2(e.len()), |b: int| s1[1 + b] * gi_weight(av, e, b));
    lemma_ssum_single(z0);
    lemma_ssum_single(z1);
    assert(gi_half(s1, av, e, 0) == s1[0]);
    assert(gi_half(s1, av, e, 1) == s1[1]);
    let a0 = av[0];
    let i0 = inverse_of(1 - a0);
    let i1 = inverse_of(a0);
    let y0 = choose|y: int| #[trigger] is_inverse(1 - a0, y);
    let y1 = choose|y: int| #[trigger] is_inverse(a0, y);
    lemma_inverse_unique(1 - a0, y0);
    lemma_inverse_unique(a0, y1);
    assert(eprod(av, e, 0) == 1);
    assert(efac(a0, 0) == 1 - a0);
    assert(efac(a0, 1) == a0);
    let (x0, x1) = (s1[0], s1[1]);
    let g0 = gi_value(s1, av, e, 0);
    let g1 = gi_value(s1, av, e, 1);
    assert(g0 == (x0 * ((1 - 0) * i0 * ((1 - a0) * 1)) + x1 * (0 * i1 * ((1 - a0) * 1))) % q());
    assert(g1 == (x0 * ((1 - 1) * i0 * (a0 * 1)) + x1 * (1 * i1 * (a0 * 1))) % q());
    assert(x0 * ((1 - 0) * i0 * ((1 - a0) * 1)) + x1 * (0 * i1 * ((1 - a0) * 1)) == x0 * (i0 * (1 - a0))) by (nonlinear_arith);
    assert(x0 * ((1 - 1) * i0 * (a0 * 1)) + x1 * (1 * i1 * (a0 * 1)) == x1 * (i1 * a0)) by (nonlinear_arith);
    assert(i0 * (1 - a0) == (1 - a0) * i0) by (nonlinear_arith);
    assert(i1 * a0 == a0 * i1) by (nonlinear_arith);
    lemma_mul_mod_noop_right(x0, i0 * (1 - a0), q());
    lemma_mul_mod_noop_right(x1, i1 * a0, q());
    assert((x0 * (i0 * (1 - a0))) % q() == x0 % q()) by {
        assert(x0 * 1 == x0);
    }
    assert((x1 * (i1 * a0)) % q() == x1 % q()) by {
        assert(x1 * 1 == x1);
    }
    lemma_add_mod_noop(g0, g1, q());
    lemma_mod_twice(x0 * (i0 * (1 - a0)), q());
    lemma_add_mod_noop(x0, x1, q());
}

/// The first round of the honest group sum-check sums to the claim: its
/// values at `0` and `1`, computed from `S_1` with the inverses of
/// `1 - alpha_0` and `alpha_0`, add up modulo `q` to `f(alpha)`, for `S_1`
/// obtained from `S_l` by summing out its last `l - 1` variables.
pub proof fn law_group_first_round_sums_to_claim(f: Seq<int>, av: Seq<int>, l: nat)
    requires
        f.len() == exp2(av.len()),
        1 <= l <= av.len(),
        exists|y: int| #[trigger] is_inverse(1 - av[0], y),
        exists|y: int| #[trigger] is_inverse(av[0], y),
    ensures
        ({
            let s1 = sum_top_times(seq_mod(sl_table(f, av, l), q()), (l - 1) as nat);
            (gi_value(s1, av, Seq::empty(), 0) + gi_value(s1, av, Seq::empty(), 1)) % q() == mle(f, av) % q()
        }),
{
    let sl = sl_table(f, av, l);
    let slm = seq_mod(sl, q());
    assert forall|j: int| 0 <= j < slm.len() implies #[trigger] slm[j] % q() == sl[j] % q() by {
        lemma_mod_twice(sl[j], q());
    }
    lemma_ssum_mod(slm, sl, q());
    lemma_sl_total(f, av, l);
    lemma_first_round_total(slm, av, l);
}

/// The first round of the honest batched group sum-check sums to the
/// batched claim: computed from `Σ_i γ^i S_l(f_i)`, its values at `0` and
/// `1` add up modulo `q` to `Σ_i γ^i f_i(alpha)`.
pub proof fn law_group_batch_first_round_sums_to_claim(fs: Seq<Seq<int>>, av: Seq<int>, l: nat, gamma: int)
    requires
        forall|i: int| 0 <= i < fs.len() ==> (#[trigger] fs[i]).len() == exp2(av.len()),
        1 <= l <= av.len(),
        exists|y: int| #[trigger] is_inverse(1 - av[0], y),
        exists|y: int| #[trigger] is_inverse(av[0], y),
    ensures
        ({
            let tabs = Seq::new(fs.len(), |i: int| seq_mod(sl_table(fs[i], av, l), q()));
            let s1 = sum_top_times(crate::sumcheck::sg_comb(tabs, gamma, exp2(l)), (l - 1) as nat);
            (gi_value(s1, av, Seq::empty(), 0) + gi_value(s1, av, Seq::empty(), 1)) % q()
                == crate::pcs::gamma_sum(Seq::new(fs.len(), |i: int| mle(fs[i], av)), gamma) % q()
        }),
{
    let k = fs.len();
    let n = exp2(l);
    let tabs = Seq::new(k, |i: int| seq_mod(sl_table(fs[i], av, l), q()));
    let comb = crate::sumcheck::sg_comb(tabs, gamma, n);
    lemma_first_round_total(comb, av, l);
    // Σ_b comb[b] ≡ Σ_b Σ_i tabs[i][b] γ^i
    let mm = Seq::new(n, |b: int| crate::sumcheck::sg_comb_terms(tabs, gamma, b, k));
    let rows = Seq::new(n, |b: int| ssum(mm[b]));
    assert forall|b: int| 0 <= b < n implies #[trigger] comb[b] % q() == rows[b] % q() by {
        lemma_mod_twice(ssum(mm[b]), q());
    }
    lemma_ssum_mod(comb, rows, q());
    lemma_ssum_swap(mm, k as int);
    let cols = Seq::new(k, |i: int| ssum(Seq::new(n, |b: int| mm[b][i])));
    let pw = Seq::new(k, |i: int| vstd::arithmetic::power::pow(gamma, i as nat));
    let target = Seq::new(k, |i: int| vstd::arithmetic::power::pow(gamma, i as nat) * mle(fs[i], av));
    assert forall|i: int| 0 <= i < k implies #[trigger] cols[i] % q() == target[i] % q() by {
        let p = vstd::arithmetic::power::pow(gamma, i as nat);
        let col = Seq::new(n, |b: int| mm[b][i]);
        assert forall|b: int| 0 <= b < n implies #[trigger] col[b] == p * tabs[i][b] by {
            assert(tabs[i][b] * p == p * tabs[i][b]) by (nonlinear_arith);
        }
        lemma_ssum_scale(col, tabs[i], p);
        let sl = sl_table(fs[i], av, l);
        assert forall|j: int| 0 <= j < tabs[i].len() implies #[trigger] tabs[i][j] % q() == sl[j] % q() by {
            lemma_mod_twice(sl[j], q());
        }
        lemma_ssum_mod(tabs[i], sl, q());
        lemma_sl_total(fs[i], av, l);
        lemma_mul_mod_noop_right(p, ssum(tabs[i]), q());
        lemma_mul_mod_noop_right(p, mle(fs[i], av), q());
    }
    lemma_ssum_mod(cols, target, q());
    assert(rows =~= Seq::new(mm.len(), |b: int| ssum(mm[b])));
    assert(cols =~= Seq::new(k as nat, |j: int| ssum(Seq::new(mm.len(), |b: int| mm[b][j]))));
    assert(ssum(rows) == ssum(cols));
    let vals = Seq::new(fs.len(), |i: int| mle(fs[i], av));
    assert(target =~= Seq::new(vals.len(), |i: int| vstd::arithmetic::power::pow(gamma, i as nat) * vals[i]));
}


proof fn lemma_fprod4(a: int, b: int, c: int, d: int)
    ensures
        fprod(seq![a, b, c, d]) == a * b * c * d,
{
    assert(seq![a, b, c, d].drop_last() =~= seq![a, b, c]);
    lemma_fprod3(a, b, c);
}

/// The Lagrange factors over the points `0, 1, 2, 3`.
proof fn lemma_lag4(x: int)
    ensures
        lag_num(4, 0, x) == (x - 1) * (x - 2) * (x - 3),
        lag_den(4, 0) == -6,
        lag_num(4, 1, x) == x * (x - 2) * (x - 3),
        lag_den(4, 1) == 2,
        lag_num(4, 2, x) == x * (x - 1) * (x - 3),
        lag_den(4, 2) == -2,
        lag_num(4, 3, x) == x * (x - 1) * (x - 2),
        lag_den(4, 3) == 6,
{
    assert(lag_num_factors(4, 0, x) =~= seq![1, x - 1, x - 2, x - 3]);
    assert(lag_den_factors(4, 0) =~= seq![1, -1, -2, -3]);
    assert(lag_num_factors(4, 1, x) =~= seq![x, 1, x - 2, x - 3]);
    assert(lag_den_factors(4, 1) =~= seq![1, 1, -1, -2]);
    assert(lag_num_factors(4, 2, x) =~= seq![x, x - 1, 1, x - 3]);
    assert(lag_den_factors(4, 2) =~= seq![2, 1, 1, -1]);
    assert(lag_num_factors(4, 3, x) =~= seq![x, x - 1, x - 2, 1]);
    assert(lag_den_factors(4, 3) =~= seq![3, 2, 1, 1]);
    lemma_fprod4(1, x - 1, x - 2, x - 3);
    lemma_fprod4(1, -1, -2, -3);
    lemma_fprod4(x, 1, x - 2, x - 3);
    lemma_fprod4(1, 1, -1, -2);
    lemma_fprod4(x, x - 1, 1, x - 3);
    lemma_fprod4(2, 1, 1, -1);
    lemma_fprod4(x, x - 1, x - 2, 1);
    lemma_fprod4(3, 2, 1, 1);
}

/// The inverse of `6` modulo `q`, `(5q + 1) / 6`.
pub open spec fn inv6() -> int {
    (5 * q() + 1) / 6
}

/// The inverses of `-6`, `2`, `-2` and `6` modulo `q`.
proof fn lemma_inverses4()
    ensures
        inverse_of(-6) == q() - inv6(),
        inverse_of(2) == inv2(),
        inverse_of(-2) == q() - inv2(),
        inverse_of(6) == inv6(),
{
    lemma_small_inverses();
    assert(6 * inv6() == 5 * q() + 1);
    assert(2 * inv2() == q() + 1);
    vstd::arithmetic::div_mod::lemma_mod_multiples_vanish(5, 1, q());
    lemma_small_mod(1, q() as nat);
    assert((5 * q() + 1) % q() == 1);
    lemma_inverse_unique(6, inv6());
    assert(-6 * (q() - inv6()) == -q() + 1);
    vstd::arithmetic::div_mod::lemma_mod_multiples_vanish(-1, 1, q());
    assert((-q() + 1) % q() == 1);
    lemma_inverse_unique(-6, q() - inv6());
    assert(-2 * (q() - inv2()) == -q() + 1);
    lemma_inverse_unique(-2, q() - inv2());
}

/// `Σ_t rounds[t] · L_t(x)` over four points, as the verifier computes it.
proof fn lemma_lagrange4(e0: int, e1: int, e2: int, e3: int, x: int)
    ensures
        lagrange_eval(seq![e0, e1, e2, e3], x) == e0 * ((x - 1) * (x - 2) * (x - 3)) * (q() - inv6()) + e1 * (x * (x - 2)
            * (x - 3)) * inv2() + e2 * (x * (x - 1) * (x - 3)) * (q() - inv2()) + e3 * (x * (x - 1) * (x - 2)) * inv6(),
{
    lemma_lag4(x);
    lemma_inverses4();
    let terms = Seq::new(4, |i: int| seq![e0, e1, e2, e3][i] * lag_num(4, i, x) * inverse_of(lag_den(4, i)));
    let a = e0 * ((x - 1) * (x - 2) * (x - 3)) * (q() - inv6());
    let b = e1 * (x * (x - 2) * (x - 3)) * inv2();
    let c = e2 * (x * (x - 1) * (x - 3)) * (q() - inv2());
    let d = e3 * (x * (x - 1) * (x - 2)) * inv6();
    assert(terms =~= seq![a, b, c, d]);
    assert(terms.drop_last() =~= seq![a, b, c]);
    assert(terms.drop_last().drop_last() =~= seq![a, b]);
    assert(terms.drop_last().drop_last().drop_last() =~= seq![a]);
    assert(seq![a].drop_last() =~= Seq::<int>::empty());
    assert(ssum(Seq::<int>::empty()) == 0);
    assert(ssum(seq![a]) == a) by {
        assert(ssum(seq![a]) == ssum(seq![a].drop_last()) + a);
    }
    assert(ssum(seq![a, b]) == a + b) by {
        assert(ssum(seq![a, b]) == ssum(seq![a, b].drop_last()) + b);
    }
    assert(ssum(seq![a, b, c]) == a + b + c) by {
        assert(ssum(seq![a, b, c]) == ssum(seq![a, b, c].drop_last()) + c);
    }
    assert(ssum(terms) == ssum(terms.drop_last()) + d);
}

/// Interpolating a cubic from its values at `0, 1, 2, 3`, with the
/// denominators cleared.
proof fn lemma_cubic_interp(c0: int, c1: int, c2: int, c3: int, x: int)
    ensures
        -(c0) * ((x - 1) * (x - 2) * (x - 3)) + 3 * (c0 + c1 + c2 + c3) * (x * (x - 2) * (x - 3)) - 3 * (c0 + 2 * c1 + 4 * c2
            + 8 * c3) * (x * (x - 1) * (x - 3)) + (c0 + 3 * c1 + 9 * c2 + 27 * c3) * (x * (x - 1) * (x - 2)) == 6 * (c0
            + c1 * x + c2 * (x * x) + c3 * (x * x * x)),
{
    let xx = x * x;
    let x3 = x * x * x;
    let n0 = (x - 1) * (x - 2) * (x - 3);
    let n1 = x * (x - 2) * (x - 3);
    let n2 = x * (x - 1) * (x - 3);
    let n3 = x * (x - 1) * (x - 2);
    assert(n0 == x3 - 6 * xx + 11 * x - 6) by (nonlinear_arith)
        requires
            n0 == (x - 1) * (x - 2) * (x - 3),
            xx == x * x,
            x3 == x * x * x,
    ;
    assert(n1 == x3 - 5 * xx + 6 * x) by (nonlinear_arith)
        requires
            n1 == x * (x - 2) * (x - 3),
            xx == x * x,
            x3 == x * x * x,
    ;
    assert(n2 == x3 - 4 * xx + 3 * x) by (nonlinear_arith)
        requires
            n2 == x * (x - 1) * (x - 3),
            xx == x * x,
            x3 == x * x * x,
    ;
    assert(n3 == x3 - 3 * xx + 2 * x) by (nonlinear_arith)
        requires
            n3 == x * (x - 1) * (x - 2),
            xx == x * x,
            x3 == x * x * x,
    ;
    // the coefficient of each `c_k`
    assert(-n0 + 3 * n1 - 3 * n2 + n3 == 6);
    assert(3 * n1 - 6 * n2 + 3 * n3 == 6 * x);
    assert(3 * n1 - 12 * n2 + 9 * n3 == 6 * xx);
    assert(3 * n1 - 24 * n2 + 27 * n3 == 6 * x3);
    assert(-(c0) * n0 == -(c0 * n0)) by (nonlinear_arith);
    assert(3 * (c0 + c1 + c2 + c3) * n1 == 3 * (c0 * n1) + 3 * (c1 * n1) + 3 * (c2 * n1) + 3 * (c3 * n1)) by (nonlinear_arith);
    assert(3 * (c0 + 2 * c1 + 4 * c2 + 8 * c3) * n2 == 3 * (c0 * n2) + 6 * (c1 * n2) + 12 * (c2 * n2) + 24 * (c3 * n2))
        by (nonlinear_arith);
    assert((c0 + 3 * c1 + 9 * c2 + 27 * c3) * n3 == c0 * n3 + 3 * (c1 * n3) + 9 * (c2 * n3) + 27 * (c3 * n3)) by (nonlinear_arith);
    assert(c0 * (-n0 + 3 * n1 - 3 * n2 + n3) == -(c0 * n0) + 3 * (c0 * n1) - 3 * (c0 * n2) + c0 * n3) by (nonlinear_arith);
    assert(c1 * (3 * n1 - 6 * n2 + 3 * n3) == 3 * (c1 * n1) - 6 * (c1 * n2) + 3 * (c1 * n3)) by (nonlinear_arith);
    assert(c2 * (3 * n1 - 12 * n2 + 9 * n3) == 3 * (c2 * n1) - 12 * (c2 * n2) + 9 * (c2 * n3)) by (nonlinear_arith);
    assert(c3 * (3 * n1 - 24 * n2 + 27 * n3) == 3 * (c3 * n1) - 24 * (c3 * n2) + 27 * (c3 * n3)) by (nonlinear_arith);
    assert(c0 * 6 + c1 * (6 * x) + c2 * (6 * xx) + c3 * (6 * x3) == 6 * (c0 + c1 * x + c2 * xx + c3 * x3)) by (nonlinear_arith);
}

/// If `6 (X - F)` is a multiple of `q` then `X` and `F` agree modulo `q`.
proof fn lemma_sixth_congruence(xx: int, ff: int, k: int)
    requires
        6 * (xx - ff) == q() * k,
    ensures
        xx % q() == ff % q(),
{
    let y = xx - ff;
    let i6 = inv6();
    assert(6 * i6 == 5 * q() + 1);
    assert(y == q() * (k * i6 - 5 * y)) by (nonlinear_arith)
        requires
            6 * y == q() * k,
            6 * i6 == 5 * q() + 1,
    ;
    vstd::arithmetic::div_mod::lemma_mod_multiples_vanish(k * i6 - 5 * y, ff, q());
}

/// The per-entry coefficients of `G = a_0 (a_1 a_2 - a_3)` along the lines
/// `a_i + d_i u`, `d_i` the step of table `i` at pair `b`.
pub open spec fn r1cs_coeffs(t: Seq<Seq<int>>, b: int) -> Seq<int> {
    let (a0, a1, a2, a3) = (t[0][2 * b], t[1][2 * b], t[2][2 * b], t[3][2 * b]);
    let (d0, d1, d2, d3) = (
        t[0][2 * b + 1] - a0,
        t[1][2 * b + 1] - a1,
        t[2][2 * b + 1] - a2,
        t[3][2 * b + 1] - a3,
    );
    let k0 = a1 * a2 - a3;
    let k1 = a1 * d2 + d1 * a2 - d3;
    seq![a0 * k0, a0 * k1 + d0 * k0, a0 * (d1 * d2) + d0 * k1, d0 * (d1 * d2)]
}

/// `(a0 + d0 u)((a1 + d1 u)(a2 + d2 u) - (a3 + d3 u))` as a cubic in `u`.
proof fn lemma_r1cs_cubic(a0: int, a1: int, a2: int, a3: int, d0: int, d1: int, d2: int, d3: int, u: int)
    ensures
        (a0 + d0 * u) * ((a1 + d1 * u) * (a2 + d2 * u) - (a3 + d3 * u)) == a0 * (a1 * a2 - a3) + (a0 * (a1 * d2 + d1 * a2
            - d3) + d0 * (a1 * a2 - a3)) * u + (a0 * (d1 * d2) + d0 * (a1 * d2 + d1 * a2 - d3)) * (u * u) + (d0 * (d1
            * d2)) * (u * u * u),
{
    let k0 = a1 * a2 - a3;
    let k1 = a1 * d2 + d1 * a2 - d3;
    let k2 = d1 * d2;
    let uu = u * u;
    let uuu = u * u * u;
    let p = d1 * u;
    let r = d2 * u;
    assert((a1 + p) * (a2 + r) == a1 * a2 + a1 * r + p * a2 + p * r) by (nonlinear_arith);
    assert(a1 * r == (a1 * d2) * u) by (nonlinear_arith)
        requires
            r == d2 * u,
    ;
    assert(p * a2 == (d1 * a2) * u) by (nonlinear_arith)
        requires
            p == d1 * u,
    ;
    assert(p * r == k2 * uu) by (nonlinear_arith)
        requires
            p == d1 * u,
            r == d2 * u,
            k2 == d1 * d2,
            uu == u * u,
    ;
    assert(k1 * u == (a1 * d2) * u + (d1 * a2) * u - d3 * u) by (nonlinear_arith)
        requires
            k1 == a1 * d2 + d1 * a2 - d3,
    ;
    let kk = k0 + k1 * u + k2 * uu;
    assert((a1 + d1 * u) * (a2 + d2 * u) - (a3 + d3 * u) == kk);
    let v = d0 * u;
    assert((a0 + v) * kk == a0 * kk + v * kk) by (nonlinear_arith);
    assert(a0 * kk == a0 * k0 + (a0 * k1) * u + (a0 * k2) * uu) by (nonlinear_arith)
        requires
            kk == k0 + k1 * u + k2 * uu,
    ;
    assert(v * kk == v * k0 + v * (k1 * u) + v * (k2 * uu)) by (nonlinear_arith)
        requires
            kk == k0 + k1 * u + k2 * uu,
    ;
    assert(v * k0 == (d0 * k0) * u) by (nonlinear_arith)
        requires
            v == d0 * u,
    ;
    assert(v * (k1 * u) == (d0 * k1) * uu) by (nonlinear_arith)
        requires
            v == d0 * u,
            uu == u * u,
    ;
    assert(v * (k2 * uu) == (d0 * k2) * uuu) by (nonlinear_arith)
        requires
            v == d0 * u,
            uu == u * u,
            uuu == u * u * u,
    ;
    assert((a0 * k1) * u + (d0 * k0) * u == (a0 * k1 + d0 * k0) * u) by (nonlinear_arith);
    assert((a0 * k2) * uu + (d0 * k1) * uu == (a0 * k2 + d0 * k1) * uu) by (nonlinear_arith);
}

/// A line `a (1 - u) + b u` is `a + (b - a) u`.
proof fn lemma_line_form(a: int, b: int, u: int)
    ensures
        a * (1 - u) + b * u == a + (b - a) * u,
{
    assert(a * (1 - u) + b * u == a + (b - a) * u) by (nonlinear_arith);
}

/// For `G(a) = a_0 (a_1 a_2 - a_3)` the round polynomial is a cubic in `u`
/// modulo `q`.
proof fn lemma_r1cs_round_poly(t: Seq<Seq<int>>, h: nat, u: int)
    requires
        t.len() >= 4,
        forall|p: int| 0 <= p < t.len() ==> (#[trigger] t[p]).len() == 2 * h,
    ensures
        ({
            let k0 = ssum(Seq::new(h, |b: int| r1cs_coeffs(t, b)[0]));
            let k1 = ssum(Seq::new(h, |b: int| r1cs_coeffs(t, b)[1]));
            let k2 = ssum(Seq::new(h, |b: int| r1cs_coeffs(t, b)[2]));
            let k3 = ssum(Seq::new(h, |b: int| r1cs_coeffs(t, b)[3]));
            round_poly(R1csCombine, t, h, u) % q() == (k0 + k1 * u + k2 * (u * u) + k3 * (u * u * u)) % q()
        }),
{
    let s1 = Seq::new(h, |b: int| R1csCombine.spec_combine(column(line_tables(t, u), b)));
    let c0 = Seq::new(h, |b: int| r1cs_coeffs(t, b)[0]);
    let c1 = Seq::new(h, |b: int| r1cs_coeffs(t, b)[1]);
    let c2 = Seq::new(h, |b: int| r1cs_coeffs(t, b)[2]);
    let c3 = Seq::new(h, |b: int| r1cs_coeffs(t, b)[3]);
    let s2 = Seq::new(h, |b: int| 1 * c0[b] + u * c1[b] + (u * u) * c2[b] + (u * u * u) * c3[b]);
    assert forall|b: int| 0 <= b < h implies #[trigger] s1[b] % q() == s2[b] % q() by {
        let l0 = t[0][2 * b] * (1 - u) + t[0][2 * b + 1] * u;
        let l1 = t[1][2 * b] * (1 - u) + t[1][2 * b + 1] * u;
        let l2 = t[2][2 * b] * (1 - u) + t[2][2 * b + 1] * u;
        let l3 = t[3][2 * b] * (1 - u) + t[3][2 * b + 1] * u;
        let col = column(line_tables(t, u), b);
        assert(col[0] == l0 % q());
        assert(col[1] == l1 % q());
        assert(col[2] == l2 % q());
        assert(col[3] == l3 % q());
        // reducing the inputs modulo q does not change G modulo q
        lemma_mul_mod_noop(l1, l2, q());
        lemma_sub_mod_noop(l1 * l2, l3, q());
        lemma_sub_mod_noop((l1 % q()) * (l2 % q()), l3 % q(), q());
        lemma_mod_twice((l1 % q()) * (l2 % q()), q());
        lemma_mul_mod_noop(l0, l1 * l2 - l3, q());
        lemma_mul_mod_noop(l0 % q(), (l1 % q()) * (l2 % q()) - l3 % q(), q());
        lemma_mod_twice(l0, q());
        assert(s1[b] % q() == (l0 * (l1 * l2 - l3)) % q());
        lemma_line_form(t[0][2 * b], t[0][2 * b + 1], u);
        lemma_line_form(t[1][2 * b], t[1][2 * b + 1], u);
        lemma_line_form(t[2][2 * b], t[2][2 * b + 1], u);
        lemma_line_form(t[3][2 * b], t[3][2 * b + 1], u);
        lemma_r1cs_cubic(
            t[0][2 * b],
            t[1][2 * b],
            t[2][2 * b],
            t[3][2 * b],
            t[0][2 * b + 1] - t[0][2 * b],
            t[1][2 * b + 1] - t[1][2 * b],
            t[2][2 * b + 1] - t[2][2 * b],
            t[3][2 * b + 1] - t[3][2 * b],
            u,
        );
        assert(s2[b] == c0[b] + c1[b] * u + c2[b] * (u * u) + c3[b] * (u * u * u)) by (nonlinear_arith)
            requires
                s2[b] == 1 * c0[b] + u * c1[b] + (u * u) * c2[b] + (u * u * u) * c3[b],
        ;
    }
    lemma_ssum_mod(s1, s2, q());
    crate::group_laws::lemma_ssum_lin4(s2, c0, c1, c2, c3, 1, u, u * u, u * u * u);
    assert(1 * ssum(c0) + u * ssum(c1) + (u * u) * ssum(c2) + (u * u * u) * ssum(c3) == ssum(c0) + ssum(c1) * u
        + ssum(c2) * (u * u) + ssum(c3) * (u * u * u)) by (nonlinear_arith);
}

/// Interpolation recovers the round polynomial of `G(a) = a_0 (a_1 a_2 - a_3)`.
proof fn lemma_r1cs_interp(t: Seq<Seq<int>>, h: nat, x: int)
    ensures
        interp_ok(R1csCombine, t, h, x, 3),
{
    if (forall|p: int| 0 <= p < t.len() ==> (#[trigger] t[p]).len() == 2 * h) && R1csCombine.accepts(t.len() as nat) {
        let k0 = ssum(Seq::new(h, |b: int| r1cs_coeffs(t, b)[0]));
        let k1 = ssum(Seq::new(h, |b: int| r1cs_coeffs(t, b)[1]));
        let k2 = ssum(Seq::new(h, |b: int| r1cs_coeffs(t, b)[2]));
        let k3 = ssum(Seq::new(h, |b: int| r1cs_coeffs(t, b)[3]));
        let f0 = k0;
        let f1 = k0 + k1 + k2 + k3;
        let f2 = k0 + 2 * k1 + 4 * k2 + 8 * k3;
        let f3 = k0 + 3 * k1 + 9 * k2 + 27 * k3;
        let fx = k0 + k1 * x + k2 * (x * x) + k3 * (x * x * x);
        lemma_r1cs_round_poly(t, h, 0);
        lemma_r1cs_round_poly(t, h, 1);
        lemma_r1cs_round_poly(t, h, 2);
        lemma_r1cs_round_poly(t, h, 3);
        lemma_r1cs_round_poly(t, h, x);
        assert(k0 + k1 * 0 + k2 * (0 * 0) + k3 * (0 * 0 * 0) == f0) by (nonlinear_arith)
            requires
                f0 == k0,
        ;
        assert(k0 + k1 * 1 + k2 * (1 * 1) + k3 * (1 * 1 * 1) == f1) by (nonlinear_arith)
            requires
                f1 == k0 + k1 + k2 + k3,
        ;
        assert(k0 + k1 * 2 + k2 * (2 * 2) + k3 * (2 * 2 * 2) == f2) by (nonlinear_arith)
            requires
                f2 == k0 + 2 * k1 + 4 * k2 + 8 * k3,
        ;
        assert(k0 + k1 * 3 + k2 * (3 * 3) + k3 * (3 * 3 * 3) == f3) by (nonlinear_arith)
            requires
                f3 == k0 + 3 * k1 + 9 * k2 + 27 * k3,
        ;
        let vals = round_values(R1csCombine, t, h, 3);
        let (e0, e1, e2, e3) = (vals[0], vals[1], vals[2], vals[3]);
        assert(vals =~= seq![e0, e1, e2, e3]);
        lemma_lagrange4(e0, e1, e2, e3, x);
        lemma_mod_twice(round_poly(R1csCombine, t, h, 0), q());
        lemma_mod_twice(round_poly(R1csCombine, t, h, 1), q());
        lemma_mod_twice(round_poly(R1csCombine, t, h, 2), q());
        lemma_mod_twice(round_poly(R1csCombine, t, h, 3), q());
        assert(e0 % q() == f0 % q());
        assert(e1 % q() == f1 % q());
        assert(e2 % q() == f2 % q());
        assert(e3 % q() == f3 % q());
        let n0 = (x - 1) * (x - 2) * (x - 3);
        let n1 = x * (x - 2) * (x - 3);
        let n2 = x * (x - 1) * (x - 3);
        let n3 = x * (x - 1) * (x - 2);
        let (j0, j1, j2, j3) = (q() - inv6(), inv2(), q() - inv2(), inv6());
        // the values may be replaced by the cubic's values modulo q
        lemma_mul_mod_congruent(e0, f0, n0, q());
        lemma_mul_mod_congruent(e0 * n0, f0 * n0, j0, q());
        lemma_mul_mod_congruent(e1, f1, n1, q());
        lemma_mul_mod_congruent(e1 * n1, f1 * n1, j1, q());
        lemma_mul_mod_congruent(e2, f2, n2, q());
        lemma_mul_mod_congruent(e2 * n2, f2 * n2, j2, q());
        lemma_mul_mod_congruent(e3, f3, n3, q());
        lemma_mul_mod_congruent(e3 * n3, f3 * n3, j3, q());
        let (a, b, c, d) = (e0 * n0 * j0, e1 * n1 * j1, e2 * n2 * j2, e3 * n3 * j3);
        let (a2, b2, c2, d2) = (f0 * n0 * j0, f1 * n1 * j1, f2 * n2 * j2, f3 * n3 * j3);
        lemma_add_mod_noop(a, b, q());
        lemma_add_mod_noop(a2, b2, q());
        lemma_add_mod_noop(a + b, c, q());
        lemma_add_mod_noop(a2 + b2, c2, q());
        lemma_add_mod_noop(a + b + c, d, q());
        lemma_add_mod_noop(a2 + b2 + c2, d2, q());
        assert((a + b + c + d) % q() == (a2 + b2 + c2 + d2) % q());
        // clearing the denominators: 6 X = q K + 6 f(x)
        lemma_cubic_interp(k0, k1, k2, k3, x);
        let (p0, p1, p2, p3) = (f0 * n0, f1 * n1, f2 * n2, f3 * n3);
        assert(-p0 + 3 * p1 - 3 * p2 + p3 == 6 * fx) by (nonlinear_arith)
            requires
                p0 == f0 * n0,
                p1 == f1 * n1,
                p2 == f2 * n2,
                p3 == f3 * n3,
                -(f0) * n0 + 3 * f1 * n1 - 3 * f2 * n2 + f3 * n3 == 6 * fx,
        ;
        assert(6 * inv6() == 5 * q() + 1);
        assert(2 * inv2() == q() + 1);
        assert(6 * ((a2 + b2 + c2 + d2) - fx) == q() * (p0 + 3 * p1 + 3 * p2 + 5 * p3)) by (nonlinear_arith)
            requires
                a2 == p0 * j0,
                b2 == p1 * j1,
                c2 == p2 * j2,
                d2 == p3 * j3,
                j0 == q() - inv6(),
                j1 == inv2(),
                j2 == q() - inv2(),
                j3 == inv6(),
                6 * inv6() == 5 * q() + 1,
                2 * inv2() == q() + 1,
                -p0 + 3 * p1 - 3 * p2 + p3 == 6 * fx,
        ;
        lemma_sixth_congruence(a2 + b2 + c2 + d2, fx, p0 + 3 * p1 + 3 * p2 + 5 * p3);
    }
}

/// Completeness of the sum-check for `G(a) = a_0 (a_1 a_2 - a_3)`, the
/// combining function of the R1CS relation: on the honest prover's rounds and
/// challenges for four or more tables with entries in `[0, q)`, the verifier
/// fails no round, and the claim it is left with is `G` at the tables
/// folded to the challenges.
pub proof fn law_r1cs_sumcheck_complete(
    log0: Seq<crate::transcript::TranscriptEntry>,
    tabs: Seq<Seq<int>>,
    n: nat,
    rounds: Seq<Seq<int>>,
    ch: Seq<int>,
)
    requires
        tabs.len() >= 4,
        forall|p: int| 0 <= p < tabs.len() ==> (#[trigger] tabs[p]).len() == exp2(n),
        reduced_tables(tabs, exp2(n)),
        honest_run(R1csCombine, 3, log0, tabs, n, rounds, ch),
    ensures
        forall|j: int|
            0 <= j < n ==> !#[trigger] sc_round_fails(log0, cube_sum(R1csCombine, tabs, exp2(n)) % q(), rounds, 3, j),
        ({
            let t = round_tables(tabs, ch);
            sc_prev_claim(log0, cube_sum(R1csCombine, tabs, exp2(n)) % q(), rounds, n) == (t[0][0] * (t[1][0] * t[2][0]
                - t[3][0])) % q()
        }),
{
    assert forall|tt: Seq<Seq<int>>, hh: nat, x: int| #[trigger] interp_ok(R1csCombine, tt, hh, x, 3) by {
        lemma_r1cs_interp(tt, hh, x);
    }
    lemma_honest_accepts(R1csCombine, 3, log0, tabs, n, rounds, ch);
    let t = round_tables(tabs, ch);
    let s = Seq::new(1, |b: int| R1csCombine.spec_combine(column(t, b)));
    assert(s.drop_last() =~= Seq::<int>::empty());
    assert(ssum(Seq::<int>::empty()) == 0);
    assert(ssum(s) == ssum(s.drop_last()) + s.last());
    assert(ssum(s) == s[0]);
    assert(column(t, 0)[0] == t[0][0]);
    assert(column(t, 0)[1] == t[1][0]);
    assert(column(t, 0)[2] == t[2][0]);
    assert(column(t, 0)[3] == t[3][0]);
}


/// The per-entry coefficients of `G = a_0 a_1 + rho a_2 a_3` along the lines
/// through the entries `2b` and `2b + 1` of each table.
pub open spec fn reduce_coeffs(t: Seq<Seq<int>>, rho: int, b: int) -> Seq<int> {
    let (a0, a1, a2, a3) = (t[0][2 * b], t[1][2 * b], t[2][2 * b], t[3][2 * b]);
    let (d0, d1, d2, d3) = (
        t[0][2 * b + 1] - a0,
        t[1][2 * b + 1] - a1,
        t[2][2 * b + 1] - a2,
        t[3][2 * b + 1] - a3,
    );
    seq![
        a0 * a1 + rho * (a2 * a3),
        (a0 * d1 + a1 * d0) + rho * (a2 * d3 + a3 * d2),
        d0 * d1 + rho * (d2 * d3),
    ]
}

/// For `G(a) = a_0 a_1 + rho a_2 a_3` the round polynomial is a quadratic in
/// `u` modulo `q`.
proof fn lemma_reduce_round_poly(comb: ReduceCombine, t: Seq<Seq<int>>, h: nat, u: int)
    requires
        t.len() >= 4,
        forall|p: int| 0 <= p < t.len() ==> (#[trigger] t[p]).len() == 2 * h,
    ensures
        ({
            let rho = comb.rho.val();
            let k0 = ssum(Seq::new(h, |b: int| reduce_coeffs(t, rho, b)[0]));
            let k1 = ssum(Seq::new(h, |b: int| reduce_coeffs(t, rho, b)[1]));
            let k2 = ssum(Seq::new(h, |b: int| reduce_coeffs(t, rho, b)[2]));
            round_poly(comb, t, h, u) % q() == (k0 + k1 * u + k2 * (u * u)) % q()
        }),
{
    let rho = comb.rho.val();
    let s1 = Seq::new(h, |b: int| comb.spec_combine(column(line_tables(t, u), b)));
    let c0 = Seq::new(h, |b: int| reduce_coeffs(t, rho, b)[0]);
    let c1 = Seq::new(h, |b: int| reduce_coeffs(t, rho, b)[1]);
    let c2 = Seq::new(h, |b: int| reduce_coeffs(t, rho, b)[2]);
    let z = Seq::new(h, |b: int| 0int);
    let s2 = Seq::new(h, |b: int| 1 * c0[b] + u * c1[b] + (u * u) * c2[b] + 0 * z[b]);
    assert forall|b: int| 0 <= b < h implies #[trigger] s1[b] % q() == s2[b] % q() by {
        let l0 = t[0][2 * b] * (1 - u) + t[0][2 * b + 1] * u;
        let l1 = t[1][2 * b] * (1 - u) + t[1][2 * b + 1] * u;
        let l2 = t[2][2 * b] * (1 - u) + t[2][2 * b + 1] * u;
        let l3 = t[3][2 * b] * (1 - u) + t[3][2 * b + 1] * u;
        let col = column(line_tables(t, u), b);
        assert(col[0] == l0 % q());
        assert(col[1] == l1 % q());
        assert(col[2] == l2 % q());
        assert(col[3] == l3 % q());
        // reducing the inputs modulo q does not change G modulo q
        lemma_mul_mod_noop(l0, l1, q());
        lemma_mul_mod_noop(l2, l3, q());
        let p = (l0 % q()) * (l1 % q());
        let r = (l2 % q()) * (l3 % q());
        assert((rho * r) * 1 == rho * r);
        vstd::arithmetic::div_mod::lemma_mul_mod_noop_right(rho, r, q());
        vstd::arithmetic::div_mod::lemma_mul_mod_noop_right(rho, l2 * l3, q());
        assert(rho * (l2 % q()) * (l3 % q()) == rho * r) by (nonlinear_arith)
            requires
                r == (l2 % q()) * (l3 % q()),
        ;
        lemma_add_mod_noop(p, rho * r, q());
        lemma_add_mod_noop(l0 * l1, rho * (l2 * l3), q());
        assert(s1[b] % q() == (l0 * l1 + rho * (l2 * l3)) % q());
        lemma_line_product(t[0][2 * b], t[0][2 * b + 1], t[1][2 * b], t[1][2 * b + 1], u);
        lemma_line_product(t[2][2 * b], t[2][2 * b + 1], t[3][2 * b], t[3][2 * b + 1], u);
        let (a0, a1, a2, a3) = (t[0][2 * b], t[1][2 * b], t[2][2 * b], t[3][2 * b]);
        let (d0, d1, d2, d3) = (
            t[0][2 * b + 1] - a0,
            t[1][2 * b + 1] - a1,
            t[2][2 * b + 1] - a2,
            t[3][2 * b + 1] - a3,
        );
        let x1 = a2 * a3;
        let x2 = a2 * d3 + a3 * d2;
        let x3 = d2 * d3;
        assert(l2 * l3 == x1 + x2 * u + x3 * u * u) by {
            assert(a2 * (t[3][2 * b + 1] - t[3][2 * b]) + a3 * (t[2][2 * b + 1] - t[2][2 * b]) == x2);
        }
        assert(l0 * l1 == a0 * a1 + (a0 * d1 + a1 * d0) * u + (d0 * d1) * u * u);
        assert(rho * (x1 + x2 * u + x3 * u * u) == rho * x1 + (rho * x2) * u + (rho * x3) * (u * u)) by (nonlinear_arith);
        assert((a0 * d1 + a1 * d0) * u + (rho * x2) * u == ((a0 * d1 + a1 * d0) + rho * x2) * u) by (nonlinear_arith);
        assert((d0 * d1) * u * u + (rho * x3) * (u * u) == (d0 * d1 + rho * x3) * (u * u)) by (nonlinear_arith);
        assert(s2[b] == c0[b] + c1[b] * u + c2[b] * (u * u)) by (nonlinear_arith)
            requires
                s2[b] == 1 * c0[b] + u * c1[b] + (u * u) * c2[b] + 0 * z[b],
        ;
    }
    lemma_ssum_mod(s1, s2, q());
    crate::group_laws::lemma_ssum_lin4(s2, c0, c1, c2, z, 1, u, u * u, 0);
    assert(1 * ssum(c0) + u * ssum(c1) + (u * u) * ssum(c2) + 0 * ssum(z) == ssum(c0) + ssum(c1) * u + ssum(c2) * (u * u))
        by (nonlinear_arith);
}

/// Interpolation recovers the round polynomial of
/// `G(a) = a_0 a_1 + rho a_2 a_3`.
proof fn lemma_reduce_interp(comb: ReduceCombine, t: Seq<Seq<int>>, h: nat, x: int)
    ensures
        interp_ok(comb, t, h, x, 2),
{
    if (forall|p: int| 0 <= p < t.len() ==> (#[trigger] t[p]).len() == 2 * h) && comb.accepts(t.len() as nat) {
        let rho = comb.rho.val();
        let k0 = ssum(Seq::new(h, |b: int| reduce_coeffs(t, rho, b)[0]));
        let k1 = ssum(Seq::new(h, |b: int| reduce_coeffs(t, rho, b)[1]));
        let k2 = ssum(Seq::new(h, |b: int| reduce_coeffs(t, rho, b)[2]));
        let f0 = k0 + k1 * 0 + k2 * 0 * 0;
        let f1 = k0 + k1 * 1 + k2 * 1 * 1;
        let f2 = k0 + k1 * 2 + k2 * 2 * 2;
        let fx = k0 + k1 * x + k2 * x * x;
        lemma_reduce_round_poly(comb, t, h, 0);
        lemma_reduce_round_poly(comb, t, h, 1);
        lemma_reduce_round_poly(comb, t, h, 2);
        lemma_reduce_round_poly(comb, t, h, x);
        assert(k2 * (0 * 0) == k2 * 0 * 0) by (nonlinear_arith);
        assert(k2 * (1 * 1) == k2 * 1 * 1) by (nonlinear_arith);
        assert(k2 * (2 * 2) == k2 * 2 * 2) by (nonlinear_arith);
        assert(k2 * (x * x) == k2 * x * x) by (nonlinear_arith);
        let vals = round_values(comb, t, h, 2);
        let e0 = vals[0];
        let e1 = vals[1];
        let e2 = vals[2];
        assert(vals =~= seq![e0, e1, e2]);
        lemma_lagrange3(e0, e1, e2, x);
        lemma_mod_twice(round_poly(comb, t, h, 0), q());
        lemma_mod_twice(round_poly(comb, t, h, 1), q());
        lemma_mod_twice(round_poly(comb, t, h, 2), q());
        assert(e0 % q() == f0 % q());
        assert(e1 % q() == f1 % q());
        assert(e2 % q() == f2 % q());
        let n0 = (x - 1) * (x - 2);
        let n1 = x * (x - 2);
        let n2 = x * (x - 1);
        let i2 = inv2();
        lemma_mul_mod_congruent(e0, f0, n0, q());
        lemma_mul_mod_congruent(e0 * n0, f0 * n0, i2, q());
        lemma_mul_mod_congruent(e1, f1, n1, q());
        lemma_mul_mod_congruent(e1 * n1, f1 * n1, q() - 1, q());
        lemma_mul_mod_congruent(e2, f2, n2, q());
        lemma_mul_mod_congruent(e2 * n2, f2 * n2, i2, q());
        let a = e0 * n0 * i2;
        let b = e1 * n1 * (q() - 1);
        let c = e2 * n2 * i2;
        let a2 = f0 * n0 * i2;
        let b2 = f1 * n1 * (q() - 1);
        let c2 = f2 * n2 * i2;
        lemma_add_mod_noop(a, b, q());
        lemma_add_mod_noop(a2, b2, q());
        assert((a + b) % q() == (a2 + b2) % q());
        lemma_add_mod_noop(a + b, c, q());
        lemma_add_mod_noop(a2 + b2, c2, q());
        assert((a + b + c) % q() == (a2 + b2 + c2) % q());
        lemma_quad_interp(k0, k1, k2, x);
        let p0 = f0 * n0;
        let p1 = f1 * n1;
        let p2 = f2 * n2;
        assert(p0 - 2 * p1 + p2 == 2 * fx) by (nonlinear_arith)
            requires
                p0 == f0 * n0,
                p1 == f1 * n1,
                p2 == f2 * n2,
                f0 * n0 - 2 * f1 * n1 + f2 * n2 == 2 * fx,
        ;
        assert(2 * i2 == q() + 1);
        assert(2 * ((a2 + b2 + c2) - fx) == q() * (p0 + 2 * p1 + p2)) by (nonlinear_arith)
            requires
                a2 == p0 * i2,
                b2 == p1 * (q() - 1),
                c2 == p2 * i2,
                2 * i2 == q() + 1,
                p0 - 2 * p1 + p2 == 2 * fx,
        ;
        lemma_halve_congruence(a2 + b2 + c2, fx, p0 + 2 * p1 + p2);
    }
}

/// Completeness of the sum-check for `G(a) = a_0 a_1 + rho a_2 a_3`, the
/// combining function that reduces two openings to one point: on the honest
/// prover's rounds and challenges for four or more tables with entries in
/// `[0, q)`, the verifier fails no round, and the claim it is left with is
/// `G` at the tables folded to the challenges.
pub proof fn law_reduce_sumcheck_complete(
    comb: ReduceCombine,
    log0: Seq<crate::transcript::TranscriptEntry>,
    tabs: Seq<Seq<int>>,
    n: nat,
    rounds: Seq<Seq<int>>,
    ch: Seq<int>,
)
    requires
        tabs.len() >= 4,
        forall|p: int| 0 <= p < tabs.len() ==> (#[trigger] tabs[p]).len() == exp2(n),
        reduced_tables(tabs, exp2(n)),
        honest_run(comb, 2, log0, tabs, n, rounds, ch),
    ensures
        forall|j: int| 0 <= j < n ==> !#[trigger] sc_round_fails(log0, cube_sum(comb, tabs, exp2(n)) % q(), rounds, 2, j),
        ({
            let t = round_tables(tabs, ch);
            sc_prev_claim(log0, cube_sum(comb, tabs, exp2(n)) % q(), rounds, n) == (t[0][0] * t[1][0] + comb.rho.val()
                * t[2][0] * t[3][0]) % q()
        }),
{
    assert forall|tt: Seq<Seq<int>>, hh: nat, x: int| #[trigger] interp_ok(comb, tt, hh, x, 2) by {
        lemma_reduce_interp(comb, tt, hh, x);
    }
    lemma_honest_accepts(comb, 2, log0, tabs, n, rounds, ch);
    let t = round_tables(tabs, ch);
    let s = Seq::new(1, |b: int| comb.spec_combine(column(t, b)));
    assert(s.drop_last() =~= Seq::<int>::empty());
    assert(ssum(Seq::<int>::empty()) == 0);
    assert(ssum(s) == ssum(s.drop_last()) + s.last());
    assert(ssum(s) == s[0]);
    assert(column(t, 0)[0] == t[0][0]);
    assert(column(t, 0)[1] == t[1][0]);
    assert(column(t, 0)[2] == t[2][0]);
    assert(column(t, 0)[3] == t[3][0]);
}

} // verus!
