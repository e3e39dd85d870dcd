//! Completeness of the commitment scheme's evaluation proof: an honest proof
//! of the value of a committed polynomial is accepted.
use vstd::prelude::*;
use vstd::arithmetic::div_mod::{lemma_mul_mod_noop_left, lemma_mul_mod_noop_right, lemma_mod_twice};
use crate::field::{q, Fr, lemma_fr_val_eq};
use crate::sums::{dot, ssum, exp2, min_len, lemma_exp2_pos, lemma_exp2_adds, lemma_ssum_scale, lemma_ssum_mod, lemma_ssum_swap};
use crate::mle::{eq_at, eq_table, seq_mod, restrict_hi, mle, lemma_mle_restrict_hi, lemma_mle_mod};
use crate::traits::lvals;
use crate::pcs::{chunk_commitments, TitanSetup, TitanEvalProof, pcs_prove_post, pcs_verdict, pcs_partial_ok, pcs_log0, bp_shape_ok};
use crate::group_laws::{round_inverses_exist, law_group_sumcheck_complete, lemma_dot_mle};
use crate::bp_laws::law_bp_complete;
use crate::bulletproof::bp_prove_post;
use crate::sumcheck::{SumCheckGroupRounds, sg_init_log, sg_after_log, sg_openings_ok};
use crate::transcript::TranscriptEntry;
use crate::pcs::{gamma_sum, gamma_tables, partial_tables, pcs_batch_prove_post, pcs_batch_partial_ok, pcs_batch_combined, pcs_batch_verdict, TitanBatchEvalProof};
use crate::group_laws::law_group_batch_sumcheck_complete;
use crate::sumcheck::{sgb_init_log, sgb_openings_ok};
use crate::multilinear::MultilinearPoly;
use crate::group::Pt;
use vstd::arithmetic::power::pow;
use crate::field_sumcheck::fold_seq;
use crate::mle::{fold_lo, lemma_mle_fold_lo, lemma_mle_empty, eq_poly, lemma_eq_at_split, lemma_mle_eq_table};
use crate::pcs::{
    agg_q, agg_h, gamma_eq_sum, agg_verdict, agg_sumcheck_ok, agg_challenges, agg_point, agg_tables, agg_gamma, agg_log,
    AggregateEvalProof,
};
use crate::field::{fr_of_val, lemma_fr_of_val_val};
use crate::field_sumcheck::{round_tables, sc_challenge, sc_prev_claim, sc_round_fails};
use crate::sumcheck_laws::{law_product_sumcheck_complete, honest_run, reduced_tables};
use crate::mle::restrict_lo;
use crate::field_sumcheck::{cube_sum, ProductCombine, CombineFn, column};
use crate::sums::{lemma_ssum_blocks, lemma_ssum_split, lemma_ssum_zero};
use crate::bulletproof::bp_query_log;

verus! {

/// The group polynomial of a commitment, read at `ay`, is the generators
/// against the table of the polynomial with its last variables fixed to `ay`.
proof fn lemma_chunk_mle(f: Seq<int>, ck: Seq<int>, m1: nat, m2: nat, ay: Seq<int>)
    requires
        f.len() == exp2(m1 + m2),
        ck.len() == exp2(m2),
        ay.len() == m1,
    ensures
        mle(chunk_commitments(f, ck, m1, m2), ay) % q() == dot(ck, seq_mod(restrict_hi(f, ay, m2), q())) % q(),
{
    let w = exp2(m2) as int;
    let n = exp2(m1);
    let g = chunk_commitments(f, ck, m1, m2);
    lemma_exp2_pos(m1);
    lemma_exp2_pos(m2);
    lemma_exp2_adds(m1, m2);
    let rr = restrict_hi(f, ay, m2);
    let mm = Seq::new(n, |i: int| Seq::new(w as nat, |j: int| eq_at(ay, i) * (ck[j] * f[i * w + j])));
    let rows = Seq::new(mm.len(), |i: int| ssum(mm[i]));
    let lhs = Seq::new(n, |i: int| g[i] * eq_at(ay, i));
    assert forall|i: int| 0 <= i < n implies #[trigger] lhs[i] % q() == rows[i] % q() by {
        assert((i + 1) * w == i * w + w) by (nonlinear_arith);
        assert(i * w + w <= n * w) by (nonlinear_arith)
            requires
                0 <= i < n,
                w >= 0,
        ;
        let sub = f.subrange(i * w, (i + 1) * w);
        let dd = Seq::new(min_len(ck.len() as int, sub.len() as int) as nat, |j: int| ck[j] * sub[j]);
        assert(dd =~= Seq::new(w as nat, |j: int| ck[j] * f[i * w + j]));
        lemma_ssum_scale(mm[i], dd, eq_at(ay, i));
        lemma_mul_mod_noop_left(dot(ck, sub), eq_at(ay, i), q());
        assert(dot(ck, sub) * eq_at(ay, i) == eq_at(ay, i) * ssum(dd)) by (nonlinear_arith)
            requires
                dot(ck, sub) == ssum(dd),
        ;
    }
    lemma_ssum_mod(lhs, rows, q());
    lemma_ssum_swap(mm, w);
    let cols = Seq::new(w as nat, |j: int| ssum(Seq::new(mm.len(), |i: int| mm[i][j])));
    let rm = seq_mod(rr, q());
    let rhs = Seq::new(min_len(ck.len() as int, rm.len() as int) as nat, |j: int| ck[j] * rm[j]);
    assert forall|j: int| 0 <= j < w implies #[trigger] cols[j] % q() == rhs[j] % q() by {
        let col = Seq::new(mm.len(), |i: int| mm[i][j]);
        let rt = Seq::new(exp2(ay.len()), |i: int| f[i * exp2(m2) + j] * eq_at(ay, i));
        assert forall|i: int| 0 <= i < n implies #[trigger] col[i] == ck[j] * rt[i] by {
            assert(eq_at(ay, i) * (ck[j] * f[i * w + j]) == ck[j] * (f[i * w + j] * eq_at(ay, i))) by (nonlinear_arith);
        }
        lemma_ssum_scale(col, rt, ck[j]);
        assert(ssum(rt) == rr[j]);
        lemma_mul_mod_noop_right(ck[j], rr[j], q());
        lemma_mod_twice(rr[j], q());
        lemma_mul_mod_noop_right(ck[j], rm[j], q());
    }
    lemma_ssum_mod(cols, rhs, q());
    assert(rows =~= Seq::new(mm.len(), |i: int| ssum(mm[i])));
    assert(mle(g, ay) == ssum(lhs));
}

/// Completeness of the commitment scheme: for the commitment to `f` (the
/// chunk commitments under the parameters' generators) and the proof that
/// `prove` produces at `alpha`, the verifier accepts `sigma = f(alpha)` for
/// every choice of its batching scalars when the authentication paths check
/// out.
pub proof fn law_pcs_complete(
    pp: TitanSetup,
    f: Seq<int>,
    commitment: Seq<u8>,
    alpha: Seq<Fr>,
    sigma: Fr,
    proof: TitanEvalProof,
    r: int,
    gamma: int,
    r_bp: int,
)
    requires
        pp.wf(),
        1 <= pp.l1 < pp.m1,
        pp.domain_g1@.len() > 0,
        pp.num_queries > 0,
        f.len() == exp2(pp.m as nat),
        alpha.len() == pp.m,
        pcs_prove_post(
            pp,
            f,
            chunk_commitments(f, pp.bp_setup.c_poly.table(), pp.m1 as nat, (pp.m - pp.m1) as nat),
            commitment,
            alpha,
            proof,
        ),
        sigma.canonical(),
        sigma.val() == mle(f, lvals(alpha)) % q(),
        round_inverses_exist(lvals(alpha.skip((pp.m - pp.m1) as int)), pp.l1 as nat),
    ensures
        pcs_verdict(pp, commitment, alpha, sigma, proof, true, r, gamma, r_bp),
{
    let m1 = pp.m1 as nat;
    let m2 = (pp.m - pp.m1) as nat;
    let ck = pp.bp_setup.c_poly.table();
    let g = chunk_commitments(f, ck, m1, m2);
    let ax = alpha.take(m2 as int);
    let ay = alpha.skip(m2 as int);
    let a = seq_mod(restrict_hi(f, lvals(ay), m2), q());
    let sp = proof.partial_eval_proof;
    let (rounds, log1, sp_sigma, log2) = choose|rounds: SumCheckGroupRounds, log1: Seq<TranscriptEntry>, sigma: Fr, log2: Seq<TranscriptEntry>|
        {
            &&& pcs_partial_ok(pp, g, commitment, ay, proof.comm_partial, proof.partial_eval_proof, rounds, log1)
            &&& sigma.canonical()
            &&& sigma.val() == mle(a, lvals(ax)) % q()
            &&& bp_prove_post(pp.bp_setup, proof.comm_partial, ax, sigma, a, log1, proof.bullet_proof, log2)
        };
    assert(pcs_partial_ok(pp, g, commitment, ay, proof.comm_partial, sp, rounds, log1));
    // the group sum-check part
    assert(ay.len() == m1);
    assert(g.len() == exp2(m1));
    assert(sg_openings_ok(pp.domain_g1@, g, m1, pp.l1 as nat, rounds, sp));
    law_group_sumcheck_complete(
        pp.m1,
        pp.l1,
        pp.domain_g1@,
        commitment,
        ay,
        proof.comm_partial,
        pp.num_queries,
        g,
        pcs_log0(),
        rounds,
        log1,
        sp,
        r,
        gamma,
    );
    // the value the inner-product argument proves is the claimed one
    let rh = restrict_hi(f, lvals(ay), m2);
    assert(lvals(ax).len() == m2 && lvals(ay).len() == m1);
    lemma_exp2_adds(m2, m1);
    assert(lvals(alpha) =~= lvals(ax) + lvals(ay));
    lemma_mle_restrict_hi(f, lvals(ax), lvals(ay));
    assert forall|i: int| 0 <= i < a.len() implies #[trigger] a[i] % q() == rh[i] % q() by {
        lemma_mod_twice(rh[i], q());
    }
    lemma_mle_mod(a, rh, lvals(ax), q());
    lemma_fr_val_eq(sp_sigma, sigma);
    lemma_dot_mle(a, lvals(ax));
    // the commitment the inner-product argument opens is the partial value
    lemma_exp2_adds(m1, m2);
    lemma_chunk_mle(f, ck, m1, m2, lvals(ay));
    lemma_exp2_pos(pp.bp_setup.l as nat);
    law_bp_complete(pp.bp_setup, proof.comm_partial, ax, sigma, a, log1, proof.bullet_proof, log2, r_bp);
    assert(bp_shape_ok(proof.bullet_proof, pp.bp_setup.m, pp.bp_setup.l));
}

/// The inner product with a `gamma`-combination of tables is the
/// `gamma`-combination of the inner products, modulo `q`.
proof fn lemma_dot_gamma_tables(v: Seq<int>, tabs: Seq<Seq<int>>, g: int, n: nat)
    requires
        v.len() == n,
        forall|i: int| 0 <= i < tabs.len() ==> (#[trigger] tabs[i]).len() == n,
    ensures
        dot(v, gamma_tables(tabs, g, n)) % q() == gamma_sum(Seq::new(tabs.len(), |i: int| dot(v, tabs[i])), g) % q(),
{
    let k = tabs.len();
    let gt = gamma_tables(tabs, g, n);
    let lhs = Seq::new(min_len(v.len() as int, gt.len() as int) as nat, |j: int| v[j] * gt[j]);
    let mm = Seq::new(n, |j: int| Seq::new(k, |i: int| pow(g, i as nat) * (v[j] * tabs[i][j])));
    let rows = Seq::new(mm.len(), |j: int| ssum(mm[j]));
    assert forall|j: int| 0 <= j < n implies #[trigger] lhs[j] % q() == rows[j] % q() by {
        let col = Seq::new(k, |i: int| tabs[i][j]);
        let cs = Seq::new(col.len(), |i: int| pow(g, i as nat) * col[i]);
        assert(gamma_sum(col, g) == ssum(cs));
        assert forall|i: int| 0 <= i < k implies #[trigger] mm[j][i] == v[j] * cs[i] by {
            assert(pow(g, i as nat) * (v[j] * tabs[i][j]) == v[j] * (pow(g, i as nat) * tabs[i][j])) by (nonlinear_arith);
        }
        lemma_ssum_scale(mm[j], cs, v[j]);
        lemma_mul_mod_noop_right(v[j], ssum(cs), q());
    }
    lemma_ssum_mod(lhs, rows, q());
    lemma_ssum_swap(mm, k as int);
    let cols = Seq::new(k, |i: int| ssum(Seq::new(mm.len(), |j: int| mm[j][i])));
    let target = Seq::new(k, |i: int| pow(g, i as nat) * Seq::new(tabs.len(), |i2: int| dot(v, tabs[i2]))[i]);
    assert forall|i: int| 0 <= i < k implies #[trigger] cols[i] == target[i] by {
        let col = Seq::new(mm.len(), |j: int| mm[j][i]);
        let dd = Seq::new(min_len(v.len() as int, tabs[i].len() as int) as nat, |j: int| v[j] * tabs[i][j]);
        lemma_ssum_scale(col, dd, pow(g, i as nat));
    }
    assert(cols =~= target);
    assert(rows =~= Seq::new(mm.len(), |j: int| ssum(mm[j])));
}

/// A polynomial's table with its last variables fixed to `ay`, read at
/// `ax`, is the polynomial at `(ax, ay)`, modulo `q`.
proof fn lemma_partial_value(f: Seq<int>, ax: Seq<int>, ay: Seq<int>)
    requires
        f.len() == exp2(ax.len() + ay.len()),
    ensures
        mle(seq_mod(restrict_hi(f, ay, ax.len()), q()), ax) % q() == mle(f, ax + ay) % q(),
{
    let rh = restrict_hi(f, ay, ax.len());
    let a = seq_mod(rh, q());
    lemma_mle_restrict_hi(f, ax, ay);
    assert forall|i: int| 0 <= i < a.len() implies #[trigger] a[i] % q() == rh[i] % q() by {
        lemma_mod_twice(rh[i], q());
    }
    lemma_mle_mod(a, rh, ax, q());
}

/// Completeness of the batched evaluation proof: for the commitments to the
/// polynomials `polys` and the proof that `batch_prove` produces at
/// `alpha`, with `sigmas[i] = polys[i](alpha)`, there are combinations of
/// the partial values and of the values, as the verifier forms them, under
/// which its verdict is true for every choice of its batching scalars when
/// the authentication paths check out.
pub proof fn law_pcs_batch_complete(
    pp: TitanSetup,
    polys: Seq<MultilinearPoly<Fr>>,
    gs: Seq<MultilinearPoly<Pt>>,
    commitments: Seq<Seq<u8>>,
    alpha: Seq<Fr>,
    sigmas: Seq<Fr>,
    proof: TitanBatchEvalProof,
    rs: Seq<int>,
    delta: int,
    r_bp: int,
)
    requires
        pp.wf(),
        1 <= pp.l1 < pp.m1,
        pp.domain_g1@.len() > 0,
        pp.num_queries > 0,
        polys.len() > 0,
        gs.len() == polys.len(),
        commitments.len() == polys.len(),
        sigmas.len() == polys.len(),
        alpha.len() == pp.m,
        forall|i: int| 0 <= i < polys.len() ==> (#[trigger] polys[i]).wf() && polys[i].num_vars == pp.m,
        forall|i: int|
            0 <= i < gs.len() ==> (#[trigger] gs[i]).wf() && gs[i].num_vars == pp.m1 && gs[i].table() == chunk_commitments(
                polys[i].table(),
                pp.bp_setup.c_poly.table(),
                pp.m1 as nat,
                (pp.m - pp.m1) as nat,
            ),
        forall|i: int| 0 <= i < sigmas.len() ==> (#[trigger] sigmas[i]).val() == mle(polys[i].table(), lvals(alpha)) % q(),
        pcs_batch_prove_post(pp, polys, gs, commitments, alpha, proof),
        round_inverses_exist(lvals(alpha.skip((pp.m - pp.m1) as int)), pp.l1 as nat),
    ensures
        exists|c: Pt, sigma: Fr|
            pcs_batch_combined(pp, commitments, alpha, sigmas, proof, c, sigma) && pcs_batch_verdict(
                pp,
                commitments,
                alpha,
                proof,
                true,
                rs,
                delta,
                r_bp,
                c,
                sigma,
            ),
{
    let m1 = pp.m1 as nat;
    let m2 = (pp.m - pp.m1) as nat;
    let ck = pp.bp_setup.c_poly.table();
    let ax = alpha.take(m2 as int);
    let ay = alpha.skip(m2 as int);
    let k = polys.len();
    let a = partial_tables(polys, lvals(ay), m2);
    let cp = proof.comm_partials@;
    let sp = proof.partial_eval_proof;
    let (rounds, g, log1, c, sigma, log2) = choose|rounds: SumCheckGroupRounds, g: int, log1: Seq<TranscriptEntry>, c: Pt, sigma: Fr, log2: Seq<TranscriptEntry>|
        {
            &&& pcs_batch_partial_ok(pp, gs, commitments, ay, cp, proof.partial_eval_proof, rounds, g, log1)
            &&& c.log() == gamma_sum(lvals(cp), g) % q()
            &&& sigma.val() == gamma_sum(Seq::new(k, |i: int| mle(a[i], lvals(ax)) % q()), g) % q()
            &&& bp_prove_post(pp.bp_setup, c, ax, sigma, gamma_tables(a, g, exp2(m2)), log1, proof.bullet_proof, log2)
        };
    assert(pcs_batch_partial_ok(pp, gs, commitments, ay, cp, sp, rounds, g, log1));
    assert(lvals(ax).len() == m2 && lvals(ay).len() == m1);
    assert(lvals(alpha) =~= lvals(ax) + lvals(ay));
    lemma_exp2_adds(m2, m1);
    lemma_exp2_adds(m1, m2);
    // the values the verifier combines are the prover's
    let pv = Seq::new(k, |i: int| mle(a[i], lvals(ax)) % q());
    assert forall|i: int| 0 <= i < k implies #[trigger] pv[i] == lvals(sigmas)[i] by {
        assert(polys[i].wf());
        lemma_partial_value(polys[i].table(), lvals(ax), lvals(ay));
    }
    assert(pv =~= lvals(sigmas));
    assert(pcs_batch_combined(pp, commitments, alpha, sigmas, proof, c, sigma));
    // the batched group sum-check part
    assert forall|i: int| 0 <= i < gs.len() implies (#[trigger] cp[i]).log() == mle(gs[i].table(), lvals(ay)) % q() by {}
    assert(sgb_openings_ok(pp.domain_g1@, gs, m1, pp.l1 as nat, rounds, sp));
    law_group_batch_sumcheck_complete(
        pp.m1,
        pp.l1,
        pp.domain_g1@,
        commitments,
        ay,
        cp,
        pp.num_queries,
        gs,
        seq![TranscriptEntry::Init("batch_sumcheck"@)],
        rounds,
        g,
        log1,
        sp,
        rs,
        delta,
    );
    // the inner-product argument's claims
    let n2 = exp2(m2);
    let a0 = gamma_tables(a, g, n2);
    let e = seq_mod(eq_table(lvals(ax)), q());
    assert forall|i: int| 0 <= i < a.len() implies (#[trigger] a[i]).len() == n2 by {}
    lemma_dot_gamma_tables(ck, a, g, n2);
    lemma_dot_gamma_tables(e, a, g, n2);
    let dc = Seq::new(a.len(), |i: int| dot(ck, a[i]));
    let de = Seq::new(a.len(), |i: int| dot(e, a[i]));
    // commitments
    assert forall|i: int| 0 <= i < k implies #[trigger] lvals(cp)[i] % q() == dc[i] % q() by {
        assert(gs[i].wf());
        assert(polys[i].wf());
        lemma_chunk_mle(polys[i].table(), ck, m1, m2, lvals(ay));
        lemma_mod_twice(mle(gs[i].table(), lvals(ay)), q());
    }
    lemma_gamma_sum_congr(lvals(cp), dc, g);
    // values
    assert forall|i: int| 0 <= i < k implies #[trigger] pv[i] % q() == de[i] % q() by {
        lemma_dot_mle(a[i], lvals(ax));
        lemma_dot_comm(a[i], e);
        lemma_mod_twice(mle(a[i], lvals(ax)), q());
    }
    lemma_gamma_sum_congr(pv, de, g);
    lemma_dot_comm(a0, e);
    lemma_mod_twice(gamma_sum(lvals(cp), g), q());
    lemma_mod_twice(gamma_sum(pv, g), q());
    lemma_exp2_pos(pp.bp_setup.l as nat);
    law_bp_complete(pp.bp_setup, c, ax, sigma, a0, log1, proof.bullet_proof, log2, r_bp);
    assert(bp_shape_ok(proof.bullet_proof, pp.bp_setup.m, pp.bp_setup.l));
    assert(pcs_batch_verdict(pp, commitments, alpha, proof, true, rs, delta, r_bp, c, sigma));
}

/// Combinations of pointwise congruent values are congruent.
proof fn lemma_gamma_sum_congr(u: Seq<int>, v: Seq<int>, g: int)
    requires
        u.len() == v.len(),
        forall|i: int| 0 <= i < u.len() ==> #[trigger] u[i] % q() == v[i] % q(),
    ensures
        gamma_sum(u, g) % q() == gamma_sum(v, g) % q(),
{
    let su = Seq::new(u.len(), |i: int| pow(g, i as nat) * u[i]);
    let sv = Seq::new(v.len(), |i: int| pow(g, i as nat) * v[i]);
    assert forall|i: int| 0 <= i < su.len() implies #[trigger] su[i] % q() == sv[i] % q() by {
        lemma_mul_mod_noop_right(pow(g, i as nat), u[i], q());
        lemma_mul_mod_noop_right(pow(g, i as nat), v[i], q());
    }
    lemma_ssum_mod(su, sv, q());
}

/// The inner product is symmetric.
proof fn lemma_dot_comm(a: Seq<int>, b: Seq<int>)
    ensures
        dot(a, b) == dot(b, a),
{
    let d1 = Seq::new(min_len(a.len() as int, b.len() as int) as nat, |t: int| a[t] * b[t]);
    let d2 = Seq::new(min_len(b.len() as int, a.len() as int) as nat, |t: int| b[t] * a[t]);
    assert forall|t: int| 0 <= t < d1.len() implies #[trigger] d1[t] == d2[t] by {
        assert(a[t] * b[t] == b[t] * a[t]) by (nonlinear_arith);
    }
    assert(d1 =~= d2);
}

/// A table folded to `rho` in its first variables, read at `y`, is the
/// table read at `rho` followed by `y`, modulo `q`.
pub(crate) proof fn lemma_fold_seq_mle(c: Seq<int>, rho: Seq<int>, y: Seq<int>)
    requires
        c.len() == exp2(rho.len() + y.len()),
    ensures
        fold_seq(c, rho).len() == exp2(y.len()),
        mle(fold_seq(c, rho), y) % q() == mle(c, rho + y) % q(),
    decreases rho.len(),
{
    if rho.len() == 0 {
        assert(rho + y =~= y);
    } else {
        let rp = rho.drop_last();
        let x = rho.last();
        let y2 = seq![x] + y;
        assert(rp.len() + y2.len() == rho.len() + y.len());
        lemma_fold_seq_mle(c, rp, y2);
        let ff = fold_seq(c, rp);
        assert(exp2(y2.len()) == 2 * exp2(y.len()));
        lemma_mle_fold_lo(ff, y2);
        assert(y2[0] == x);
        assert(y2.drop_first() =~= y);
        let fl = fold_lo(ff, x);
        assert forall|i: int| 0 <= i < fl.len() implies #[trigger] seq_mod(fl, q())[i] % q() == fl[i] % q() by {
            lemma_mod_twice(fl[i], q());
        }
        lemma_mle_mod(seq_mod(fl, q()), fl, y, q());
        assert(fold_seq(c, rho) == seq_mod(fl, q()));
        assert(rp + y2 =~= rho + y);
    }
}

/// `eq` is symmetric in its two points.
proof fn lemma_eq_poly_symmetric(a: Seq<int>, x: Seq<int>)
    requires
        a.len() == x.len(),
    ensures
        eq_poly(a, x) == eq_poly(x, a),
    decreases a.len(),
{
    if a.len() > 0 {
        lemma_eq_poly_symmetric(a.drop_first(), x.drop_first());
        assert(a[0] * x[0] + (1 - a[0]) * (1 - x[0]) == x[0] * a[0] + (1 - x[0]) * (1 - a[0])) by (nonlinear_arith);
    }
}

/// The table of `q(x, y) = eq(x, point) · h(y)`, read at `(xs, ys)`, is
/// `eq(xs, point) · h(ys)` modulo `q`.
proof fn lemma_mle_agg_q(pt: Seq<int>, h: Seq<int>, xs: Seq<int>, ys: Seq<int>)
    requires
        pt.len() == xs.len(),
        h.len() == exp2(ys.len()),
    ensures
        mle(agg_q(pt, h), xs + ys) % q() == ((eq_poly(xs, pt) % q()) * (mle(h, ys) % q())) % q(),
{
    let m = xs.len();
    let mm = exp2(m) as int;
    lemma_exp2_pos(m);
    lemma_exp2_adds(m, ys.len());
    let qt = agg_q(pt, h);
    let e = seq_mod(eq_table(pt), q());
    let z = xs + ys;
    assert(z.len() == m + ys.len());
    let nh = h.len() as int;
    let ss = Seq::new(exp2(z.len()), |b: int| qt[b] * eq_at(z, b));
    let me = ssum(Seq::new(mm as nat, |j: int| e[j] * eq_at(xs, j)));
    let hw = Seq::new(nh as nat, |i: int| h[i] * eq_at(ys, i));
    let tt = Seq::new(nh as nat, |i: int| ssum(ss.subrange(i * mm, i * mm + mm)));
    assert(ss.len() == nh * mm);
    lemma_ssum_blocks(ss, tt, mm);
    let t2 = Seq::new(nh as nat, |i: int| hw[i] * me);
    assert forall|i: int| 0 <= i < nh implies #[trigger] tt[i] % q() == t2[i] % q() by {
        assert(i * mm + mm <= nh * mm) by (nonlinear_arith)
            requires
                0 <= i < nh,
                mm >= 0,
        ;
        let blk = ss.subrange(i * mm, i * mm + mm);
        let b2 = Seq::new(mm as nat, |j: int| hw[i] * (e[j] * eq_at(xs, j)));
        assert forall|j: int| 0 <= j < mm implies #[trigger] blk[j] % q() == b2[j] % q() by {
            lemma_eq_at_split(xs, ys, i, j);
            assert(i * mm + j >= 0) by (nonlinear_arith)
                requires
                    0 <= i,
                    0 <= j,
                    mm >= 0,
            ;
            vstd::arithmetic::div_mod::lemma_fundamental_div_mod_converse(i * mm + j, mm, i, j);
            assert(qt[i * mm + j] == (e[j] * h[i]) % q());
            lemma_mul_mod_noop_left(e[j] * h[i], eq_at(xs, j) * eq_at(ys, i), q());
            assert((e[j] * h[i]) * (eq_at(xs, j) * eq_at(ys, i)) == hw[i] * (e[j] * eq_at(xs, j))) by (nonlinear_arith)
                requires
                    hw[i] == h[i] * eq_at(ys, i),
            ;
            assert(blk[j] == qt[i * mm + j] * (eq_at(xs, j) * eq_at(ys, i)));
        }
        lemma_ssum_mod(blk, b2, q());
        lemma_ssum_scale(b2, Seq::new(mm as nat, |j: int| e[j] * eq_at(xs, j)), hw[i]);
        assert(hw[i] * me == me * hw[i]) by (nonlinear_arith);
    }
    lemma_ssum_mod(tt, t2, q());
    assert forall|i: int| 0 <= i < nh implies #[trigger] t2[i] == me * hw[i] by {
        assert(hw[i] * me == me * hw[i]) by (nonlinear_arith);
    }
    lemma_ssum_scale(t2, hw, me);
    assert(mle(h, ys) == ssum(hw));
    // the eq factor
    lemma_mle_eq_table(pt, xs);
    lemma_eq_poly_symmetric(pt, xs);
    let et = eq_table(pt);
    assert forall|j: int| 0 <= j < et.len() implies #[trigger] e[j] % q() == et[j] % q() by {
        lemma_mod_twice(et[j], q());
    }
    lemma_mle_mod(e, et, xs, q());
    assert(me == mle(e, xs));
    lemma_mul_mod_noop_left(me, mle(h, ys), q());
    lemma_mul_mod_noop_right(eq_poly(xs, pt) % q(), mle(h, ys), q());
    assert(mle(qt, z) == ssum(ss));
}

/// The selector table read at `ys` is `Σ_{i < k} gamma^i eq(ys, i)`,
/// modulo `q`.
proof fn lemma_mle_agg_h(g: int, k: nat, ys: Seq<int>)
    requires
        k <= exp2(ys.len()),
    ensures
        mle(agg_h(g, k, ys.len()), ys) % q() == gamma_eq_sum(g, k, ys) % q(),
{
    let h = agg_h(g, k, ys.len());
    let ss = Seq::new(exp2(ys.len()), |b: int| h[b] * eq_at(ys, b));
    lemma_ssum_split(ss, k as int);
    let tk = Seq::new(k, |i: int| pow(g, i as nat) * Seq::new(k, |i2: int| eq_at(ys, i2))[i]);
    assert forall|i: int| 0 <= i < k implies #[trigger] ss.take(k as int)[i] % q() == tk[i] % q() by {
        lemma_mul_mod_noop_left(pow(g, i as nat), eq_at(ys, i), q());
    }
    lemma_ssum_mod(ss.take(k as int), tk, q());
    assert forall|i: int| 0 <= i < ss.skip(k as int).len() implies #[trigger] ss.skip(k as int)[i] == 0 by {
        let b = k + i;
        assert(ss.skip(k as int)[i] == ss[b]);
        assert(h[b] == 0);
        assert(ss[b] == 0 * eq_at(ys, b));
    }
    lemma_ssum_zero(ss.skip(k as int));
}

/// The sum over the cube of the aggregate polynomial times `q` is the
/// `gamma`-combination of the values, modulo `q`.
proof fn lemma_agg_claim(f: Seq<int>, pt: Seq<int>, g: int, k: nat, s: nat, vals: Seq<int>)
    requires
        f.len() == exp2(pt.len() + s),
        k <= exp2(s),
        vals.len() == k,
        forall|i: int| 0 <= i < k ==> #[trigger] vals[i] == seq_mod(restrict_lo(f, pt, s), q())[i],
    ensures
        cube_sum(ProductCombine, seq![f, agg_q(pt, agg_h(g, k, s))], exp2(pt.len() + s)) % q() == gamma_sum(vals, g) % q(),
{
    let m = pt.len();
    let mm = exp2(m) as int;
    let ns = exp2(s) as int;
    lemma_exp2_pos(m);
    lemma_exp2_adds(m, s);
    let h = agg_h(g, k, s);
    let qt = agg_q(pt, h);
    let tabs = seq![f, qt];
    let e = seq_mod(eq_table(pt), q());
    let rr = restrict_lo(f, pt, s);
    let ss = Seq::new(exp2(m + s), |b: int| ProductCombine.spec_combine(column(tabs, b)));
    let tt = Seq::new(ns as nat, |y: int| ssum(ss.subrange(y * mm, y * mm + mm)));
    assert(ss.len() == ns * mm) by (nonlinear_arith)
        requires
            ss.len() == exp2(m + s),
            exp2(m + s) == mm * ns,
    ;
    lemma_ssum_blocks(ss, tt, mm);
    let t2 = Seq::new(ns as nat, |y: int| h[y] * rr[y]);
    assert forall|y: int| 0 <= y < ns implies #[trigger] tt[y] % q() == t2[y] % q() by {
        assert(y * mm + mm <= ns * mm) by (nonlinear_arith)
            requires
                0 <= y < ns,
                mm >= 0,
        ;
        let blk = ss.subrange(y * mm, y * mm + mm);
        let rt = Seq::new(exp2(pt.len()), |j: int| f[y * exp2(pt.len()) + j] * eq_at(pt, j));
        let b2 = Seq::new(mm as nat, |j: int| h[y] * rt[j]);
        assert forall|j: int| 0 <= j < mm implies #[trigger] blk[j] % q() == b2[j] % q() by {
            assert(y * mm + j >= 0) by (nonlinear_arith)
                requires
                    0 <= y,
                    0 <= j,
                    mm >= 0,
            ;
            vstd::arithmetic::div_mod::lemma_fundamental_div_mod_converse(y * mm + j, mm, y, j);
            let fv = f[y * mm + j];
            assert(blk[j] == fv * ((e[j] * h[y]) % q()));
            lemma_mul_mod_noop_right(fv, e[j] * h[y], q());
            lemma_mod_twice(eq_at(pt, j), q());
            crate::sums::lemma_mul_mod_congruent(e[j], eq_at(pt, j), fv * h[y], q());
            assert(fv * (e[j] * h[y]) == e[j] * (fv * h[y])) by (nonlinear_arith);
            assert(eq_at(pt, j) * (fv * h[y]) == h[y] * (fv * eq_at(pt, j))) by (nonlinear_arith);
        }
        lemma_ssum_mod(blk, b2, q());
        lemma_ssum_scale(b2, rt, h[y]);
        assert(ssum(rt) == rr[y]);
    }
    lemma_ssum_mod(tt, t2, q());
    lemma_ssum_split(t2, k as int);
    let gt = Seq::new(vals.len(), |i: int| pow(g, i as nat) * vals[i]);
    assert forall|i: int| 0 <= i < k implies #[trigger] t2.take(k as int)[i] % q() == gt[i] % q() by {
        lemma_mul_mod_noop_left(pow(g, i as nat), rr[i], q());
        lemma_mul_mod_noop_right(pow(g, i as nat), rr[i], q());
    }
    lemma_ssum_mod(t2.take(k as int), gt, q());
    assert forall|i: int| 0 <= i < t2.skip(k as int).len() implies #[trigger] t2.skip(k as int)[i] == 0 by {
        let y = k + i;
        assert(t2.skip(k as int)[i] == t2[y]);
        assert(h[y] == 0);
        assert(t2[y] == 0 * rr[y]);
    }
    lemma_ssum_zero(t2.skip(k as int));
    assert(cube_sum(ProductCombine, tabs, exp2(m + s)) == ssum(ss));
}

/// Completeness of the aggregate evaluation proof: for the commitment to
/// the aggregate polynomial and the proof that `aggregate_prove` produces
/// for `point` and the first `max_idx` polynomials, the verifier accepts
/// for every choice of the batching scalars of the final evaluation proof
/// when the authentication paths check out.
pub proof fn law_pcs_aggregate_complete(
    pp: TitanSetup,
    poly: MultilinearPoly<Fr>,
    commitment: Seq<u8>,
    point: Seq<Fr>,
    max_idx: nat,
    proof: AggregateEvalProof,
    r: int,
    gamma: int,
    r_bp: int,
)
    requires
        pp.wf(),
        1 <= pp.l1 < pp.m1,
        pp.domain_g1@.len() > 0,
        pp.num_queries > 0,
        poly.wf(),
        poly.num_vars == pp.m,
        point.len() <= pp.m,
        max_idx <= exp2((pp.m - point.len()) as nat),
        agg_sumcheck_ok(poly.table(), point, max_idx, pp.m as nat, proof.evaluations@, proof.sumcheck_proof),
        proof.p_at_r.canonical(),
        proof.p_at_r.val() == mle(
            poly.table(),
            agg_challenges(
                poly.table(),
                point,
                max_idx,
                pp.m as nat,
                proof.evaluations@,
                proof.sumcheck_proof.rounds(),
            ),
        ) % q(),
        pcs_prove_post(
            pp,
            poly.table(),
            chunk_commitments(poly.table(), pp.bp_setup.c_poly.table(), pp.m1 as nat, (pp.m - pp.m1) as nat),
            commitment,
            agg_point(poly.table(), point, max_idx, pp.m as nat, proof.evaluations@, proof.sumcheck_proof),
            proof.eval_proof,
        ),
        round_inverses_exist(
            lvals(
                agg_point(poly.table(), point, max_idx, pp.m as nat, proof.evaluations@, proof.sumcheck_proof).skip(
                    (pp.m - pp.m1) as int,
                ),
            ),
            pp.l1 as nat,
        ),
    ensures
        agg_verdict(pp, commitment, point, pp.m as nat, max_idx, proof, true, r, gamma, r_bp),
{
    let f = poly.table();
    let n = pp.m as nat;
    let m = point.len();
    let s = (n - m) as nat;
    let ev = proof.evaluations@;
    let g = agg_gamma(ev);
    let pv = lvals(point);
    let h = agg_h(g, max_idx, s);
    let qt = agg_q(pv, h);
    let tabs = agg_tables(f, point, max_idx, n, ev);
    let rounds = proof.sumcheck_proof.rounds();
    let chs = agg_challenges(f, point, max_idx, n, ev, rounds);
    let log0 = agg_log(ev);
    assert(tabs == seq![f, qt]);
    assert(pv.len() + s == n);
    // the claimed sum is the combination of the values
    lemma_agg_claim(f, pv, g, max_idx, s, lvals(ev));
    let claimed = cube_sum(ProductCombine, tabs, exp2(n)) % q();
    let v = gamma_sum(lvals(ev), g) % q();
    assert(claimed == v);
    // the sum-check passes
    lemma_exp2_adds(m, s);
    assert(qt.len() == exp2(n)) by (nonlinear_arith)
        requires
            qt.len() == h.len() * exp2(m),
            h.len() == exp2(s),
            exp2(n) == exp2(m) * exp2(s),
    ;
    assert forall|p: int, b: int| 0 <= p < tabs.len() && 0 <= b < exp2(n) implies (#[trigger] tabs[p][b]) >= 0
        && tabs[p][b] < q() && tabs[p].len() == exp2(n) by {
        if p == 0 {
            poly.coeffs@[b].lemma_val_range();
        }
    }
    assert(honest_run(ProductCombine, 2, log0, tabs, n, rounds, chs));
    law_product_sumcheck_complete(log0, tabs, n, rounds, chs);
    // the claim left is the product of the two tables at the challenges
    let chv = Seq::new(n, |j: int| sc_challenge(log0, v, rounds, j as nat));
    assert(chv =~= chs);
    let rt = round_tables(tabs, chs);
    lemma_fold_seq_mle(f, chs, Seq::<int>::empty());
    lemma_fold_seq_mle(qt, chs, Seq::<int>::empty());
    assert(chs + Seq::<int>::empty() =~= chs);
    assert(exp2(0) == 1);
    lemma_mle_empty(rt[0]);
    lemma_mle_empty(rt[1]);
    assert(chs.take(m as int) + chs.skip(m as int) =~= chs);
    lemma_mle_agg_q(pv, h, chs.take(m as int), chs.skip(m as int));
    lemma_mle_agg_h(g, max_idx, chs.skip(m as int));
    let qr = ((eq_poly(chs.take(m as int), pv) % q()) * (gamma_eq_sum(g, max_idx, chs.skip(m as int)) % q())) % q();
    lemma_mul_mod_noop_right(eq_poly(chs.take(m as int), pv) % q(), mle(h, chs.skip(m as int)), q());
    lemma_mul_mod_noop_right(eq_poly(chs.take(m as int), pv) % q(), gamma_eq_sum(g, max_idx, chs.skip(m as int)), q());
    assert(rt[1][0] % q() == qr);
    let pr = proof.p_at_r.val();
    assert(pr == rt[0][0] % q());
    lemma_mul_mod_noop_left(rt[0][0], rt[1][0], q());
    lemma_mul_mod_noop_right(rt[0][0] % q(), rt[1][0], q());
    assert((pr * qr) % q() == sc_prev_claim(log0, v, rounds, n));
    // the final evaluation proof at the challenge point
    let pt = agg_point(f, point, max_idx, n, ev, proof.sumcheck_proof);
    assert forall|j: int| 0 <= j < n implies #[trigger] lvals(pt)[j] == chs[j] by {
        lemma_fr_of_val_val(chs[j]);
    }
    assert(lvals(pt) =~= chs);
    assert(Seq::new(n, |j: int| fr_of_val(chv[j])) =~= pt);
    law_pcs_complete(pp, f, commitment, pt, proof.p_at_r, proof.eval_proof, r, gamma, r_bp);
}

/// An accepted aggregate proof binds its evaluations and its point. When the
/// aggregate verifier accepts, with `r = (r_x, r_y)` the challenges of its
/// sum-check and `γ` the batching scalar drawn from the evaluations:
/// the first round sums to `Σ_i γ^i evaluations[i]`, each later round to the
/// previous round polynomial at the previous challenge, and the final claim
/// is `p(r) · eq(r_x, point) · Σ_{i < max_idx} γ^i eq(r_y, i)`, where
/// `p(r)` is the value that the single evaluation proof, accepted at `r`
/// against the commitment, opens.
pub proof fn law_aggregate_accept_binds_point(
    pp: TitanSetup,
    commitment: Seq<u8>,
    point: Seq<Fr>,
    n: nat,
    max_idx: nat,
    proof: AggregateEvalProof,
    merkle_ok: bool,
    r: int,
    gamma: int,
    r_bp: int,
)
    requires
        agg_verdict(pp, commitment, point, n, max_idx, proof, merkle_ok, r, gamma, r_bp),
    ensures
        ({
            let ev = proof.evaluations@;
            let g = agg_gamma(ev);
            let v = gamma_sum(lvals(ev), g) % q();
            let rounds = proof.sumcheck_proof.rounds();
            let log1 = agg_log(ev);
            let m = point.len() as int;
            let chs = Seq::new(n, |j: int| sc_challenge(log1, v, rounds, j as nat));
            &&& rounds.len() == n
            &&& n > 0 ==> (rounds[0][0] + rounds[0][1]) % q() == gamma_sum(lvals(ev), g) % q()
            &&& forall|j: int|
                1 <= j < n ==> (#[trigger] rounds[j][0] + rounds[j][1]) % q() == sc_prev_claim(log1, v, rounds, j as nat)
            &&& (proof.p_at_r.val() * eq_poly(chs.take(m), lvals(point)) * gamma_eq_sum(g, max_idx, chs.skip(m))) % q()
                == sc_prev_claim(log1, v, rounds, n)
            &&& pcs_verdict(
                pp,
                commitment,
                Seq::new(n, |j: int| fr_of_val(chs[j])),
                proof.p_at_r,
                proof.eval_proof,
                merkle_ok,
                r,
                gamma,
                r_bp,
            )
        }),
{
    let ev = proof.evaluations@;
    let g = agg_gamma(ev);
    let v = gamma_sum(lvals(ev), g) % q();
    let rounds = proof.sumcheck_proof.rounds();
    let log1 = agg_log(ev);
    let m = point.len() as int;
    let chs = Seq::new(n, |j: int| sc_challenge(log1, v, rounds, j as nat));
    let p = proof.p_at_r.val();
    let e = eq_poly(chs.take(m), lvals(point));
    let h = gamma_eq_sum(g, max_idx, chs.skip(m));
    if n > 0 {
        assert(!sc_round_fails(log1, v, rounds, 2, 0));
    }
    assert forall|j: int| 1 <= j < n implies (#[trigger] rounds[j][0] + rounds[j][1]) % q() == sc_prev_claim(
        log1,
        v,
        rounds,
        j as nat,
    ) by {
        assert(!sc_round_fails(log1, v, rounds, 2, j));
    }
    // the product of the factors reduced modulo q
    lemma_mul_mod_noop_left(e, h % q(), q());
    lemma_mul_mod_noop_right(e, h, q());
    lemma_mul_mod_noop_right(p, (e % q()) * (h % q()), q());
    lemma_mul_mod_noop_right(p, e * h, q());
    assert(p * (e * h) == p * e * h) by (nonlinear_arith);
}

/// An aggregate proof accepted at two points: the two sum-checks are the
/// same, for the point does not enter the transcript, so
/// `p(r) · Σ_{i < max_idx} γ^i eq(r_y, i) · (eq(r_x, point) - eq(r_x, point2))`
/// is a multiple of `q`. An aggregate proof made for one point is rejected
/// at another point unless that product vanishes.
pub proof fn law_aggregate_accept_two_points(
    pp: TitanSetup,
    commitment: Seq<u8>,
    point: Seq<Fr>,
    point2: Seq<Fr>,
    n: nat,
    max_idx: nat,
    proof: AggregateEvalProof,
    merkle_ok: bool,
    r: int,
    gamma: int,
    r_bp: int,
)
    requires
        point.len() == point2.len(),
        agg_verdict(pp, commitment, point, n, max_idx, proof, merkle_ok, r, gamma, r_bp),
        agg_verdict(pp, commitment, point2, n, max_idx, proof, merkle_ok, r, gamma, r_bp),
    ensures
        ({
            let ev = proof.evaluations@;
            let g = agg_gamma(ev);
            let v = gamma_sum(lvals(ev), g) % q();
            let rounds = proof.sumcheck_proof.rounds();
            let log1 = agg_log(ev);
            let m = point.len() as int;
            let chs = Seq::new(n, |j: int| sc_challenge(log1, v, rounds, j as nat));
            (proof.p_at_r.val() * gamma_eq_sum(g, max_idx, chs.skip(m)) * (eq_poly(chs.take(m), lvals(point)) - eq_poly(
                chs.take(m),
                lvals(point2),
            ))) % q() == 0
        }),
{
    law_aggregate_accept_binds_point(pp, commitment, point, n, max_idx, proof, merkle_ok, r, gamma, r_bp);
    law_aggregate_accept_binds_point(pp, commitment, point2, n, max_idx, proof, merkle_ok, r, gamma, r_bp);
    let ev = proof.evaluations@;
    let g = agg_gamma(ev);
    let v = gamma_sum(lvals(ev), g) % q();
    let rounds = proof.sumcheck_proof.rounds();
    let log1 = agg_log(ev);
    let m = point.len() as int;
    let chs = Seq::new(n, |j: int| sc_challenge(log1, v, rounds, j as nat));
    let p = proof.p_at_r.val();
    let h = gamma_eq_sum(g, max_idx, chs.skip(m));
    let e1 = eq_poly(chs.take(m), lvals(point));
    let e2 = eq_poly(chs.take(m), lvals(point2));
    assert(p * h * (e1 - e2) == p * e1 * h - p * e2 * h) by (nonlinear_arith);
    vstd::arithmetic::div_mod::lemma_sub_mod_noop(p * e1 * h, p * e2 * h, q());
    vstd::arithmetic::div_mod::lemma_small_mod(0, q() as nat);
}

} // verus!
