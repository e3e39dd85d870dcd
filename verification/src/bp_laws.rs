//! The commitment half of the inner-product argument's completeness: the
//! commitment claim, folded through the rounds with the honest cross terms,
//! is the folded witness against the folded generators.
use vstd::prelude::*;
use vstd::arithmetic::div_mod::{lemma_mul_mod_noop_left, lemma_mul_mod_noop_right, lemma_mod_twice, lemma_add_mod_noop, lemma_small_mod};
use crate::field::{q, Fr};
use crate::sums::{dot, ssum, exp2, min_len, lemma_exp2_pos, lemma_ssum_add, lemma_ssum_scale, lemma_ssum_mod, lemma_ssum_pairs, lemma_ssum_swap};
use crate::mle::{eq_at, eqf, eq_table, seq_mod, fold_hi, restrict_hi};
use crate::bulletproof::{
    bp_e_tab, rev_seq, bp_a_tab, bp_cl, bp_cr, bp_lfac, bp_rfac, bp_p, bp_prove_post, bp_init_log, bp_xs, bp_verifier_xs,
    BulletProofParams, BulletProof, lemma_fold_dot, lemma_claim_congr, lemma_bp_tabs_len, lemma_folded_dot_mod,
};
use crate::traits::{Linear, InnerProduct, ByteSerializable, lvals};
use crate::transcript::TranscriptEntry;
use crate::utils::{rev_bits, lemma_rev_bits_range};
use crate::mle::{mle, fold_lo, lemma_mle_fold_lo, lemma_mle_fold_hi, lemma_mle_empty, lemma_mle_mod, lemma_mle_restrict_hi};
use crate::group_laws::{lemma_dot_mle, lemma_leaf_value, lemma_dot_concat};
use crate::bulletproof::{
    bp_leaves, bp_negs, bp_yterms, bp_ytab, bp_scalars, bp_verdict, bp_after_log, bp_queries, BP_NUM_QUERIES, pow_vals,
    law_bp_evaluation_complete,
};
use vstd::arithmetic::power::pow;

verus! {

/// The generators folded with the challenges `ch` are, modulo `q`, the
/// generators restricted in their last variables to the reversed challenges.
proof fn lemma_e_tab_closed(ck: Seq<int>, ch: Seq<int>, m: nat)
    requires
        ck.len() == exp2(m),
        ch.len() <= m,
    ensures
        bp_e_tab(ck, ch).len() == exp2((m - ch.len()) as nat),
        forall|j: int|
            0 <= j < exp2((m - ch.len()) as nat) ==> #[trigger] bp_e_tab(ck, ch)[j] % q() == restrict_hi(
                ck,
                rev_seq(ch),
                (m - ch.len()) as nat,
            )[j] % q(),
    decreases ch.len(),
{
    let i = ch.len();
    if i == 0 {
        assert forall|j: int| 0 <= j < exp2(m) implies #[trigger] bp_e_tab(ck, ch)[j] % q() == restrict_hi(ck, rev_seq(ch), m)[j] % q() by {
            let s = Seq::new(exp2(rev_seq(ch).len()), |b: int| ck[b * exp2(m) + j] * eq_at(rev_seq(ch), b));
            assert(exp2(0) == 1);
            assert(s.len() == 1);
            assert(eq_at(rev_seq(ch), 0) == 1);
            assert(s[0] == ck[j]);
            crate::sums::lemma_ssum_single(s);
        }
    } else {
        let ch0 = ch.drop_last();
        let x = ch.last();
        lemma_e_tab_closed(ck, ch0, m);
        let w1 = exp2((m - i) as nat) as int;
        let w0 = exp2((m - i + 1) as nat) as int;
        lemma_exp2_pos((m - i) as nat);
        assert(w0 == 2 * w1);
        let e0 = bp_e_tab(ck, ch0);
        assert(e0.len() == w0);
        let r0 = restrict_hi(ck, rev_seq(ch0), (m - i + 1) as nat);
        assert(rev_seq(ch).drop_first() =~= rev_seq(ch0));
        assert(rev_seq(ch)[0] == x);
        let nb = exp2((i - 1) as nat) as int;
        lemma_exp2_pos((i - 1) as nat);
        assert(exp2(i as nat) == 2 * exp2((i - 1) as nat));
        assert(e0.len() / 2 == w1);
        assert forall|j: int| 0 <= j < w1 implies #[trigger] bp_e_tab(ck, ch)[j] % q() == restrict_hi(ck, rev_seq(ch), (m - i) as nat)[j] % q() by {
            let rc = rev_seq(ch);
            let rc0 = rev_seq(ch0);
            let ss = Seq::new(exp2(rc.len()), |b: int| ck[b * exp2((m - i) as nat) + j] * eq_at(rc, b));
            let uu = Seq::new(nb as nat, |b: int| ck[b * w0 + j] * eq_at(rc0, b));
            let vv = Seq::new(nb as nat, |b: int| ck[b * w0 + (j + w1)] * eq_at(rc0, b));
            let u2 = Seq::new(nb as nat, |b: int| (1 - x) * uu[b]);
            let v2 = Seq::new(nb as nat, |b: int| x * vv[b]);
            let tt = Seq::new(nb as nat, |b: int| u2[b] + v2[b]);
            assert forall|b: int| 0 <= b < nb implies #[trigger] tt[b] == ss[2 * b] + ss[2 * b + 1] by {
                let e = eq_at(rc0, b);
                assert(eq_at(rc, 2 * b) == eqf(rc[0], (2 * b) % 2 == 1) * eq_at(rc.drop_first(), (2 * b) / 2));
                assert(eq_at(rc, 2 * b + 1) == eqf(rc[0], (2 * b + 1) % 2 == 1) * eq_at(rc.drop_first(), (2 * b + 1) / 2));
                assert(eq_at(rc, 2 * b) == (1 - x) * e);
                assert(eq_at(rc, 2 * b + 1) == x * e);
                assert(2 * b * w1 == b * w0) by (nonlinear_arith)
                    requires
                        w0 == 2 * w1,
                ;
                assert((2 * b + 1) * w1 == b * w0 + w1) by (nonlinear_arith)
                    requires
                        w0 == 2 * w1,
                ;
                let c0 = ck[b * w0 + j];
                let c1 = ck[b * w0 + (j + w1)];
                assert(ss[2 * b] == c0 * ((1 - x) * e));
                assert(ss[2 * b + 1] == c1 * (x * e));
                assert(c0 * ((1 - x) * e) == (1 - x) * (c0 * e)) by (nonlinear_arith);
                assert(c1 * (x * e) == x * (c1 * e)) by (nonlinear_arith);
            }
            lemma_ssum_pairs(ss, tt);
            lemma_ssum_add(tt, u2, v2);
            lemma_ssum_scale(u2, uu, 1 - x);
            lemma_ssum_scale(v2, vv, x);
            assert(ssum(uu) == r0[j]);
            assert(ssum(vv) == r0[j + w1]);
            // the stored table is the fold of the previous one, reduced
            let f0 = e0[j];
            let f1 = e0[j + w1];
            assert(bp_e_tab(ck, ch)[j] == (f0 * (1 - x) + f1 * x) % q());
            crate::sums::lemma_mul_mod_congruent(f0, r0[j], 1 - x, q());
            crate::sums::lemma_mul_mod_congruent(f1, r0[j + w1], x, q());
            lemma_add_mod_noop(f0 * (1 - x), f1 * x, q());
            lemma_add_mod_noop(r0[j] * (1 - x), r0[j + w1] * x, q());
            lemma_mod_twice(f0 * (1 - x) + f1 * x, q());
            assert(r0[j] * (1 - x) == (1 - x) * r0[j]) by (nonlinear_arith);
            assert(r0[j + w1] * x == x * r0[j + w1]) by (nonlinear_arith);
        }
    }
}

/// A cross term of the commitment claim, `Σ_b eq(rev(ch), b) ·
/// ⟨half of block b of ck, other half of a⟩`, is that half of `a` against
/// the matching half of the folded generators, modulo `q`.
proof fn lemma_cross(ck: Seq<int>, aa: Seq<int>, ch: Seq<int>, m: nat, off_ck: int, off_a: int)
    requires
        ck.len() == exp2(m),
        ch.len() < m,
        aa.len() == exp2((m - ch.len()) as nat),
        0 <= off_ck <= aa.len() / 2,
        0 <= off_a <= aa.len() / 2,
        off_ck + aa.len() / 2 <= aa.len(),
        off_a + aa.len() / 2 <= aa.len(),
    ensures
        ({
            let w = aa.len() as int;
            let h = w / 2;
            let ee = bp_e_tab(ck, ch);
            dot(
                Seq::new(exp2(ch.len()), |b: int| dot(ck.subrange(b * w + off_ck, b * w + off_ck + h), aa.subrange(off_a, off_a + h)) % q()),
                seq_mod(eq_table(rev_seq(ch)), q()),
            ) % q() == dot(aa.subrange(off_a, off_a + h), ee.subrange(off_ck, off_ck + h)) % q()
        }),
{
    let i = ch.len();
    let w = aa.len() as int;
    let h = w / 2;
    let nb = exp2(i) as int;
    let ee = bp_e_tab(ck, ch);
    let rc = rev_seq(ch);
    lemma_e_tab_closed(ck, ch, m);
    let rr = restrict_hi(ck, rc, (m - i) as nat);
    lemma_exp2_pos(i);
    lemma_exp2_pos((m - i) as nat);
    crate::sums::lemma_exp2_adds(i, (m - i) as nat);
    assert(nb * w == exp2(m)) by {
        assert(i + (m - i) as nat == m);
    }
    let ll = Seq::new(nb as nat, |b: int| dot(ck.subrange(b * w + off_ck, b * w + off_ck + h), aa.subrange(off_a, off_a + h)) % q());
    let ev = seq_mod(eq_table(rc), q());
    let lhs = Seq::new(min_len(ll.len() as int, ev.len() as int) as nat, |b: int| ll[b] * ev[b]);
    let mm = Seq::new(nb as nat, |b: int| Seq::new(h as nat, |j: int| eq_at(rc, b) * (ck[b * w + off_ck + j] * aa[off_a + j])));
    let rows = Seq::new(mm.len(), |b: int| ssum(mm[b]));
    assert forall|b: int| 0 <= b < nb implies #[trigger] lhs[b] % q() == rows[b] % q() by {
        assert(b * w + w <= nb * w) by (nonlinear_arith)
            requires
                0 <= b < nb,
                w >= 0,
        ;
        let dd = Seq::new(h as nat, |j: int| ck[b * w + off_ck + j] * aa[off_a + j]);
        let sub1 = ck.subrange(b * w + off_ck, b * w + off_ck + h);
        let sub2 = aa.subrange(off_a, off_a + h);
        assert(Seq::new(min_len(sub1.len() as int, sub2.len() as int) as nat, |j: int| sub1[j] * sub2[j]) =~= dd);
        lemma_ssum_scale(mm[b], dd, eq_at(rc, b));
        let eb = eq_at(rc, b);
        lemma_mul_mod_noop_left(ssum(dd), eb % q(), q());
        lemma_mul_mod_noop_right(ssum(dd), eb, q());
        assert(ssum(dd) * eb == eb * ssum(dd)) by (nonlinear_arith);
    }
    lemma_ssum_mod(lhs, rows, q());
    lemma_ssum_swap(mm, h);
    let cols = Seq::new(h as nat, |j: int| ssum(Seq::new(mm.len(), |b: int| mm[b][j])));
    let rhs = Seq::new(h as nat, |j: int| aa[off_a + j] * ee[off_ck + j]);
    assert forall|j: int| 0 <= j < h implies #[trigger] cols[j] % q() == rhs[j] % q() by {
        let col = Seq::new(mm.len(), |b: int| mm[b][j]);
        let rt = Seq::new(nb as nat, |b: int| ck[b * exp2((m - i) as nat) + (off_ck + j)] * eq_at(rc, b));
        assert forall|b: int| 0 <= b < nb implies #[trigger] col[b] == aa[off_a + j] * rt[b] by {
            assert(b * w + off_ck + j == b * exp2((m - i) as nat) + (off_ck + j));
            let c = ck[b * w + off_ck + j];
            assert(eq_at(rc, b) * (c * aa[off_a + j]) == aa[off_a + j] * (c * eq_at(rc, b))) by (nonlinear_arith);
        }
        lemma_ssum_scale(col, rt, aa[off_a + j]);
        assert(ssum(rt) == rr[off_ck + j]);
        assert(ee[off_ck + j] % q() == rr[off_ck + j] % q());
        lemma_mul_mod_noop_right(aa[off_a + j], ee[off_ck + j], q());
        lemma_mul_mod_noop_right(aa[off_a + j], rr[off_ck + j], q());
    }
    lemma_ssum_mod(cols, rhs, q());
    assert(rows =~= Seq::new(mm.len(), |b: int| ssum(mm[b])));
    let s1 = aa.subrange(off_a, off_a + h);
    let s2 = ee.subrange(off_ck, off_ck + h);
    assert(Seq::new(min_len(s1.len() as int, s2.len() as int) as nat, |j: int| s1[j] * s2[j]) =~= rhs);
    lemma_mod_twice(ssum(lhs), q());
}

/// The commitment claim after `i` rounds is, modulo `q`, the witness folded
/// with the first `i` challenges against the generators folded with them.
proof fn lemma_bp_commit_rounds<C: Linear>(
    p0: int,
    a0: Seq<int>,
    ck: Seq<int>,
    cls: Seq<C>,
    crs: Seq<C>,
    xs: Seq<int>,
    m: nat,
    i: nat,
)
    requires
        a0.len() == exp2(m),
        ck.len() == exp2(m),
        i <= xs.len() <= m,
        cls.len() >= xs.len() && crs.len() >= xs.len(),
        p0 % q() == dot(a0, ck) % q(),
        forall|j: int|
            0 <= j < xs.len() ==> #[trigger] cls[j].lin_val() == bp_cl(ck, bp_a_tab(a0, xs.take(j)), xs.take(j))
                && crs[j].lin_val() == bp_cr(ck, bp_a_tab(a0, xs.take(j)), xs.take(j)),
    ensures
        bp_p(p0, cls, crs, xs, i) % q() == dot(bp_a_tab(a0, xs.take(i as int)), bp_e_tab(ck, xs.take(i as int))) % q(),
    decreases i,
{
    if i == 0 {
        assert(xs.take(0) =~= Seq::<int>::empty());
    } else {
        let j = (i - 1) as int;
        lemma_bp_commit_rounds(p0, a0, ck, cls, crs, xs, m, (i - 1) as nat);
        let ch = xs.take(j);
        let aa = bp_a_tab(a0, ch);
        let ee = bp_e_tab(ck, ch);
        let x = xs[j];
        lemma_bp_tabs_len(a0, ck, ch, m);
        let k = (m - j) as nat;
        assert(exp2(k) == 2 * exp2((k - 1) as nat));
        assert(xs.take(i as int).drop_last() =~= ch);
        assert(xs.take(i as int).last() == x);
        let w = aa.len() as int;
        let h = w / 2;
        assert(w == 2 * h);
        lemma_fold_dot(aa, ee, x);
        lemma_folded_dot_mod(aa, ee, x);
        assert(bp_a_tab(a0, xs.take(i as int)) == seq_mod(fold_hi(aa, (1 - x) % q()), q()));
        assert(bp_e_tab(ck, xs.take(i as int)) == seq_mod(fold_hi(ee, x), q()));
        // the cross terms are the halves of the witness against the folded generators
        lemma_cross(ck, aa, ch, m, 0, h);
        lemma_cross(ck, aa, ch, m, h, 0);
        let nb = exp2(ch.len());
        assert(Seq::new(nb, |b: int| bp_lfac(ck, aa, b)) =~= Seq::new(nb, |b: int| dot(ck.subrange(b * w + 0, b * w + 0 + h), aa.subrange(h, h + h)) % q()));
        assert(Seq::new(nb, |b: int| bp_rfac(ck, aa, b)) =~= Seq::new(nb, |b: int| dot(ck.subrange(b * w + h, b * w + h + h), aa.subrange(0, 0 + h)) % q()));
        assert(aa.subrange(h, h + h) =~= aa.skip(h));
        assert(ee.subrange(0, 0 + h) =~= ee.take(h));
        assert(aa.subrange(0, 0 + h) =~= aa.take(h));
        assert(ee.subrange(h, h + h) =~= ee.skip(h));
        let cl = cls[j].lin_val();
        let cr = crs[j].lin_val();
        assert(cl == dot(aa.skip(h), ee.take(h)) % q());
        assert(cr == dot(aa.take(h), ee.skip(h)) % q());
        let pp = bp_p(p0, cls, crs, xs, (i - 1) as nat);
        lemma_mod_twice(dot(aa.skip(h), ee.take(h)), q());
        lemma_mod_twice(dot(aa.take(h), ee.skip(h)), q());
        lemma_claim_congr(pp, dot(aa, ee), cl, dot(aa.skip(h), ee.take(h)), cr, dot(aa.take(h), ee.skip(h)), x);
    }
}

/// The commitment half of the argument's completeness: on the honest
/// prover's proof for the commitment `⟨c, a⟩`, the commitment claim folded
/// through the rounds with the proof's cross terms is the folded witness
/// against the folded generators, which the verifier's batched check holds
/// against.
pub proof fn law_bp_commitment_folds<C: InnerProduct + ByteSerializable>(
    pp: BulletProofParams<C>,
    commitment: C,
    alpha: Seq<Fr>,
    sigma: Fr,
    a0: Seq<int>,
    log0: Seq<TranscriptEntry>,
    proof: BulletProof<C>,
    log1: Seq<TranscriptEntry>,
)
    requires
        bp_prove_post(pp, commitment, alpha, sigma, a0, log0, proof, log1),
        pp.l <= pp.m,
        a0.len() == exp2(pp.m as nat),
        pp.c_poly.table().len() == exp2(pp.m as nat),
        commitment.lin_val() == dot(pp.c_poly.table(), a0) % q(),
    ensures
        bp_p(
            commitment.lin_val(),
            proof.cm_L@,
            proof.cm_R@,
            bp_verifier_xs(proof, pp, commitment, alpha, sigma, log0),
            pp.l as nat,
        ) % q() == dot(lvals(proof.g_folded_poly.coeffs@), lvals(proof.a_folded_poly.coeffs@)) % q(),
{
    let m = pp.m as nat;
    let l = pp.l as nat;
    let init = bp_init_log(log0, pp.m, pp.l, commitment, alpha, sigma);
    let xs = bp_xs(init, proof.cm_L@, proof.cm_R@, proof.lf_L@, proof.lf_R@, l);
    let ck = pp.c_poly.table();
    assert(xs.len() == l);
    lemma_dot_comm(ck, a0);
    assert forall|j: int| 0 <= j < xs.len() implies #[trigger] proof.cm_L@[j].lin_val() == bp_cl(ck, bp_a_tab(a0, xs.take(j)), xs.take(j))
        && proof.cm_R@[j].lin_val() == bp_cr(ck, bp_a_tab(a0, xs.take(j)), xs.take(j)) by {
        assert(0 <= j < pp.l);
        assert(proof.lf_L@[j].val() == crate::bulletproof::bp_al(
            bp_a_tab(a0, xs.take(j)),
            bp_e_tab(seq_mod(eq_table(lvals(alpha)), q()), xs.take(j)),
        ));
    }
    lemma_bp_commit_rounds(commitment.lin_val(), a0, ck, proof.cm_L@, proof.cm_R@, xs, m, l);
    assert(xs.take(l as int) =~= xs);
    let af = bp_a_tab(a0, xs);
    let ef = bp_e_tab(ck, xs);
    lemma_e_tab_closed(ck, xs, m);
    let gf = lvals(proof.g_folded_poly.coeffs@);
    let rr = restrict_hi(ck, rev_seq(xs), (m - l) as nat);
    assert(gf == seq_mod(rr, q()));
    lemma_bp_tabs_len(a0, ck, xs, m);
    // the folded generators agree with the sent ones modulo q
    let d1 = Seq::new(min_len(af.len() as int, ef.len() as int) as nat, |t: int| af[t] * ef[t]);
    let d2 = Seq::new(min_len(gf.len() as int, af.len() as int) as nat, |t: int| gf[t] * af[t]);
    assert forall|t: int| 0 <= t < d1.len() implies #[trigger] d1[t] % q() == d2[t] % q() by {
        lemma_mod_twice(rr[t], q());
        lemma_mul_mod_noop_right(af[t], ef[t], q());
        lemma_mul_mod_noop_right(af[t], gf[t], q());
        assert(af[t] * gf[t] == gf[t] * af[t]) by (nonlinear_arith);
    }
    lemma_ssum_mod(d1, d2, q());
}

/// The inner product is symmetric.
proof fn lemma_dot_comm(a: Seq<int>, b: Seq<int>)
    ensures
        dot(a, b) == dot(b, a),
{
    let d1 = Seq::new(min_len(a.len() as int, b.len() as int) as nat, |t: int| a[t] * b[t]);
    let d2 = Seq::new(min_len(b.len() as int, a.len() as int) as nat, |t: int| b[t] * a[t]);
    assert forall|t: int| 0 <= t < d1.len() implies #[trigger] d1[t] == d2[t] by {
        assert(a[t] * b[t] == b[t] * a[t]) by (nonlinear_arith);
    }
    assert(d1 =~= d2);
}

/// A table stored in bit-reversed order, read at `z`, is the table read at
/// the reversed point.
proof fn lemma_mle_bitrev(c: Seq<int>, g: Seq<int>, z: Seq<int>)
    requires
        c.len() == exp2(z.len()),
        g.len() == c.len(),
        forall|i: int| 0 <= i < g.len() ==> #[trigger] g[i] == c[rev_bits(i, z.len())],
    ensures
        mle(g, z) == mle(c, rev_seq(z)),
    decreases z.len(),
{
    let n = z.len();
    if n == 0 {
        assert(exp2(0) == 1);
        lemma_mle_empty(g);
        lemma_mle_empty(c);
        assert(z =~= Seq::<int>::empty());
        assert(rev_seq(z) =~= Seq::<int>::empty());
        assert(g[0] == c[rev_bits(0, 0)]);
    } else {
        let z0 = z[0];
        let zt = z.drop_first();
        let h = exp2((n - 1) as nat) as int;
        lemma_exp2_pos((n - 1) as nat);
        assert(exp2(n) == 2 * exp2((n - 1) as nat));
        lemma_mle_fold_lo(g, z);
        assert(rev_seq(z).len() == n);
        lemma_mle_fold_hi(c, rev_seq(z));
        assert(rev_seq(z).last() == z0);
        assert(rev_seq(z).drop_last() =~= rev_seq(zt));
        let g2 = fold_lo(g, z0);
        let c2 = fold_hi(c, z0);
        assert forall|i: int| 0 <= i < g2.len() implies #[trigger] g2[i] == c2[rev_bits(i, (n - 1) as nat)] by {
            let rr = rev_bits(i, (n - 1) as nat);
            lemma_rev_bits_range(i, (n - 1) as nat);
            assert((2 * i) % 2 == 0 && (2 * i) / 2 == i);
            assert((2 * i + 1) % 2 == 1 && (2 * i + 1) / 2 == i);
            assert(rev_bits(2 * i, n) == rr);
            assert(rev_bits(2 * i + 1, n) == h + rr);
            assert(g[2 * i] == c[rr]);
            assert(g[2 * i + 1] == c[rr + h]);
            assert(c.len() / 2 == h);
        }
        lemma_mle_bitrev(c2, g2, zt);
    }
}

/// A coset leaf of the bit-reversed generators, read at the round
/// challenges, agrees with the folded generators read at the reversed
/// powers of the leaf's point: both are the generators at the reversed
/// concatenation of the two points.
proof fn lemma_bp_leaf_consistent(ck: Seq<int>, gt: Seq<int>, xs: Seq<int>, yp: Seq<int>)
    requires
        ck.len() == exp2(xs.len() + yp.len()),
        gt.len() == ck.len(),
        forall|i: int| 0 <= i < gt.len() ==> #[trigger] gt[i] == ck[rev_bits(i, xs.len() + yp.len())],
    ensures
        dot(seq_mod(restrict_hi(ck, rev_seq(xs), yp.len()), q()), seq_mod(eq_table(rev_seq(yp)), q())) % q() == dot(
            seq_mod(restrict_hi(gt, yp, xs.len()), q()),
            seq_mod(eq_table(xs), q()),
        ) % q(),
{
    let a = restrict_hi(ck, rev_seq(xs), yp.len());
    let ry = rev_seq(yp);
    let rx = rev_seq(xs);
    assert(ry.len() == yp.len() && rx.len() == xs.len());
    lemma_dot_mle(seq_mod(a, q()), ry);
    assert forall|i: int| 0 <= i < a.len() implies #[trigger] seq_mod(a, q())[i] % q() == a[i] % q() by {
        lemma_mod_twice(a[i], q());
    }
    lemma_mle_mod(seq_mod(a, q()), a, ry, q());
    lemma_mle_restrict_hi(ck, ry, rx);
    lemma_leaf_value(gt, xs, yp, seq_mod(restrict_hi(gt, yp, xs.len()), q()));
    assert((xs + yp).len() == xs.len() + yp.len());
    lemma_mle_bitrev(ck, gt, xs + yp);
    assert(rev_seq(xs + yp) =~= ry + rx);
}

/// The leaves against the negated scaled eq tables, over the first `k`
/// queries: `-Σ_t r^t ⟨leaf_t, e⟩` modulo `q`.
proof fn lemma_negs_batch<C: Linear>(cosets: Seq<Vec<C>>, ys: Seq<int>, e: Seq<int>, r: int, k: nat)
    requires
        k <= ys.len(),
        forall|t: int| 0 <= t < ys.len() ==> 0 <= #[trigger] ys[t] < cosets.len(),
        forall|t: int| 0 <= t < ys.len() ==> (#[trigger] cosets[ys[t]])@.len() == e.len(),
    ensures
        bp_leaves(cosets, ys, k).len() == k * e.len(),
        bp_negs(e, r, k).len() == k * e.len(),
        dot(bp_leaves(cosets, ys, k), bp_negs(e, r, k)) % q() == (0 - ssum(
            Seq::new(k, |t: int| pow(r, t as nat) * dot(lvals(cosets[ys[t]]@), e)),
        )) % q(),
    decreases k,
{
    let dd = Seq::new(k, |t: int| pow(r, t as nat) * dot(lvals(cosets[ys[t]]@), e));
    if k == 0 {
        assert(bp_leaves(cosets, ys, 0) =~= Seq::<int>::empty());
        assert(bp_negs(e, r, 0) =~= Seq::<int>::empty());
        assert(dd =~= Seq::<int>::empty());
        assert(dot(Seq::<int>::empty(), Seq::<int>::empty()) == ssum(Seq::<int>::empty()));
    } else {
        let j = (k - 1) as nat;
        lemma_negs_batch(cosets, ys, e, r, j);
        let lv = lvals(cosets[ys[j as int]]@);
        let pw = pow(r, j);
        let ns = Seq::new(e.len(), |i: int| (0 - e[i] * pw) % q());
        assert(bp_leaves(cosets, ys, k) == bp_leaves(cosets, ys, j) + lv);
        assert(bp_negs(e, r, k) == bp_negs(e, r, j) + ns);
        assert(j * e.len() + e.len() == k * e.len()) by (nonlinear_arith)
            requires
                j == k - 1,
        ;
        lemma_dot_concat(bp_leaves(cosets, ys, j), lv, bp_negs(e, r, j), ns);
        let d1 = Seq::new(min_len(lv.len() as int, ns.len() as int) as nat, |i: int| lv[i] * ns[i]);
        let d2 = Seq::new(lv.len(), |i: int| (0 - pw) * (lv[i] * e[i]));
        let d3 = Seq::new(min_len(lv.len() as int, e.len() as int) as nat, |i: int| lv[i] * e[i]);
        assert forall|i: int| 0 <= i < d1.len() implies #[trigger] d1[i] % q() == d2[i] % q() by {
            lemma_mul_mod_noop_right(lv[i], 0 - e[i] * pw, q());
            assert(lv[i] * (0 - e[i] * pw) == (0 - pw) * (lv[i] * e[i])) by (nonlinear_arith);
        }
        lemma_ssum_mod(d1, d2, q());
        lemma_ssum_scale(d2, d3, 0 - pw);
        let dj = Seq::new(j, |t: int| pow(r, t as nat) * dot(lvals(cosets[ys[t]]@), e));
        assert(dd.drop_last() =~= dj);
        assert(ssum(dd) == ssum(dj) + pw * dot(lv, e));
        assert((0 - pw) * dot(lv, e) == 0 - pw * dot(lv, e)) by (nonlinear_arith);
        lemma_add_mod_noop(dot(bp_leaves(cosets, ys, j), bp_negs(e, r, j)), dot(lv, ns), q());
        lemma_add_mod_noop(0 - ssum(dj), 0 - pw * dot(lv, e), q());
    }
}

/// The folded generators against the first part of the batched scalars:
/// `Σ_t r^t ⟨g, ytab(y_t)⟩ + r ⟨g, a⟩` modulo `q`.
proof fn lemma_yterms_batch(g: Seq<int>, a: Seq<int>, domain: Seq<Fr>, ys: Seq<int>, r: int, w: nat, nq: nat)
    requires
        g.len() == exp2(w),
        a.len() == exp2(w),
        nq <= ys.len(),
    ensures
        dot(g, Seq::new(exp2(w), |j: int| (ssum(bp_yterms(domain, ys, r, w, j, nq)) + r * a[j]) % q())) % q() == (ssum(
            Seq::new(nq, |t: int| pow(r, t as nat) * dot(g, bp_ytab(domain[ys[t]].val(), w))),
        ) + r * dot(g, a)) % q(),
{
    let n = exp2(w);
    let sc = Seq::new(n, |j: int| (ssum(bp_yterms(domain, ys, r, w, j, nq)) + r * a[j]) % q());
    let lhs = Seq::new(min_len(g.len() as int, sc.len() as int) as nat, |j: int| g[j] * sc[j]);
    let mm = Seq::new(n, |j: int| Seq::new(nq, |t: int| g[j] * (pow(r, t as nat) * bp_ytab(domain[ys[t]].val(), w)[j])));
    let rows = Seq::new(mm.len(), |j: int| ssum(mm[j]));
    let ga = Seq::new(n, |j: int| r * (g[j] * a[j]));
    let both = Seq::new(n, |j: int| rows[j] + ga[j]);
    assert forall|j: int| 0 <= j < n implies #[trigger] lhs[j] % q() == both[j] % q() by {
        let yt = bp_yterms(domain, ys, r, w, j, nq);
        lemma_ssum_scale(mm[j], yt, g[j]);
        lemma_mul_mod_noop_right(g[j], ssum(yt) + r * a[j], q());
        assert(g[j] * (ssum(yt) + r * a[j]) == g[j] * ssum(yt) + r * (g[j] * a[j])) by (nonlinear_arith);
    }
    lemma_ssum_mod(lhs, both, q());
    lemma_ssum_add(both, rows, ga);
    let ag = Seq::new(min_len(g.len() as int, a.len() as int) as nat, |j: int| g[j] * a[j]);
    lemma_ssum_scale(ga, ag, r);
    lemma_ssum_swap(mm, nq as int);
    let cols = Seq::new(nq, |t: int| ssum(Seq::new(mm.len(), |j: int| mm[j][t])));
    let target = Seq::new(nq, |t: int| pow(r, t as nat) * dot(g, bp_ytab(domain[ys[t]].val(), w)));
    assert forall|t: int| 0 <= t < nq implies #[trigger] cols[t] == target[t] by {
        let yt = bp_ytab(domain[ys[t]].val(), w);
        let pw = pow(r, t as nat);
        let col = Seq::new(mm.len(), |j: int| mm[j][t]);
        assert(rev_seq(crate::bulletproof::pow_vals(domain[ys[t]].val(), w)).len() == w);
        assert(yt.len() == n);
        let dd = Seq::new(min_len(g.len() as int, yt.len() as int) as nat, |j: int| g[j] * yt[j]);
        assert forall|j: int| 0 <= j < n implies #[trigger] col[j] == pw * dd[j] by {
            assert(g[j] * (pw * yt[j]) == pw * (g[j] * yt[j])) by (nonlinear_arith);
        }
        lemma_ssum_scale(col, dd, pw);
    }
    assert(cols =~= target);
    assert(rows =~= Seq::new(mm.len(), |j: int| ssum(mm[j])));
}

/// Completeness of the inner-product argument: on the honest prover's proof
/// for the commitment `⟨c, a⟩` and `sigma = a(alpha)`, under well-formed
/// parameters, the verifier's verdict is true for every batching scalar `r`.
pub proof fn law_bp_complete<C: InnerProduct + ByteSerializable>(
    pp: BulletProofParams<C>,
    commitment: C,
    alpha: Seq<Fr>,
    sigma: Fr,
    a0: Seq<int>,
    log0: Seq<TranscriptEntry>,
    proof: BulletProof<C>,
    log1: Seq<TranscriptEntry>,
    r: int,
)
    requires
        pp.wf(),
        pp.domain_g@.len() > 0,
        bp_prove_post(pp, commitment, alpha, sigma, a0, log0, proof, log1),
        alpha.len() == pp.m,
        a0.len() == exp2(pp.m as nat),
        sigma.val() == dot(a0, seq_mod(eq_table(lvals(alpha)), q())) % q(),
        commitment.lin_val() == dot(pp.c_poly.table(), a0) % q(),
    ensures
        bp_verdict(proof, pp, commitment, alpha, sigma, log0, r),
{
    let m = pp.m as nat;
    let l = pp.l as nat;
    let w = (m - l) as nat;
    let ck = pp.c_poly.table();
    let gt = pp.g_poly.table();
    law_bp_evaluation_complete(pp, commitment, alpha, sigma, a0, log0, proof, log1);
    law_bp_commitment_folds(pp, commitment, alpha, sigma, a0, log0, proof, log1);
    let xs = bp_verifier_xs(proof, pp, commitment, alpha, sigma, log0);
    assert(xs.len() == l);
    let nq = BP_NUM_QUERIES as nat;
    let dom = pp.domain_g@;
    let ys = bp_queries(bp_after_log(proof, pp, commitment, alpha, sigma, log0), nq, dom.len() as int);
    let cos = pp.g_by_cosets@;
    let e = seq_mod(eq_table(xs), q());
    let gf = lvals(proof.g_folded_poly.coeffs@);
    let af = lvals(proof.a_folded_poly.coeffs@);
    assert(gf.len() == exp2(w));
    assert(af.len() == exp2(w));
    assert forall|t: int| 0 <= t < ys.len() implies 0 <= #[trigger] ys[t] < cos.len() by {}
    assert forall|t: int| 0 <= t < ys.len() implies (#[trigger] cos[ys[t]])@.len() == e.len() by {
        assert(cos[ys[t]]@.len() == exp2(l));
    }
    lemma_negs_batch(cos, ys, e, r, nq);
    lemma_yterms_batch(gf, af, dom, ys, r, w, nq);
    let sc1 = Seq::new(exp2(w), |j: int| (ssum(bp_yterms(dom, ys, r, w, j, nq)) + r * af[j]) % q());
    let lv = bp_leaves(cos, ys, nq);
    let ng = bp_negs(e, r, nq);
    lemma_dot_concat(gf, lv, sc1, ng);
    assert(bp_scalars(dom, ys, r, af, e, w, nq) == sc1 + ng);
    // each query's two readings agree
    let yv = Seq::new(nq, |t: int| pow(r, t as nat) * dot(gf, bp_ytab(dom[ys[t]].val(), w)));
    let lvv = Seq::new(nq, |t: int| pow(r, t as nat) * dot(lvals(cos[ys[t]]@), e));
    assert forall|t: int| 0 <= t < nq implies #[trigger] yv[t] % q() == lvv[t] % q() by {
        lemma_query_agrees(pp, xs, ys[t], gf);
        lemma_mul_mod_noop_right(pow(r, t as nat), dot(gf, bp_ytab(dom[ys[t]].val(), w)), q());
        lemma_mul_mod_noop_right(pow(r, t as nat), dot(lvals(cos[ys[t]]@), e), q());
    }
    lemma_ssum_mod(yv, lvv, q());
    let p = bp_p(commitment.lin_val(), proof.cm_L@, proof.cm_R@, xs, l);
    lemma_final_combine(dot(gf, sc1), dot(lv, ng), ssum(yv), ssum(lvv), dot(gf, af), p, r);
}

/// One query: the folded generators read at the reversed powers of its point
/// agree with its coset leaf read at the challenges.
proof fn lemma_query_agrees<C: InnerProduct>(pp: BulletProofParams<C>, xs: Seq<int>, y_idx: int, gf: Seq<int>)
    requires
        pp.wf(),
        xs.len() == pp.l,
        0 <= y_idx < pp.domain_g@.len(),
        gf == seq_mod(restrict_hi(pp.c_poly.table(), rev_seq(xs), (pp.m - pp.l) as nat), q()),
    ensures
        dot(gf, bp_ytab(pp.domain_g@[y_idx].val(), (pp.m - pp.l) as nat)) % q() == dot(
            lvals(pp.g_by_cosets@[y_idx]@),
            seq_mod(eq_table(xs), q()),
        ) % q(),
{
    let m = pp.m as nat;
    let l = pp.l as nat;
    let w = (m - l) as nat;
    let ck = pp.c_poly.table();
    let gt = pp.g_poly.table();
    let yp = pow_vals(pp.domain_g@[y_idx].val(), w);
    assert(yp.len() == w);
    assert(xs.len() + yp.len() == m);
    assert forall|i: int| 0 <= i < gt.len() implies #[trigger] gt[i] == ck[rev_bits(i, xs.len() + yp.len())] by {
        lemma_rev_bits_range(i, m);
        assert(pp.g_poly.coeffs@[i] == pp.c_poly.coeffs@[rev_bits(i, m)]);
        assert(gt[i] == pp.g_poly.coeffs@[i].lin_val());
        assert(ck[rev_bits(i, m)] == pp.c_poly.coeffs@[rev_bits(i, m)].lin_val());
    }
    lemma_bp_leaf_consistent(ck, gt, xs, yp);
    assert(lvals(pp.g_by_cosets@[y_idx]@) == seq_mod(restrict_hi(gt, yp, l), q()));
}

/// The two parts of the batched check cancel but for `r` times the folded
/// inner product, which is `r` times the folded commitment claim.
proof fn lemma_final_combine(d1: int, d2: int, yv: int, lvv: int, gd: int, p: int, r: int)
    requires
        d1 % q() == (yv + r * gd) % q(),
        d2 % q() == (0 - lvv) % q(),
        yv % q() == lvv % q(),
        p % q() == gd % q(),
    ensures
        (d1 + d2) % q() == (p * r) % q(),
{
    lemma_add_mod_noop(d1, d2, q());
    lemma_add_mod_noop(yv + r * gd, 0 - lvv, q());
    vstd::arithmetic::div_mod::lemma_sub_mod_noop(yv, lvv, q());
    lemma_small_mod_zero();
    lemma_add_mod_noop(yv - lvv, r * gd, q());
    assert(yv + r * gd + (0 - lvv) == (yv - lvv) + r * gd);
    lemma_mod_twice(r * gd, q());
    lemma_mul_mod_noop_left(p, r, q());
    lemma_mul_mod_noop_left(gd, r, q());
    assert(p * r == r * p) by (nonlinear_arith);
    assert(gd * r == r * gd) by (nonlinear_arith);
}

proof fn lemma_small_mod_zero()
    ensures
        0int % q() == 0,
{
}

} // verus!
