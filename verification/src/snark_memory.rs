//! The memory-checking steps of the SNARK prover: the lookups of `eq(r_x, ·)`
//! and `eq(r_y, ·)` at the rows and columns of the sparse index with their
//! multiplicities, and the polynomial `g` of the inverted denominators.
use vstd::prelude::*;
use vstd::arithmetic::div_mod::{lemma_add_mod_noop, lemma_small_mod};
use crate::field::{q, Fr, fr_zero, fr_one, fr_add, fr_mul, fr_eq, fr_from_u64, fr_to_u64};
use crate::utils::{fprod, lemma_fprod_push, batch_invert};
use crate::transcript::{TranscriptEntry, get_challenge};
use crate::snark::{chal, chal_log, chal_vals, draw_challenges, fmul, fadd, fsub, lemma_val_mod};
use crate::snark_prover::MemoryCombine;
use crate::field_sumcheck::{SumCheckProof, sc_prove_post, tables_of};
use crate::mle::mle;
use crate::transcript::append_to_transcript;
use crate::traits::ByteSerializable;
use vstd::arithmetic::div_mod::lemma_mul_mod_noop_left;
use crate::traits::lvals;
use crate::group::Pt;
use crate::multilinear::{MultilinearPoly, pow2_usize};
use crate::mle::{eq_table, seq_mod};
use crate::sums::{exp2, lemma_exp2_pos, lemma_exp2_adds};
use crate::pcs::{TitanSetup, TitanPolyCommitment, chunk_commitments, aggregate_table, flat_coeffs};
use crate::config::{TitanSnark, TitanIndexPolys, is_next_pow2};
use crate::snark_prover::{RelationPhase, copy_poly};

verus! {

/// The number of entries of `s` equal to `x`.
pub open spec fn count_of(s: Seq<int>, x: int) -> nat
    decreases s.len(),
{
    if s.len() == 0 {
        0
    } else {
        count_of(s.drop_last(), x) + if s.last() == x {
            1nat
        } else {
            0nat
        }
    }
}

/// The table `t` read at each entry of `idx`.
pub open spec fn lookup(t: Seq<int>, idx: Seq<int>) -> Seq<int> {
    Seq::new(idx.len(), |i: int| t[idx[i]])
}

/// How often each of `0..n` occurs in `idx`, in `Z_q`.
pub open spec fn multiplicities(idx: Seq<int>, n: nat) -> Seq<int> {
    Seq::new(n, |x: int| count_of(idx, x) as int % q())
}

/// The five tables of the index have `2^nv` entries, and its rows and
/// columns are below `2^nv`.
pub open spec fn sn_index_ok(index: TitanIndexPolys, nv: nat) -> bool {
    &&& index.row_poly.wf() && index.row_poly.num_vars == nv
    &&& index.col_poly.wf() && index.col_poly.num_vars == nv
    &&& index.val_A_poly.wf() && index.val_A_poly.num_vars == nv
    &&& index.val_B_poly.wf() && index.val_B_poly.num_vars == nv
    &&& index.val_C_poly.wf() && index.val_C_poly.num_vars == nv
    &&& forall|i: int| 0 <= i < exp2(nv) ==> (#[trigger] index.row_poly.coeffs@[i]).val() < exp2(nv)
    &&& forall|i: int| 0 <= i < exp2(nv) ==> (#[trigger] index.col_poly.coeffs@[i]).val() < exp2(nv)
}

/// What the prover holds after the lookups: `eq(r_x, ·)`, `eq(r_y, ·)`, the
/// looked-up values `p` and `q`, the multiplicities `m_r` and `m_c`, and
/// the group polynomial of their aggregate commitment.
pub struct LookupPhase {
    pub rel: RelationPhase,
    pub eq_rx: MultilinearPoly<Fr>,
    pub eq_ry: MultilinearPoly<Fr>,
    pub p_poly: MultilinearPoly<Fr>,
    pub q_poly: MultilinearPoly<Fr>,
    pub m_r_poly: MultilinearPoly<Fr>,
    pub m_c_poly: MultilinearPoly<Fr>,
    pub comm_pqm: MultilinearPoly<Pt>,
}

/// The shapes the lookups need from the first step: as many variables for
/// the constraints as for the witness, and challenge points of that length.
pub open spec fn lookup_pre(rel: RelationPhase, index: TitanIndexPolys, pp_agg: TitanSetup) -> bool {
    &&& rel.nvx == rel.nvy
    &&& rel.rx@.len() == rel.nvx
    &&& rel.ry@.len() == rel.nvy
    &&& sn_index_ok(index, rel.nvx as nat)
    &&& pp_agg.wf()
    &&& pp_agg.m == rel.nvx + 2
}

/// The polynomials of the lookups, in the order of their aggregate.
pub open spec fn pqm_polys(lk: LookupPhase) -> Seq<MultilinearPoly<Fr>> {
    seq![lk.p_poly, lk.q_poly, lk.m_r_poly, lk.m_c_poly]
}

/// The lookups: `p = eq(r_x, ·)` at the rows, `q = eq(r_y, ·)` at the
/// columns, the multiplicities of the rows and of the columns, and the
/// aggregate commitment of the four.
pub open spec fn lookup_post(rel: RelationPhase, index: TitanIndexPolys, pp_agg: TitanSetup, lk: LookupPhase) -> bool {
    let nv = rel.nvx;
    let n = exp2(nv as nat);
    let ex = seq_mod(eq_table(lvals(rel.rx@)), q());
    let ey = seq_mod(eq_table(lvals(rel.ry@)), q());
    &&& lk.rel == rel
    &&& lk.eq_rx.wf() && lk.eq_rx.num_vars == nv && lk.eq_rx.table() == ex
    &&& lk.eq_ry.wf() && lk.eq_ry.num_vars == nv && lk.eq_ry.table() == ey
    &&& lk.p_poly.wf() && lk.p_poly.num_vars == nv && lk.p_poly.table() == lookup(ex, index.row_poly.table())
    &&& lk.q_poly.wf() && lk.q_poly.num_vars == nv && lk.q_poly.table() == lookup(ey, index.col_poly.table())
    &&& lk.m_r_poly.wf() && lk.m_r_poly.num_vars == nv && lk.m_r_poly.table() == multiplicities(index.row_poly.table(), n)
    &&& lk.m_c_poly.wf() && lk.m_c_poly.num_vars == nv && lk.m_c_poly.table() == multiplicities(index.col_poly.table(), n)
    &&& lk.comm_pqm.wf() && lk.comm_pqm.num_vars == pp_agg.m1
    &&& lk.comm_pqm.table() == chunk_commitments(
        aggregate_table(pqm_polys(lk), pp_agg.m as nat),
        pp_agg.bp_setup.c_poly.table(),
        pp_agg.m1 as nat,
        (pp_agg.m - pp_agg.m1) as nat,
    )
}

/// `t` read at each of the indices, which are below its length.
fn lookup_values(t: &Vec<Fr>, idx: &Vec<Fr>) -> (r: Vec<Fr>)
    requires
        t@.len() <= usize::MAX,
        forall|i: int| 0 <= i < idx@.len() ==> (#[trigger] idx@[i]).val() < t@.len(),
    ensures
        lvals(r@) == lookup(lvals(t@), lvals(idx@)),
        r@.len() == idx@.len(),
{
    let tl = t.len();
    let mut out: Vec<Fr> = Vec::new();
    let mut i: usize = 0;
    while i < idx.len()
        invariant
            i <= idx@.len(),
            tl == t@.len(),
            forall|j: int| 0 <= j < idx@.len() ==> (#[trigger] idx@[j]).val() < tl,
            out@.len() == i,
            forall|j: int| 0 <= j < i ==> (#[trigger] out@[j]).val() == t@[idx@[j].val()].val(),
        decreases idx@.len() - i,
    {
        let x = fr_to_u64(&idx[i]) as usize;
        out.push(t[x]);
        i = i + 1;
    }
    proof {
        assert forall|j: int| 0 <= j < idx@.len() implies #[trigger] lvals(out@)[j] == lookup(lvals(t@), lvals(idx@))[j] by {
            idx@[j].lemma_val_range();
            assert(lvals(idx@)[j] == idx@[j].val());
            assert(lvals(t@)[idx@[j].val()] == t@[idx@[j].val()].val());
        }
        assert(lvals(out@) =~= lookup(lvals(t@), lvals(idx@)));
    }
    out
}

/// The coefficients of four polynomials one after another.
pub(crate) proof fn lemma_flat4(s: Seq<MultilinearPoly<Fr>>)
    requires
        s.len() == 4,
    ensures
        flat_coeffs(s) == s[0].coeffs@ + s[1].coeffs@ + s[2].coeffs@ + s[3].coeffs@,
{
    let s3 = s.drop_last();
    let s2 = s3.drop_last();
    let s1 = s2.drop_last();
    let s0 = s1.drop_last();
    assert(s0 =~= Seq::<MultilinearPoly<Fr>>::empty());
    assert(flat_coeffs(s0) == Seq::<Fr>::empty());
    assert(s1.last() == s[0]);
    assert(s2.last() == s[1]);
    assert(s3.last() == s[2]);
    assert(flat_coeffs(s1) =~= s[0].coeffs@);
    assert(flat_coeffs(s2) =~= s[0].coeffs@ + s[1].coeffs@);
    assert(flat_coeffs(s3) =~= s[0].coeffs@ + s[1].coeffs@ + s[2].coeffs@);
}

proof fn lemma_count_step(s: Seq<int>, i: int, x: int)
    requires
        0 <= i < s.len(),
    ensures
        count_of(s.take(i + 1), x) == count_of(s.take(i), x) + if s[i] == x {
            1nat
        } else {
            0nat
        },
{
    assert(s.take(i + 1).drop_last() =~= s.take(i));
}

/// How often each of `0..n` occurs among the indices, which are below `n`.
fn count_values(idx: &Vec<Fr>, n: usize) -> (r: Vec<Fr>)
    requires
        forall|i: int| 0 <= i < idx@.len() ==> (#[trigger] idx@[i]).val() < n,
    ensures
        lvals(r@) == multiplicities(lvals(idx@), n as nat),
        r@.len() == n,
{
    let ghost s = lvals(idx@);
    let zero = fr_zero();
    let one = fr_one();
    let mut out: Vec<Fr> = Vec::new();
    let mut t: usize = 0;
    while t < n
        invariant
            t <= n,
            zero.val() == 0,
            out@.len() == t,
            forall|j: int| 0 <= j < t ==> (#[trigger] out@[j]).val() == 0,
        decreases n - t,
    {
        out.push(zero);
        t = t + 1;
    }
    proof {
        assert(s.take(0).len() == 0);
    }
    let mut i: usize = 0;
    while i < idx.len()
        invariant
            i <= idx@.len(),
            s == lvals(idx@),
            one.val() == 1,
            forall|j: int| 0 <= j < idx@.len() ==> (#[trigger] idx@[j]).val() < n,
            out@.len() == n,
            forall|y: int| 0 <= y < n ==> (#[trigger] out@[y]).val() == count_of(s.take(i as int), y) as int % q(),
        decreases idx@.len() - i,
    {
        let x = fr_to_u64(&idx[i]) as usize;
        let v = fr_add(&out[x], &one);
        let ghost before = out@;
        proof {
            lemma_add_mod_noop(count_of(s.take(i as int), x as int) as int, 1, q());
            lemma_small_mod(1, q() as nat);
        }
        out.set(x, v);
        proof {
            assert forall|y: int| 0 <= y < n implies (#[trigger] out@[y]).val() == count_of(s.take(i + 1), y) as int
                % q() by {
                lemma_count_step(s, i as int, y);
                if y != x {
                    assert(out@[y] == before[y]);
                }
            }
        }
        i = i + 1;
    }
    proof {
        assert(s.take(idx@.len() as int) =~= s);
        assert(lvals(out@) =~= multiplicities(s, n as nat));
    }
    out
}

impl TitanSnark {
    /// The prover's second step: the lookups of `eq(r_x, ·)` at the rows
    /// and of `eq(r_y, ·)` at the columns of the index, the multiplicities of
    /// the rows and of the columns, and the aggregate commitment of these
    /// four polynomials, whose Merkle root the caller computes.
    pub fn prove_lookups(rel: RelationPhase, index: &TitanIndexPolys, pp_agg: &TitanSetup) -> (lk: LookupPhase)
        requires
            lookup_pre(rel, *index, *pp_agg),
        ensures
            lookup_post(rel, *index, *pp_agg, lk),
    {
        let nv = rel.nvx;
        let ghost rel0 = rel;
        proof {
            lemma_exp2_adds(nv as nat, 2);
            lemma_exp2_pos(nv as nat);
            assert(exp2(2) == 4) by {
                assert(exp2(1) == 2 * exp2(0));
                assert(exp2(2) == 2 * exp2(1));
            }
        }
        let n = pow2_usize(nv);
        let eq_rx = MultilinearPoly::<Fr>::init_with_eq(rel.rx.as_slice());
        let eq_ry = MultilinearPoly::<Fr>::init_with_eq(rel.ry.as_slice());
        let p = lookup_values(&eq_rx.coeffs, &index.row_poly.coeffs);
        let qv = lookup_values(&eq_ry.coeffs, &index.col_poly.coeffs);
        let m_r = count_values(&index.row_poly.coeffs, n);
        let m_c = count_values(&index.col_poly.coeffs, n);
        let p_poly = MultilinearPoly::new(p);
        let q_poly = MultilinearPoly::new(qv);
        let m_r_poly = MultilinearPoly::new(m_r);
        let m_c_poly = MultilinearPoly::new(m_c);
        proof {
            crate::sums::lemma_exp2_injective(p_poly.num_vars as nat, nv as nat);
            crate::sums::lemma_exp2_injective(q_poly.num_vars as nat, nv as nat);
            crate::sums::lemma_exp2_injective(m_r_poly.num_vars as nat, nv as nat);
            crate::sums::lemma_exp2_injective(m_c_poly.num_vars as nat, nv as nat);
        }
        let mut polys: Vec<MultilinearPoly<Fr>> = Vec::new();
        polys.push(copy_poly(&p_poly));
        polys.push(copy_poly(&q_poly));
        polys.push(copy_poly(&m_r_poly));
        polys.push(copy_poly(&m_c_poly));
        let ghost four = seq![p_poly, q_poly, m_r_poly, m_c_poly];
        proof {
            lemma_flat4(four);
            lemma_flat4(polys@);
            assert(flat_coeffs(polys@) == flat_coeffs(four));
            assert(flat_coeffs(four).len() == 4 * exp2(nv as nat));
            assert(is_next_pow2(exp2(pp_agg.m as nat), flat_coeffs(polys@).len()));
            assert(aggregate_table(polys@, pp_agg.m as nat) =~= aggregate_table(four, pp_agg.m as nat));
        }
        let comm_pqm = TitanPolyCommitment::aggregate_commit(pp_agg, &polys);
        LookupPhase { rel, eq_rx, eq_ry, p_poly, q_poly, m_r_poly, m_c_poly, comm_pqm }
    }
}

/// The shapes of the polynomials of the lookups.
pub open spec fn lookup_shapes(lk: LookupPhase, index: TitanIndexPolys) -> bool {
    let nv = lk.rel.nvx;
    &&& sn_index_ok(index, nv as nat)
    &&& exp2(nv as nat) <= usize::MAX
    &&& lk.eq_rx.wf() && lk.eq_rx.num_vars == nv
    &&& lk.eq_ry.wf() && lk.eq_ry.num_vars == nv
    &&& lk.p_poly.wf() && lk.p_poly.num_vars == nv
    &&& lk.q_poly.wf() && lk.q_poly.num_vars == nv
    &&& lk.m_r_poly.wf() && lk.m_r_poly.num_vars == nv
    &&& lk.m_c_poly.wf() && lk.m_c_poly.num_vars == nv
}

/// `0, 1, ..., n - 1`.
pub open spec fn positions(n: nat) -> Seq<int> {
    Seq::new(n, |i: int| i)
}

/// The denominators `alpha + beta · id(i) + v(i)`.
pub open spec fn denominators(alpha: int, beta: int, ids: Seq<int>, vals: Seq<int>) -> Seq<int> {
    Seq::new(vals.len(), |i: int| (alpha + beta * ids[i] + vals[i]) % q())
}

/// Each entry of `a` is the inverse of the entry of `b` modulo `q`.
pub open spec fn inverts(a: Seq<int>, b: Seq<int>) -> bool {
    &&& a.len() == b.len()
    &&& forall|i: int| 0 <= i < a.len() ==> #[trigger] (a[i] * b[i]) % q() == 1
}

/// `g = m_r / d1 - 1 / d2 + eps · m_c / d3 - eps / d4`, from the inverses.
pub open spec fn g_table(mr: Seq<int>, mc: Seq<int>, i1: Seq<int>, i2: Seq<int>, i3: Seq<int>, i4: Seq<int>, eps: int) -> Seq<int> {
    Seq::new(mr.len(), |i: int| (mr[i] * i1[i] - i2[i] + eps * mc[i] * i3[i] - eps * i4[i]) % q())
}

/// The transcript once the root of the lookups is in.
pub open spec fn denominator_log(lk: LookupPhase, root: [u8; 32]) -> Seq<TranscriptEntry> {
    lk.rel.transcript@.push(TranscriptEntry::Message("comm_p_q_m"@, root@))
}

/// The scalars `alpha`, `beta` and `epsilon` drawn after the root.
pub open spec fn denominator_scalars(lk: LookupPhase, root: [u8; 32]) -> (int, int, int) {
    let log = denominator_log(lk, root);
    let la = log.push(TranscriptEntry::Challenge("alpha"@, 64));
    let lb = la.push(TranscriptEntry::Challenge("beta_3"@, 64));
    (chal(log, "alpha"@), chal(la, "beta_3"@), chal(lb, "epsilon"@))
}

/// The four denominator tables: at the positions with `eq(r_x, ·)`, at
/// the rows with `p`, at the positions with `eq(r_y, ·)`, at the columns
/// with `q`.
pub open spec fn denominator_tables(lk: LookupPhase, index: TitanIndexPolys, alpha: int, beta: int) -> Seq<Seq<int>> {
    let n = exp2(lk.rel.nvx as nat);
    seq![
        denominators(alpha, beta, positions(n), lk.eq_rx.table()),
        denominators(alpha, beta, index.row_poly.table(), lk.p_poly.table()),
        denominators(alpha, beta, positions(n), lk.eq_ry.table()),
        denominators(alpha, beta, index.col_poly.table(), lk.q_poly.table()),
    ]
}

/// Whether every denominator table has a product that is not zero.
pub open spec fn denominators_invertible(ds: Seq<Seq<int>>) -> bool {
    &&& fprod(ds[0]) % q() != 0
    &&& fprod(ds[1]) % q() != 0
    &&& fprod(ds[2]) % q() != 0
    &&& fprod(ds[3]) % q() != 0
}

/// What the prover holds after computing `g`.
pub struct DenominatorPhase {
    pub lk: LookupPhase,
    pub comm_pqm_root: [u8; 32],
    pub alpha_3: Fr,
    pub beta_3: Fr,
    pub epsilon: Fr,
    pub d1: MultilinearPoly<Fr>,
    pub d2: MultilinearPoly<Fr>,
    pub d3: MultilinearPoly<Fr>,
    pub d4: MultilinearPoly<Fr>,
    pub inv_d1: Vec<Fr>,
    pub inv_d2: Vec<Fr>,
    pub inv_d3: Vec<Fr>,
    pub inv_d4: Vec<Fr>,
    pub g_poly: MultilinearPoly<Fr>,
    pub comm_g: MultilinearPoly<Pt>,
}

/// The denominators, their inverses, `g` and its commitment, after the root
/// of the lookups and the three scalars drawn after it; none where a
/// denominator is zero.
pub open spec fn denominator_post(
    lk: LookupPhase,
    index: TitanIndexPolys,
    pp_single: TitanSetup,
    root: [u8; 32],
    r: Option<DenominatorPhase>,
) -> bool {
    let log = denominator_log(lk, root);
    let (alpha, beta, eps) = denominator_scalars(lk, root);
    let ds = denominator_tables(lk, index, alpha, beta);
    let nv = lk.rel.nvx;
    &&& r is None <==> !denominators_invertible(ds)
    &&& r matches Some(dp) ==> {
        let g = g_table(
            lk.m_r_poly.table(),
            lk.m_c_poly.table(),
            lvals(dp.inv_d1@),
            lvals(dp.inv_d2@),
            lvals(dp.inv_d3@),
            lvals(dp.inv_d4@),
            eps,
        );
        &&& dp.lk == (LookupPhase { rel: RelationPhase { transcript: dp.lk.rel.transcript, ..lk.rel }, ..lk })
        &&& dp.lk.rel.transcript@ == log.push(TranscriptEntry::Challenge("alpha"@, 64)).push(
            TranscriptEntry::Challenge("beta_3"@, 64),
        ).push(TranscriptEntry::Challenge("epsilon"@, 64))
        &&& dp.comm_pqm_root == root
        &&& dp.alpha_3.val() == alpha && dp.beta_3.val() == beta && dp.epsilon.val() == eps
        &&& dp.d1.wf() && dp.d1.num_vars == nv && dp.d1.table() == ds[0]
        &&& dp.d2.wf() && dp.d2.num_vars == nv && dp.d2.table() == ds[1]
        &&& dp.d3.wf() && dp.d3.num_vars == nv && dp.d3.table() == ds[2]
        &&& dp.d4.wf() && dp.d4.num_vars == nv && dp.d4.table() == ds[3]
        &&& inverts(lvals(dp.inv_d1@), ds[0]) && inverts(lvals(dp.inv_d2@), ds[1])
        &&& inverts(lvals(dp.inv_d3@), ds[2]) && inverts(lvals(dp.inv_d4@), ds[3])
        &&& dp.g_poly.wf() && dp.g_poly.num_vars == nv && dp.g_poly.table() == g
        &&& dp.comm_g.wf() && dp.comm_g.num_vars == pp_single.m1
        &&& dp.comm_g.table() == chunk_commitments(
            g,
            pp_single.bp_setup.c_poly.table(),
            pp_single.m1 as nat,
            (pp_single.m - pp_single.m1) as nat,
        )
    }
}

/// The product of the values, modulo `q`.
fn product_of(v: &Vec<Fr>) -> (r: Fr)
    ensures
        r.val() == fprod(lvals(v@)) % q(),
{
    let ghost s = lvals(v@);
    let mut acc = fr_one();
    proof {
        assert(s.take(0).len() == 0);
        lemma_small_mod(1, q() as nat);
    }
    let mut i: usize = 0;
    while i < v.len()
        invariant
            i <= v@.len(),
            s == lvals(v@),
            acc.val() == fprod(s.take(i as int)) % q(),
        decreases v@.len() - i,
    {
        proof {
            lemma_fprod_push(s, i as int);
            lemma_mul_mod_noop_left(fprod(s.take(i as int)), s[i as int], q());
        }
        acc = fr_mul(&acc, &v[i]);
        i = i + 1;
    }
    proof {
        assert(s.take(v@.len() as int) =~= s);
    }
    acc
}

/// The denominators `alpha + beta · ids[i] + vals[i]`.
fn denominator_values(alpha: &Fr, beta: &Fr, ids: &Vec<Fr>, vals: &Vec<Fr>) -> (r: Vec<Fr>)
    requires
        ids@.len() == vals@.len(),
    ensures
        lvals(r@) == denominators(alpha.val(), beta.val(), lvals(ids@), lvals(vals@)),
        r@.len() == vals@.len(),
{
    let ghost (a, b) = (alpha.val(), beta.val());
    proof {
        lemma_val_mod(*alpha);
        lemma_val_mod(*beta);
    }
    let mut out: Vec<Fr> = Vec::new();
    let mut i: usize = 0;
    while i < vals.len()
        invariant
            i <= vals@.len(),
            ids@.len() == vals@.len(),
            a == alpha.val() && a == a % q(),
            b == beta.val() && b == b % q(),
            out@.len() == i,
            forall|j: int| 0 <= j < i ==> (#[trigger] out@[j]).val() == (a + b * ids@[j].val() + vals@[j].val()) % q(),
        decreases vals@.len() - i,
    {
        let ghost (x, y) = (ids@[i as int].val(), vals@[i as int].val());
        proof {
            lemma_val_mod(ids@[i as int]);
            lemma_val_mod(vals@[i as int]);
        }
        let bx = fmul(beta, &ids[i], Ghost(b), Ghost(x));
        let s1 = fadd(alpha, &bx, Ghost(a), Ghost(b * x));
        let d = fadd(&s1, &vals[i], Ghost(a + b * x), Ghost(y));
        out.push(d);
        i = i + 1;
    }
    proof {
        assert(lvals(out@) =~= denominators(a, b, lvals(ids@), lvals(vals@)));
    }
    out
}

/// `0, 1, ..., n - 1` as field elements.
fn position_values(n: usize) -> (r: Vec<Fr>)
    ensures
        lvals(r@) == positions(n as nat),
        r@.len() == n,
{
    let mut out: Vec<Fr> = Vec::new();
    let mut i: usize = 0;
    while i < n
        invariant
            i <= n,
            out@.len() == i,
            forall|j: int| 0 <= j < i ==> (#[trigger] out@[j]).val() == j,
        decreases n - i,
    {
        out.push(fr_from_u64(i as u64));
        i = i + 1;
    }
    proof {
        assert(lvals(out@) =~= positions(n as nat));
    }
    out
}

/// `g = m_r · i1 - i2 + eps · m_c · i3 - eps · i4`, pointwise.
fn g_values(
    mr: &Vec<Fr>,
    mc: &Vec<Fr>,
    i1: &Vec<Fr>,
    i2: &Vec<Fr>,
    i3: &Vec<Fr>,
    i4: &Vec<Fr>,
    eps: &Fr,
) -> (r: Vec<Fr>)
    requires
        mc@.len() == mr@.len() && i1@.len() == mr@.len() && i2@.len() == mr@.len(),
        i3@.len() == mr@.len() && i4@.len() == mr@.len(),
    ensures
        lvals(r@) == g_table(lvals(mr@), lvals(mc@), lvals(i1@), lvals(i2@), lvals(i3@), lvals(i4@), eps.val()),
        r@.len() == mr@.len(),
{
    let ghost e = eps.val();
    proof {
        lemma_val_mod(*eps);
    }
    let n = mr.len();
    let mut out: Vec<Fr> = Vec::new();
    let mut i: usize = 0;
    while i < n
        invariant
            i <= n,
            n == mr@.len(),
            mc@.len() == n && i1@.len() == n && i2@.len() == n && i3@.len() == n && i4@.len() == n,
            e == eps.val() && e == e % q(),
            out@.len() == i,
            forall|j: int|
                0 <= j < i ==> (#[trigger] out@[j]).val() == (mr@[j].val() * i1@[j].val() - i2@[j].val() + e
                    * mc@[j].val() * i3@[j].val() - e * i4@[j].val()) % q(),
        decreases n - i,
    {
        let ghost (a, b, c1, c2, c3, c4) = (
            mr@[i as int].val(),
            mc@[i as int].val(),
            i1@[i as int].val(),
            i2@[i as int].val(),
            i3@[i as int].val(),
            i4@[i as int].val(),
        );
        proof {
            lemma_val_mod(mr@[i as int]);
            lemma_val_mod(mc@[i as int]);
            lemma_val_mod(i1@[i as int]);
            lemma_val_mod(i2@[i as int]);
            lemma_val_mod(i3@[i as int]);
            lemma_val_mod(i4@[i as int]);
        }
        let t1 = fmul(&mr[i], &i1[i], Ghost(a), Ghost(c1));
        let t12 = fsub(&t1, &i2[i], Ghost(a * c1), Ghost(c2));
        let em = fmul(eps, &mc[i], Ghost(e), Ghost(b));
        let t3 = fmul(&em, &i3[i], Ghost(e * b), Ghost(c3));
        let t123 = fadd(&t12, &t3, Ghost(a * c1 - c2), Ghost(e * b * c3));
        let t4 = fmul(eps, &i4[i], Ghost(e), Ghost(c4));
        let g = fsub(&t123, &t4, Ghost(a * c1 - c2 + e * b * c3), Ghost(e * c4));
        out.push(g);
        i = i + 1;
    }
    proof {
        assert(lvals(out@) =~= g_table(lvals(mr@), lvals(mc@), lvals(i1@), lvals(i2@), lvals(i3@), lvals(i4@), e));
    }
    out
}

/// The inverses of the values, or none where their product is zero.
fn checked_invert(v: &Vec<Fr>) -> (r: Option<Vec<Fr>>)
    ensures
        r is None <==> fprod(lvals(v@)) % q() == 0,
        r matches Some(inv) ==> inverts(lvals(inv@), lvals(v@)),
{
    let prod = product_of(v);
    if fr_eq(&prod, &fr_zero()) {
        return None;
    }
    let inv = batch_invert(v.as_slice());
    proof {
        assert forall|i: int| 0 <= i < inv@.len() implies #[trigger] (lvals(inv@)[i] * lvals(v@)[i]) % q() == 1 by {
            assert(inv@[i].val() * v@[i].val() == lvals(inv@)[i] * lvals(v@)[i]);
        }
    }
    Some(inv)
}

impl TitanSnark {
    /// The prover's third step: the root of the lookups into the transcript,
    /// the scalars `alpha`, `beta` and `epsilon`, the four denominator
    /// tables, their inverses, `g` and the commitment of `g`, whose Merkle
    /// root the caller computes. There is none where a denominator is zero.
    pub fn prove_denominators(
        lk: LookupPhase,
        index: &TitanIndexPolys,
        pp_single: &TitanSetup,
        comm_pqm_root: [u8; 32],
    ) -> (r: Option<DenominatorPhase>)
        requires
            lookup_shapes(lk, *index),
            pp_single.wf(),
            pp_single.m == lk.rel.nvx,
        ensures
            denominator_post(lk, *index, *pp_single, comm_pqm_root, r),
    {
        let ghost lk0 = lk;
        let mut lk = lk;
        lk.rel.transcript.append_message("comm_p_q_m", comm_pqm_root.as_slice());
        let alpha_3 = get_challenge(&mut lk.rel.transcript, "alpha");
        let beta_3 = get_challenge(&mut lk.rel.transcript, "beta_3");
        let epsilon = get_challenge(&mut lk.rel.transcript, "epsilon");
        let n = lk.p_poly.coeffs.len();
        let ids = position_values(n);
        let ghost ds = denominator_tables(lk0, *index, alpha_3.val(), beta_3.val());
        let d1 = denominator_values(&alpha_3, &beta_3, &ids, &lk.eq_rx.coeffs);
        let d2 = denominator_values(&alpha_3, &beta_3, &index.row_poly.coeffs, &lk.p_poly.coeffs);
        let d3 = denominator_values(&alpha_3, &beta_3, &ids, &lk.eq_ry.coeffs);
        let d4 = denominator_values(&alpha_3, &beta_3, &index.col_poly.coeffs, &lk.q_poly.coeffs);
        proof {
            assert(lvals(d1@) == ds[0]);
            assert(lvals(d2@) == ds[1]);
            assert(lvals(d3@) == ds[2]);
            assert(lvals(d4@) == ds[3]);
        }
        let inv_d1 = match checked_invert(&d1) {
            Some(v) => v,
            None => return None,
        };
        let inv_d2 = match checked_invert(&d2) {
            Some(v) => v,
            None => return None,
        };
        let inv_d3 = match checked_invert(&d3) {
            Some(v) => v,
            None => return None,
        };
        let inv_d4 = match checked_invert(&d4) {
            Some(v) => v,
            None => return None,
        };
        let g = g_values(&lk.m_r_poly.coeffs, &lk.m_c_poly.coeffs, &inv_d1, &inv_d2, &inv_d3, &inv_d4, &epsilon);
        let d1 = MultilinearPoly::new(d1);
        let d2 = MultilinearPoly::new(d2);
        let d3 = MultilinearPoly::new(d3);
        let d4 = MultilinearPoly::new(d4);
        let g_poly = MultilinearPoly::new(g);
        proof {
            let nv = lk.rel.nvx as nat;
            crate::sums::lemma_exp2_injective(d1.num_vars as nat, nv);
            crate::sums::lemma_exp2_injective(d2.num_vars as nat, nv);
            crate::sums::lemma_exp2_injective(d3.num_vars as nat, nv);
            crate::sums::lemma_exp2_injective(d4.num_vars as nat, nv);
            crate::sums::lemma_exp2_injective(g_poly.num_vars as nat, nv);
        }
        let comm_g = TitanPolyCommitment::commit(pp_single, &g_poly);
        Some(DenominatorPhase {
            lk,
            comm_pqm_root,
            alpha_3,
            beta_3,
            epsilon,
            d1,
            d2,
            d3,
            d4,
            inv_d1,
            inv_d2,
            inv_d3,
            inv_d4,
            g_poly,
            comm_g,
        })
    }
}

/// What the prover holds after the third sum-check: the root of `g`, the
/// point `eta` and the scalar `delta`, the sum-check with its point `r_3`,
/// the values there, and the commitment of the witness polynomial `z`.
#[allow(non_snake_case)]
pub struct MemoryPhase {
    pub dp: DenominatorPhase,
    pub comm_g_root: [u8; 32],
    pub eta: Vec<Fr>,
    pub delta: Fr,
    pub sumcheck_proof_3: SumCheckProof,
    pub r3: Vec<Fr>,
    pub val_A_at_r3: Fr,
    pub val_B_at_r3: Fr,
    pub val_C_at_r3: Fr,
    pub p_at_r3: Fr,
    pub q_at_r3: Fr,
    pub g_at_r3: Fr,
    pub row_at_r3: Fr,
    pub col_at_r3: Fr,
    pub m_r_at_r3: Fr,
    pub m_c_at_r3: Fr,
    pub comm_z: MultilinearPoly<Pt>,
}

/// The shapes the third sum-check needs.
pub open spec fn memory_pre(dp: DenominatorPhase, index: TitanIndexPolys, pp_single: TitanSetup) -> bool {
    let nv = dp.lk.rel.nvx;
    &&& lookup_shapes(dp.lk, index)
    &&& dp.d1.wf() && dp.d1.num_vars == nv && dp.d2.wf() && dp.d2.num_vars == nv
    &&& dp.d3.wf() && dp.d3.num_vars == nv && dp.d4.wf() && dp.d4.num_vars == nv
    &&& dp.g_poly.wf() && dp.g_poly.num_vars == nv
    &&& dp.lk.rel.z_poly.wf() && dp.lk.rel.z_poly.num_vars == nv
    &&& pp_single.wf()
    &&& pp_single.m == nv
}

/// The thirteen tables of the third sum-check.
pub open spec fn memory_tables(dp: DenominatorPhase, index: TitanIndexPolys, eta: Seq<int>) -> Seq<Seq<int>> {
    seq![
        index.val_A_poly.table(),
        index.val_B_poly.table(),
        index.val_C_poly.table(),
        dp.lk.p_poly.table(),
        dp.lk.q_poly.table(),
        seq_mod(eq_table(eta), q()),
        dp.g_poly.table(),
        dp.d1.table(),
        dp.d2.table(),
        dp.d3.table(),
        dp.d4.table(),
        dp.lk.m_r_poly.table(),
        dp.lk.m_c_poly.table(),
    ]
}

/// The transcript once the root of `g` is in.
pub open spec fn memory_log(dp: DenominatorPhase, root: [u8; 32]) -> Seq<TranscriptEntry> {
    dp.lk.rel.transcript@.push(TranscriptEntry::Message("comm_g"@, root@))
}

/// The transcript the third sum-check starts from.
pub open spec fn memory_sc_log(dp: DenominatorPhase, root: [u8; 32]) -> Seq<TranscriptEntry> {
    chal_log(memory_log(dp, root), "eta"@, dp.lk.rel.nvx as nat).push(TranscriptEntry::Challenge("delta"@, 64))
}

/// The ten values at `r_3` appended after the third sum-check.
#[allow(non_snake_case)]
pub open spec fn r3_log(log: Seq<TranscriptEntry>, mp: MemoryPhase) -> Seq<TranscriptEntry> {
    log.push(TranscriptEntry::Message("val_A_at_r3"@, mp.val_A_at_r3.ser())).push(
        TranscriptEntry::Message("val_B_at_r3"@, mp.val_B_at_r3.ser()),
    ).push(TranscriptEntry::Message("val_C_at_r3"@, mp.val_C_at_r3.ser())).push(
        TranscriptEntry::Message("p_at_r3"@, mp.p_at_r3.ser()),
    ).push(TranscriptEntry::Message("q_at_r3"@, mp.q_at_r3.ser())).push(
        TranscriptEntry::Message("g_at_r3"@, mp.g_at_r3.ser()),
    ).push(TranscriptEntry::Message("row_at_r3"@, mp.row_at_r3.ser())).push(
        TranscriptEntry::Message("col_at_r3"@, mp.col_at_r3.ser()),
    ).push(TranscriptEntry::Message("m_r_at_r3"@, mp.m_r_at_r3.ser())).push(
        TranscriptEntry::Message("m_c_at_r3"@, mp.m_c_at_r3.ser()),
    )
}

/// After the root of `g`: `eta` and `delta` drawn, the third sum-check of
/// the thirteen tables under `MemoryCombine` of degree six, the values of
/// the committed and index polynomials at its point `r_3` appended, and the
/// commitment of `z`.
pub open spec fn memory_post(
    dp: DenominatorPhase,
    index: TitanIndexPolys,
    pp_single: TitanSetup,
    root: [u8; 32],
    mp: MemoryPhase,
) -> bool {
    let nv = dp.lk.rel.nvx as nat;
    let log = memory_log(dp, root);
    let eta = chal_vals(log, "eta"@, nv);
    let delta = chal(chal_log(log, "eta"@, nv), "delta"@);
    let log_h = memory_sc_log(dp, root);
    let tabs = memory_tables(dp, index, eta);
    let comb = MemoryCombine { eps: dp.epsilon, delta: mp.delta };
    let r3 = lvals(mp.r3@);
    let log_sc = crate::field_sumcheck::sc_log(log_h, crate::field_sumcheck::cube_sum(comb, tabs, exp2(nv)) % q(), mp.sumcheck_proof_3.rounds(), nv);
    &&& mp.dp == (DenominatorPhase {
        lk: LookupPhase { rel: RelationPhase { transcript: mp.dp.lk.rel.transcript, ..dp.lk.rel }, ..dp.lk },
        ..dp
    })
    &&& mp.comm_g_root == root
    &&& lvals(mp.eta@) == eta
    &&& mp.delta.val() == delta
    &&& sc_prove_post(comb, tabs, nv, 6, log_h, mp.sumcheck_proof_3, mp.r3@, log_sc)
    &&& mp.val_A_at_r3.val() == mle(tabs[0], r3) % q()
    &&& mp.val_B_at_r3.val() == mle(tabs[1], r3) % q()
    &&& mp.val_C_at_r3.val() == mle(tabs[2], r3) % q()
    &&& mp.p_at_r3.val() == mle(tabs[3], r3) % q()
    &&& mp.q_at_r3.val() == mle(tabs[4], r3) % q()
    &&& mp.g_at_r3.val() == mle(tabs[6], r3) % q()
    &&& mp.row_at_r3.val() == mle(index.row_poly.table(), r3) % q()
    &&& mp.col_at_r3.val() == mle(index.col_poly.table(), r3) % q()
    &&& mp.m_r_at_r3.val() == mle(tabs[11], r3) % q()
    &&& mp.m_c_at_r3.val() == mle(tabs[12], r3) % q()
    &&& mp.dp.lk.rel.transcript@ == r3_log(log_sc, mp)
    &&& mp.comm_z.wf() && mp.comm_z.num_vars == pp_single.m1
    &&& mp.comm_z.table() == chunk_commitments(
        dp.lk.rel.z_poly.table(),
        pp_single.bp_setup.c_poly.table(),
        pp_single.m1 as nat,
        (pp_single.m - pp_single.m1) as nat,
    )
}

impl TitanSnark {
    /// The prover's fourth step: the root of `g` into the transcript, the
    /// point `eta` and the scalar `delta`, the third sum-check, which batches
    /// the three matrix evaluations with the memory-checking identities, the
    /// values at its point `r_3`, and the commitment of `z`, whose Merkle
    /// root the caller computes.
    #[allow(non_snake_case)]
    #[verifier::rlimit(40)]
    pub fn prove_memory(
        dp: DenominatorPhase,
        index: &TitanIndexPolys,
        pp_single: &TitanSetup,
        comm_g_root: [u8; 32],
    ) -> (mp: MemoryPhase)
        requires
            memory_pre(dp, *index, *pp_single),
        ensures
            memory_post(dp, *index, *pp_single, comm_g_root, mp),
    {
        let ghost dp0 = dp;
        let mut dp = dp;
        let nv = dp.lk.rel.nvx;
        dp.lk.rel.transcript.append_message("comm_g", comm_g_root.as_slice());
        let eta = draw_challenges(&mut dp.lk.rel.transcript, "eta", nv);
        let delta = get_challenge(&mut dp.lk.rel.transcript, "delta");
        let ghost log_h = dp.lk.rel.transcript@;
        proof {
            assert(log_h == memory_sc_log(dp0, comm_g_root));
        }
        let eq_eta = MultilinearPoly::<Fr>::init_with_eq(eta.as_slice());
        let comb = MemoryCombine { eps: dp.epsilon, delta };
        let mut polys: Vec<MultilinearPoly<Fr>> = Vec::new();
        polys.push(copy_poly(&index.val_A_poly));
        polys.push(copy_poly(&index.val_B_poly));
        polys.push(copy_poly(&index.val_C_poly));
        polys.push(copy_poly(&dp.lk.p_poly));
        polys.push(copy_poly(&dp.lk.q_poly));
        polys.push(eq_eta);
        polys.push(copy_poly(&dp.g_poly));
        polys.push(copy_poly(&dp.d1));
        polys.push(copy_poly(&dp.d2));
        polys.push(copy_poly(&dp.d3));
        polys.push(copy_poly(&dp.d4));
        polys.push(copy_poly(&dp.lk.m_r_poly));
        polys.push(copy_poly(&dp.lk.m_c_poly));
        let ghost tabs = memory_tables(dp0, *index, lvals(eta@));
        proof {
            assert(tables_of(polys@) =~= tabs);
        }
        let (sumcheck_proof_3, r3) = crate::field_sumcheck::prove(polys, &comb, 6, &mut dp.lk.rel.transcript);
        let val_A_at_r3 = index.val_A_poly.evaluate(r3.as_slice());
        let val_B_at_r3 = index.val_B_poly.evaluate(r3.as_slice());
        let val_C_at_r3 = index.val_C_poly.evaluate(r3.as_slice());
        let p_at_r3 = dp.lk.p_poly.evaluate(r3.as_slice());
        let q_at_r3 = dp.lk.q_poly.evaluate(r3.as_slice());
        let g_at_r3 = dp.g_poly.evaluate(r3.as_slice());
        let row_at_r3 = index.row_poly.evaluate(r3.as_slice());
        let col_at_r3 = index.col_poly.evaluate(r3.as_slice());
        let m_r_at_r3 = dp.lk.m_r_poly.evaluate(r3.as_slice());
        let m_c_at_r3 = dp.lk.m_c_poly.evaluate(r3.as_slice());
        append_to_transcript(&mut dp.lk.rel.transcript, "val_A_at_r3", &val_A_at_r3);
        append_to_transcript(&mut dp.lk.rel.transcript, "val_B_at_r3", &val_B_at_r3);
        append_to_transcript(&mut dp.lk.rel.transcript, "val_C_at_r3", &val_C_at_r3);
        append_to_transcript(&mut dp.lk.rel.transcript, "p_at_r3", &p_at_r3);
        append_to_transcript(&mut dp.lk.rel.transcript, "q_at_r3", &q_at_r3);
        append_to_transcript(&mut dp.lk.rel.transcript, "g_at_r3", &g_at_r3);
        append_to_transcript(&mut dp.lk.rel.transcript, "row_at_r3", &row_at_r3);
        append_to_transcript(&mut dp.lk.rel.transcript, "col_at_r3", &col_at_r3);
        append_to_transcript(&mut dp.lk.rel.transcript, "m_r_at_r3", &m_r_at_r3);
        append_to_transcript(&mut dp.lk.rel.transcript, "m_c_at_r3", &m_c_at_r3);
        let comm_z = TitanPolyCommitment::commit(pp_single, &dp.lk.rel.z_poly);
        MemoryPhase {
            dp,
            comm_g_root,
            eta,
            delta,
            sumcheck_proof_3,
            r3,
            val_A_at_r3,
            val_B_at_r3,
            val_C_at_r3,
            p_at_r3,
            q_at_r3,
            g_at_r3,
            row_at_r3,
            col_at_r3,
            m_r_at_r3,
            m_c_at_r3,
            comm_z,
        }
    }
}

} // verus!
