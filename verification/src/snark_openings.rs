//! The last step of the SNARK prover: the fourth sum-check, which reduces
//! the openings of `z` at `r_y` and of `g` at `r_3` to one point `r_4`, and
//! the evaluation proofs of the committed polynomials.
use vstd::prelude::*;
use crate::field::{q, Fr};
use crate::traits::lvals;
use crate::group::Pt;
use crate::multilinear::MultilinearPoly;
use crate::mle::{eq_table, seq_mod, mle};
use crate::sums::{exp2, lemma_exp2_monotone, lemma_exp2_adds};
use crate::transcript::{TranscriptEntry, get_challenge};
use crate::field_sumcheck::{SumCheckProof, sc_prove_post, tables_of};
use crate::group_sumcheck::{check_alpha, gs_alpha_ok};
use crate::pcs::{
    TitanSetup, TitanPolyCommitment, AggregateEvalProof, aggregate_table, agg_challenges, agg_point, agg_sumcheck_ok,
    pcs_point_ok, pcs_prove_post, pcs_batch_prove_post,
};
use crate::sumcheck::roots_view;
use crate::config::{TitanSnark, TitanIndexPolys};
use crate::snark::{SpartanProof, chal};
use crate::snark_prover::{RelationPhase, ReduceCombine, copy_poly};
use crate::snark_memory::{LookupPhase, DenominatorPhase, MemoryPhase, sn_index_ok, pqm_polys, lemma_flat4};

verus! {

/// The parameters open polynomials in `m` variables.
pub open spec fn setup_ok(pp: TitanSetup, m: nat) -> bool {
    &&& pp.wf()
    &&& pp.m == m
    &&& 1 <= pp.l1 < pp.m1
    &&& pp.domain_g1@.len() > 0
}

/// The index polynomials in the order they are opened.
pub open spec fn index_polys(index: TitanIndexPolys) -> Seq<MultilinearPoly<Fr>> {
    seq![index.row_poly, index.col_poly, index.val_A_poly, index.val_B_poly, index.val_C_poly]
}

/// The batched evaluation proof of `polys`, with the group polynomials
/// `gs` of their commitments and roots `roots`, at `alpha`.
#[verifier::opaque]
pub open spec fn batch_opened(
    pp: TitanSetup,
    polys: Seq<MultilinearPoly<Fr>>,
    gs: Seq<MultilinearPoly<Pt>>,
    roots: Seq<Seq<u8>>,
    alpha: Seq<Fr>,
    proof: crate::pcs::TitanBatchEvalProof,
) -> bool {
    pcs_batch_prove_post(pp, polys, gs, roots, alpha, proof)
}

/// An honest aggregate evaluation proof of the aggregate table `f`, with
/// the commitment's group polynomial `g` and root `root`, for the first
/// `max_idx` polynomials at `point`.
#[verifier::opaque]
pub open spec fn agg_prove_ok(
    pp: TitanSetup,
    f: Seq<int>,
    g: Seq<int>,
    root: Seq<u8>,
    point: Seq<Fr>,
    max_idx: nat,
    proof: AggregateEvalProof,
) -> bool {
    let chs = agg_challenges(f, point, max_idx, pp.m as nat, proof.evaluations@, proof.sumcheck_proof.rounds());
    let pt = agg_point(f, point, max_idx, pp.m as nat, proof.evaluations@, proof.sumcheck_proof);
    &&& agg_sumcheck_ok(f, point, max_idx, pp.m as nat, proof.evaluations@, proof.sumcheck_proof)
    &&& pcs_point_ok(pp, pt)
    &&& proof.p_at_r.val() == mle(f, chs) % q()
    &&& pcs_prove_post(pp, f, g, root, pt, proof.eval_proof)
}

/// The aggregate sum-check ends at a point the evaluation proof cannot
/// open at.
#[verifier::opaque]
pub open spec fn agg_fails(pp: TitanSetup, f: Seq<int>, point: Seq<Fr>, max_idx: nat) -> bool {
    exists|evals: Seq<Fr>, sc: SumCheckProof|
        #[trigger] agg_sumcheck_ok(f, point, max_idx, pp.m as nat, evals, sc) && !pcs_point_ok(
            pp,
            agg_point(f, point, max_idx, pp.m as nat, evals, sc),
        )
}

/// The shapes the openings need.
pub open spec fn openings_pre(
    mp: MemoryPhase,
    index: TitanIndexPolys,
    index_committed: Seq<MultilinearPoly<Pt>>,
    index_roots: Seq<Vec<u8>>,
    pp_single: TitanSetup,
    pp_trusted: TitanSetup,
    pp_agg: TitanSetup,
) -> bool {
    let lk = mp.dp.lk;
    let nv = lk.rel.nvx as nat;
    &&& sn_index_ok(index, nv)
    &&& lk.rel.z_poly.wf() && lk.rel.z_poly.num_vars == nv
    &&& mp.dp.g_poly.wf() && mp.dp.g_poly.num_vars == nv
    &&& lk.p_poly.wf() && lk.p_poly.num_vars == nv && lk.q_poly.wf() && lk.q_poly.num_vars == nv
    &&& lk.m_r_poly.wf() && lk.m_r_poly.num_vars == nv && lk.m_c_poly.wf() && lk.m_c_poly.num_vars == nv
    &&& lk.rel.ry@.len() == nv && mp.r3@.len() == nv
    &&& setup_ok(pp_single, nv) && setup_ok(pp_trusted, nv) && setup_ok(pp_agg, nv + 2)
    &&& lk.comm_pqm.wf() && lk.comm_pqm.num_vars == pp_agg.m1
    &&& mp.dp.comm_g.wf() && mp.dp.comm_g.num_vars == pp_single.m1
    &&& mp.comm_z.wf() && mp.comm_z.num_vars == pp_single.m1
    &&& index_committed.len() == 5
    &&& forall|i: int| 0 <= i < 5 ==> (#[trigger] index_committed[i]).wf() && index_committed[i].num_vars == pp_trusted.m1
    &&& index_roots.len() == 5
    &&& forall|i: int| 0 <= i < 5 ==> (#[trigger] index_roots[i])@.len() <= u32::MAX
}

/// The tables of the fourth sum-check: `z`, `eq(r_y, ·)`, `g`, `eq(r_3, ·)`.
pub open spec fn reduce_tables(mp: MemoryPhase) -> Seq<Seq<int>> {
    seq![
        mp.dp.lk.rel.z_poly.table(),
        seq_mod(eq_table(lvals(mp.dp.lk.rel.ry@)), q()),
        mp.dp.g_poly.table(),
        seq_mod(eq_table(lvals(mp.r3@)), q()),
    ]
}

/// The fourth sum-check from the transcript `log0`: the root of `z` and
/// `rho` appended, then the sum-check of the tables under `ReduceCombine`,
/// with the point `r4` it ends in.
#[verifier::opaque]
pub open spec fn reduce_ok(
    log0: Seq<TranscriptEntry>,
    tabs: Seq<Seq<int>>,
    nv: nat,
    root_z: [u8; 32],
    rho: Fr,
    sc: SumCheckProof,
    r4: Seq<Fr>,
    log: Seq<TranscriptEntry>,
) -> bool {
    let log_i = log0.push(TranscriptEntry::Message("comm_z"@, root_z@));
    &&& rho.val() == chal(log_i, "rho"@)
    &&& sc_prove_post(ReduceCombine { rho }, tabs, nv, 2, log_i.push(TranscriptEntry::Challenge("rho"@, 64)), sc, r4, log)
}

/// The proof carries the values of the first three steps.
pub open spec fn carries_phases(mp: MemoryPhase, root_z: [u8; 32], p: SpartanProof) -> bool {
    let rel = mp.dp.lk.rel;
    &&& p.sumcheck_proof_1 == rel.sumcheck_proof_1
    &&& p.a_at_rx == rel.a_at_rx && p.b_at_rx == rel.b_at_rx && p.c_at_rx == rel.c_at_rx
    &&& p.sumcheck_proof_2 == rel.sumcheck_proof_2
    &&& p.eA_at_ry == rel.eA_at_ry && p.eB_at_ry == rel.eB_at_ry && p.eC_at_ry == rel.eC_at_ry
    &&& p.z_at_ry == rel.z_at_ry
    &&& p.comm_pqm_root == mp.dp.comm_pqm_root && p.comm_g_root == mp.comm_g_root && p.comm_z_root == root_z
    &&& p.sumcheck_proof_3 == mp.sumcheck_proof_3
    &&& p.val_A_at_r3 == mp.val_A_at_r3 && p.val_B_at_r3 == mp.val_B_at_r3 && p.val_C_at_r3 == mp.val_C_at_r3
    &&& p.p_at_r3 == mp.p_at_r3 && p.q_at_r3 == mp.q_at_r3 && p.g_at_r3 == mp.g_at_r3
    &&& p.row_at_r3 == mp.row_at_r3 && p.col_at_r3 == mp.col_at_r3
    &&& p.m_r_at_r3 == mp.m_r_at_r3 && p.m_c_at_r3 == mp.m_c_at_r3
}

/// The proof of the last step: the values of the earlier steps, the fourth
/// sum-check with the values of `z` and `g` at its point `r_4`, the
/// aggregate opening of `p, q, m_r, m_c` at `r_3`, the batched opening of
/// the index polynomials at `r_3` and that of `z` and `g` at `r_4`; none
/// where `r_3` or `r_4` is a point the commitment cannot open at, or the
/// aggregate sum-check ends at one.
pub open spec fn openings_post(
    mp: MemoryPhase,
    index: TitanIndexPolys,
    index_committed: Seq<MultilinearPoly<Pt>>,
    index_roots: Seq<Vec<u8>>,
    pp_single: TitanSetup,
    pp_trusted: TitanSetup,
    pp_agg: TitanSetup,
    root_z: [u8; 32],
    r: Option<SpartanProof>,
) -> bool {
    let dp = mp.dp;
    let lk = dp.lk;
    let f = aggregate_table(pqm_polys(lk), pp_agg.m as nat);
    let r3 = mp.r3@;
    let r3_ok = gs_alpha_ok(r3.skip((pp_trusted.m - pp_trusted.m1) as int), pp_trusted.l1 as nat);
    let zg = seq![lk.rel.z_poly, dp.g_poly];
    let zg_committed = seq![mp.comm_z, dp.comm_g];
    let zg_roots = seq![root_z@, mp.comm_g_root@];
    &&& r matches Some(p) ==> {
        &&& carries_phases(mp, root_z, p)
        &&& exists|rho: Fr, r4: Seq<Fr>, log: Seq<TranscriptEntry>|
            #![trigger reduce_ok(lk.rel.transcript@, reduce_tables(mp), lk.rel.nvx as nat, root_z, rho, p.sumcheck_proof_4, r4, log)]
            {
                &&& reduce_ok(lk.rel.transcript@, reduce_tables(mp), lk.rel.nvx as nat, root_z, rho, p.sumcheck_proof_4, r4, log)
                &&& p.z_at_r4.val() == mle(lk.rel.z_poly.table(), lvals(r4)) % q()
                &&& p.g_at_r4.val() == mle(dp.g_poly.table(), lvals(r4)) % q()
                &&& gs_alpha_ok(r4.skip((pp_single.m - pp_single.m1) as int), pp_single.l1 as nat)
                &&& batch_opened(pp_single, zg, zg_committed, zg_roots, r4, p.batch_zg_proof)
            }
        &&& r3_ok
        &&& agg_prove_ok(pp_agg, f, lk.comm_pqm.table(), dp.comm_pqm_root@, r3, 4, p.agg_pqm_proof)
        &&& batch_opened(pp_trusted, index_polys(index), index_committed, roots_view(index_roots), r3, p.batch_index_proof)
    }
    &&& r is None ==> {
        ||| !r3_ok
        ||| agg_fails(pp_agg, f, r3, 4)
        ||| exists|rho: Fr, sc: SumCheckProof, r4: Seq<Fr>, log: Seq<TranscriptEntry>|
            #[trigger] reduce_ok(lk.rel.transcript@, reduce_tables(mp), lk.rel.nvx as nat, root_z, rho, sc, r4, log) && !gs_alpha_ok(
                r4.skip((pp_single.m - pp_single.m1) as int),
                pp_single.l1 as nat,
            )
    }
}

/// Appends the values of `src`.
fn push_all(out: &mut Vec<Fr>, src: &Vec<Fr>)
    ensures
        final(out)@ == old(out)@ + src@,
{
    let ghost start = out@;
    let mut i: usize = 0;
    while i < src.len()
        invariant
            i <= src@.len(),
            out@ == start + src@.take(i as int),
        decreases src@.len() - i,
    {
        out.push(src[i]);
        i = i + 1;
        proof {
            assert(src@.take(i as int) =~= src@.take(i - 1).push(src@[i - 1]));
        }
    }
    proof {
        assert(src@.take(src@.len() as int) =~= src@);
    }
}

/// Whether the values of `alpha` after its first `skip` meet
/// `gs_alpha_ok` for `l` rounds.
fn point_ok(alpha: &Vec<Fr>, skip: usize, l: usize) -> (r: bool)
    requires
        skip <= alpha@.len(),
        l <= alpha@.len() - skip,
        exp2(l as nat) <= usize::MAX,
    ensures
        r == gs_alpha_ok(alpha@.skip(skip as int), l as nat),
{
    let tail = vstd::slice::slice_subrange(alpha.as_slice(), skip, alpha.len());
    proof {
        assert(tail@ =~= alpha@.skip(skip as int));
    }
    check_alpha(tail, l)
}

/// The fourth sum-check: the root of `z` and `rho` into the transcript,
/// then the sum-check of `z · eq(r_y, ·) + rho · g · eq(r_3, ·)`; returns
/// the proof, its point `r_4`, `rho`, and `z` and `g` at `r_4`.
fn reduce_step(
    t: &mut crate::transcript::TitanTranscript,
    z_poly: &MultilinearPoly<Fr>,
    g_poly: &MultilinearPoly<Fr>,
    ry: &Vec<Fr>,
    r3: &Vec<Fr>,
    root_z: [u8; 32],
) -> (r: (SumCheckProof, Vec<Fr>, Fr, Fr, Fr))
    requires
        z_poly.wf() && g_poly.wf(),
        g_poly.num_vars == z_poly.num_vars,
        ry@.len() == z_poly.num_vars,
        r3@.len() == z_poly.num_vars,
        exp2(z_poly.num_vars as nat) <= usize::MAX,
    ensures
        reduce_ok(
            old(t)@,
            seq![
                z_poly.table(),
                seq_mod(eq_table(lvals(ry@)), q()),
                g_poly.table(),
                seq_mod(eq_table(lvals(r3@)), q()),
            ],
            z_poly.num_vars as nat,
            root_z,
            r.2,
            r.0,
            r.1@,
            final(t)@,
        ),
        r.1@.len() == z_poly.num_vars,
        r.3.val() == mle(z_poly.table(), lvals(r.1@)) % q(),
        r.4.val() == mle(g_poly.table(), lvals(r.1@)) % q(),
{
    t.append_message("comm_z", root_z.as_slice());
    let rho = get_challenge(t, "rho");
    let eq_ry = MultilinearPoly::<Fr>::init_with_eq(ry.as_slice());
    let eq_r3 = MultilinearPoly::<Fr>::init_with_eq(r3.as_slice());
    let mut polys: Vec<MultilinearPoly<Fr>> = Vec::new();
    polys.push(copy_poly(z_poly));
    polys.push(eq_ry);
    polys.push(copy_poly(g_poly));
    polys.push(eq_r3);
    proof {
        assert(tables_of(polys@) =~= seq![
            z_poly.table(),
            seq_mod(eq_table(lvals(ry@)), q()),
            g_poly.table(),
            seq_mod(eq_table(lvals(r3@)), q()),
        ]);
    }
    let comb = ReduceCombine { rho };
    let (sc, r4) = crate::field_sumcheck::prove(polys, &comb, 2, t);
    proof {
        reveal(reduce_ok);
    }
    let z_at_r4 = z_poly.evaluate(r4.as_slice());
    let g_at_r4 = g_poly.evaluate(r4.as_slice());
    (sc, r4, rho, z_at_r4, g_at_r4)
}

/// The aggregate opening of four polynomials in `m - 2` variables at
/// `point`; none where the aggregate sum-check ends at a point the
/// commitment cannot open at.
fn aggregate_step(
    pp: &TitanSetup,
    four: &Vec<MultilinearPoly<Fr>>,
    committed: &MultilinearPoly<Pt>,
    root: [u8; 32],
    point: &Vec<Fr>,
) -> (r: Option<AggregateEvalProof>)
    requires
        setup_ok(*pp, pp.m as nat),
        pp.m >= 2,
        four@.len() == 4,
        forall|i: int| 0 <= i < 4 ==> (#[trigger] four@[i]).wf() && four@[i].num_vars == pp.m - 2,
        committed.wf() && committed.num_vars == pp.m1,
        point@.len() == pp.m - 2,
    ensures
        r matches Some(proof) ==> agg_prove_ok(
            *pp,
            aggregate_table(four@, pp.m as nat),
            committed.table(),
            root@,
            point@,
            4,
            proof,
        ),
        r is None ==> agg_fails(*pp, aggregate_table(four@, pp.m as nat), point@, 4),
{
    let nv = pp.m - 2;
    let mut agg: Vec<Fr> = Vec::new();
    push_all(&mut agg, &four[0].coeffs);
    push_all(&mut agg, &four[1].coeffs);
    push_all(&mut agg, &four[2].coeffs);
    push_all(&mut agg, &four[3].coeffs);
    proof {
        lemma_flat4(four@);
        lemma_exp2_adds(nv as nat, 2);
        assert(exp2(2) == 4) by {
            assert(exp2(1) == 2 * exp2(0));
            assert(exp2(2) == 2 * exp2(1));
        }
        assert(exp2(nv as nat) * exp2(2) == exp2(nv as nat) * 4);
        assert(agg@.len() == 4 * exp2(nv as nat));
        assert(agg@.len() == exp2(pp.m as nat));
    }
    let agg_poly = MultilinearPoly::new(agg);
    proof {
        crate::sums::lemma_exp2_injective(agg_poly.num_vars as nat, pp.m as nat);
        assert(agg_poly.table() =~= aggregate_table(four@, pp.m as nat));
        assert(exp2((pp.m - point@.len()) as nat) == 4);
    }
    let root_vec = vstd::slice::slice_to_vec(root.as_slice());
    let r = TitanPolyCommitment::aggregate_prove(pp, &agg_poly, committed, &root_vec, point, 4);
    proof {
        reveal(agg_prove_ok);
        reveal(agg_fails);
    }
    r
}

impl TitanSnark {
    /// The prover's last step: the root of `z` into the transcript, `rho`,
    /// the fourth sum-check of `z · eq(r_y, ·) + rho · g · eq(r_3, ·)`, the
    /// values of `z` and `g` at its point `r_4`, the aggregate opening of
    /// `p, q, m_r, m_c` at `r_3`, and the batched openings of the index
    /// polynomials at `r_3` and of `z` and `g` at `r_4`. There is none where
    /// one of these points is one the commitment cannot open at.
    #[allow(non_snake_case)]
    #[verifier::spinoff_prover]
    #[verifier::rlimit(100)]
    pub fn prove_openings(
        mp: MemoryPhase,
        index: TitanIndexPolys,
        index_committed: &Vec<MultilinearPoly<Pt>>,
        index_roots: &Vec<Vec<u8>>,
        pp_single: &TitanSetup,
        pp_trusted: &TitanSetup,
        pp_agg: &TitanSetup,
        comm_z_root: [u8; 32],
    ) -> (r: Option<SpartanProof>)
        requires
            openings_pre(mp, index, index_committed@, index_roots@, *pp_single, *pp_trusted, *pp_agg),
        ensures
            openings_post(mp, index, index_committed@, index_roots@, *pp_single, *pp_trusted, *pp_agg, comm_z_root, r),
    {
        let ghost mp0 = mp;
        let ghost index0 = index;
        let MemoryPhase {
            dp,
            comm_g_root,
            sumcheck_proof_3,
            r3,
            val_A_at_r3,
            val_B_at_r3,
            val_C_at_r3,
            p_at_r3,
            q_at_r3,
            g_at_r3,
            row_at_r3,
            col_at_r3,
            m_r_at_r3,
            m_c_at_r3,
            comm_z,
            ..
        } = mp;
        let DenominatorPhase { lk, comm_pqm_root, g_poly, comm_g, .. } = dp;
        let LookupPhase { rel, p_poly, q_poly, m_r_poly, m_c_poly, comm_pqm, .. } = lk;
        let RelationPhase {
            transcript,
            nvx,
            sumcheck_proof_1,
            a_at_rx,
            b_at_rx,
            c_at_rx,
            sumcheck_proof_2,
            eA_at_ry,
            eB_at_ry,
            eC_at_ry,
            z_at_ry,
            ry,
            z_poly,
            ..
        } = rel;
        let nv = nvx;
        let mut t = transcript;
        proof {
            lemma_exp2_monotone(nv as nat, nv as nat + 2);
        }
        let ghost log0 = t@;
        let (sumcheck_proof_4, r4, rho, z_at_r4, g_at_r4) = reduce_step(&mut t, &z_poly, &g_poly, &ry, &r3, comm_z_root);
        proof {
            assert(log0 == mp0.dp.lk.rel.transcript@);
            assert(reduce_tables(mp0) == seq![
                z_poly.table(),
                seq_mod(eq_table(lvals(ry@)), q()),
                g_poly.table(),
                seq_mod(eq_table(lvals(r3@)), q()),
            ]);
            assert(reduce_ok(mp0.dp.lk.rel.transcript@, reduce_tables(mp0), nv as nat, comm_z_root, rho, sumcheck_proof_4, r4@, t@));
        }
        let ghost log_end = t@;
        proof {
            lemma_exp2_monotone(pp_trusted.l1 as nat, pp_trusted.m as nat);
            lemma_exp2_monotone(pp_single.l1 as nat, pp_single.m as nat);
        }
        if !point_ok(&r3, pp_trusted.m - pp_trusted.m1, pp_trusted.l1) {
            return None;
        }
        if !point_ok(&r4, pp_single.m - pp_single.m1, pp_single.l1) {
            return None;
        }
        let mut four: Vec<MultilinearPoly<Fr>> = Vec::new();
        four.push(p_poly);
        four.push(q_poly);
        four.push(m_r_poly);
        four.push(m_c_poly);
        proof {
            assert(four@ =~= pqm_polys(mp0.dp.lk));
        }
        let agg_pqm_proof = match aggregate_step(pp_agg, &four, &comm_pqm, comm_pqm_root, &r3) {
            Some(x) => x,
            None => {
                return None;
            },
        };
        let TitanIndexPolys { row_poly, col_poly, val_A_poly, val_B_poly, val_C_poly } = index;
        let mut ipolys: Vec<MultilinearPoly<Fr>> = Vec::new();
        ipolys.push(row_poly);
        ipolys.push(col_poly);
        ipolys.push(val_A_poly);
        ipolys.push(val_B_poly);
        ipolys.push(val_C_poly);
        proof {
            assert(ipolys@ =~= index_polys(index0));
        }
        let batch_index_proof = TitanPolyCommitment::batch_prove(pp_trusted, &ipolys, index_committed, index_roots, &r3);
        let mut zg: Vec<MultilinearPoly<Fr>> = Vec::new();
        zg.push(z_poly);
        zg.push(g_poly);
        let mut zg_committed: Vec<MultilinearPoly<Pt>> = Vec::new();
        zg_committed.push(comm_z);
        zg_committed.push(comm_g);
        let mut zg_roots: Vec<Vec<u8>> = Vec::new();
        zg_roots.push(vstd::slice::slice_to_vec(comm_z_root.as_slice()));
        zg_roots.push(vstd::slice::slice_to_vec(comm_g_root.as_slice()));
        proof {
            assert(roots_view(zg_roots@) =~= seq![comm_z_root@, comm_g_root@]);
            assert(zg@ =~= seq![mp0.dp.lk.rel.z_poly, mp0.dp.g_poly]);
            assert(zg_committed@ =~= seq![mp0.comm_z, mp0.dp.comm_g]);
        }
        let batch_zg_proof = TitanPolyCommitment::batch_prove(pp_single, &zg, &zg_committed, &zg_roots, &r4);
        let proof = SpartanProof {
            sumcheck_proof_1,
            a_at_rx,
            b_at_rx,
            c_at_rx,
            sumcheck_proof_2,
            eA_at_ry,
            eB_at_ry,
            eC_at_ry,
            z_at_ry,
            comm_pqm_root,
            comm_g_root,
            comm_z_root,
            sumcheck_proof_3,
            val_A_at_r3,
            val_B_at_r3,
            val_C_at_r3,
            p_at_r3,
            q_at_r3,
            g_at_r3,
            row_at_r3,
            col_at_r3,
            m_r_at_r3,
            m_c_at_r3,
            sumcheck_proof_4,
            z_at_r4,
            g_at_r4,
            agg_pqm_proof,
            batch_index_proof,
            batch_zg_proof,
        };
        proof {
            assert(carries_phases(mp0, comm_z_root, proof));
            assert(agg_prove_ok(*pp_agg, aggregate_table(pqm_polys(mp0.dp.lk), pp_agg.m as nat), mp0.dp.lk.comm_pqm.table(), mp0.dp.comm_pqm_root@, r3@, 4, proof.agg_pqm_proof));
            assert(batch_opened(*pp_trusted, index_polys(index0), index_committed@, roots_view(index_roots@), r3@, proof.batch_index_proof)) by {
                reveal(batch_opened);
            }
            assert(batch_opened(*pp_single, seq![mp0.dp.lk.rel.z_poly, mp0.dp.g_poly], seq![mp0.comm_z, mp0.dp.comm_g], seq![comm_z_root@, mp0.comm_g_root@], r4@, proof.batch_zg_proof)) by {
                reveal(batch_opened);
            }
            let rt = reduce_tables(mp0);
            let nvn = mp0.dp.lk.rel.nvx as nat;
            assert(reduce_ok(mp0.dp.lk.rel.transcript@, rt, nvn, comm_z_root, rho, proof.sumcheck_proof_4, r4@, log_end));
            assert(proof.z_at_r4.val() == mle(mp0.dp.lk.rel.z_poly.table(), lvals(r4@)) % q());
            assert(proof.g_at_r4.val() == mle(mp0.dp.g_poly.table(), lvals(r4@)) % q());
            assert(gs_alpha_ok(r4@.skip((pp_single.m - pp_single.m1) as int), pp_single.l1 as nat));
        }
        Some(proof)
    }
}

} // verus!
