//! The polynomial commitment: a field polynomial in `m` variables is cut into
//! `2^m1` chunks of `2^(m - m1)` values, each chunk is committed to with the
//! generators of the inner-product argument, and the group polynomial of the
//! chunk commitments is committed to coset by coset. An evaluation is proved
//! by the group sum-check on the chunk commitments followed by the
//! inner-product argument on the partially evaluated polynomial.
use vstd::prelude::*;
use crate::field::{q, Fr};
use crate::group::Pt;
use crate::sums::{exp2, dot, lemma_exp2_pos, lemma_exp2_adds, lemma_exp2_monotone};
use crate::mle::{seq_mod, restrict_hi};
use crate::traits::{lvals, InnerProduct, Linear, ByteSerializable};
use crate::multilinear::{MultilinearPoly, pow2_usize};
use crate::utils::generate_power_vec;
use crate::bulletproof::{
    pow_vals, BulletProofParams, BulletProof, BulletProofInstance, BulletProofWitness, ProtoBulletProofGroup,
    bp_prove_post, bp_verdict, bp_query_log,
};
use crate::sumcheck::{
    SumCheckGroupBatchInstance, SumCheckGroupBatchProof, sgb_prove_post, sgb_verdict, roots_view, sgb_init_log,
    SumCheckGroupInstance, SumCheckGroupProof, SumCheckGroupRounds, opening_evaluations, leaf_total, sg_prove_post, sg_verdict,
    sg_init_log, sg_after_log,
};
use crate::config::ProtoSumCheckGroup;
use crate::group_sumcheck::gs_alpha_ok;
use crate::transcript::{TitanTranscript, TranscriptEntry};
use crate::mle::{mle, eq_table, restrict_lo};
use crate::field::{fr_of_val, lemma_fr_of_val, le32, fr_mul, fr_zero, fr_one, fr_add, fr_one_minus};
use crate::mle::{eq_at, eq_poly};
use crate::sums::{ssum, lemma_ssum_push};
use crate::field_sumcheck::{
    SumCheckProof, ProductCombine, cube_sum, line_tables, round_tables, sc_challenge, tables_of, sc_round_fails,
    sc_prev_claim,
};
use crate::transcript::{append_to_transcript, get_challenge, challenge_scalar, merlin_challenge};
use crate::bulletproof::ser_msgs;
use crate::group_sumcheck::check_alpha;
use vstd::arithmetic::power::pow;
use vstd::arithmetic::div_mod::{lemma_mul_mod_noop_left, lemma_mul_mod_noop_right};
use crate::config::TitanSetupConfig;
use crate::utils::{create_smooth_domain, gen_idx};

verus! {

/// The positions opened for the given queries: each queried position once,
/// in increasing order.
pub fn opened_positions(queries: &Vec<usize>, n: usize) -> (r: Vec<usize>)
    requires
        forall|t: int| 0 <= t < queries@.len() ==> #[trigger] queries@[t] < n,
    ensures
        forall|a: int, b: int| 0 <= a < b < r@.len() ==> r@[a] < r@[b],
        forall|t: int| 0 <= t < r@.len() ==> queries@.contains(#[trigger] r@[t]),
        forall|t: int| 0 <= t < queries@.len() ==> r@.contains(#[trigger] queries@[t]),
{
    let mut marks: Vec<bool> = Vec::new();
    let mut i: usize = 0;
    while i < n
        invariant
            i <= n,
            marks@.len() == i,
            forall|j: int| 0 <= j < i ==> !(#[trigger] marks@[j]),
        decreases n - i,
    {
        marks.push(false);
        i = i + 1;
    }
    let mut k: usize = 0;
    while k < queries.len()
        invariant
            k <= queries@.len(),
            marks@.len() == n,
            forall|t: int| 0 <= t < queries@.len() ==> #[trigger] queries@[t] < n,
            forall|j: int| 0 <= j < n ==> (#[trigger] marks@[j] <==> exists|t: int| 0 <= t < k && queries@[t] == j),
        decreases queries@.len() - k,
    {
        let y = queries[k];
        marks.set(y, true);
        proof {
            assert forall|j: int| 0 <= j < n implies (#[trigger] marks@[j] <==> exists|t: int|
                0 <= t < k + 1 && queries@[t] == j) by {
                if j == y {
                    assert(queries@[k as int] == j);
                } else {
                    if marks@[j] {
                        let t = choose|t: int| 0 <= t < k && queries@[t] == j;
                        assert(0 <= t < k + 1 && queries@[t] == j);
                    }
                    if exists|t: int| 0 <= t < k + 1 && queries@[t] == j {
                        let t = choose|t: int| 0 <= t < k + 1 && queries@[t] == j;
                        assert(t != k);
                        assert(0 <= t < k && queries@[t] == j);
                    }
                }
            }
        }
        k = k + 1;
    }
    let mut out: Vec<usize> = Vec::new();
    let mut j: usize = 0;
    while j < n
        invariant
            j <= n,
            marks@.len() == n,
            forall|x: int| 0 <= x < n ==> (#[trigger] marks@[x] <==> exists|t: int|
                0 <= t < queries@.len() && queries@[t] == x),
            forall|a: int, b: int| 0 <= a < b < out@.len() ==> out@[a] < out@[b],
            forall|t: int| 0 <= t < out@.len() ==> #[trigger] out@[t] < j && marks@[out@[t] as int],
            forall|x: int| 0 <= x < j && marks@[x] ==> #[trigger] out@.contains(x as usize),
        decreases n - j,
    {
        if marks[j] {
            proof {
                assert(out@.push(j)[out@.len() as int] == j);
                assert forall|x: int| 0 <= x < j + 1 && marks@[x] implies #[trigger] out@.push(j).contains(x as usize) by {
                    if x < j {
                        assert(out@.contains(x as usize));
                        let t = choose|t: int| 0 <= t < out@.len() && out@[t] == x as usize;
                        assert(out@.push(j)[t] == x as usize);
                    } else {
                        assert(out@.push(j)[out@.len() as int] == x as usize);
                    }
                }
            }
            out.push(j);
        }
        j = j + 1;
    }
    proof {
        assert forall|t: int| 0 <= t < out@.len() implies queries@.contains(#[trigger] out@[t]) by {
            let x = out@[t] as int;
            assert(marks@[x]);
            let s = choose|s: int| 0 <= s < queries@.len() && queries@[s] == x;
            assert(queries@[s] == out@[t]);
        }
        assert forall|t: int| 0 <= t < queries@.len() implies out@.contains(#[trigger] queries@[t]) by {
            let x = queries@[t] as int;
            assert(marks@[x]);
            assert(out@.contains(x as usize));
        }
    }
    out
}

/// The leaf of the coset commitment at the domain point `y`: the group
/// polynomial with table `g` restricted, in its last `w` variables, to
/// `(y, y^2, y^4, ...)`; it has `2^k` entries.
pub open spec fn coset_leaf_ok(g: Seq<int>, k: nat, w: nat, y: Fr, leaf: Vec<Pt>) -> bool {
    &&& leaf@.len() == exp2(k)
    &&& lvals(leaf@) == seq_mod(restrict_hi(g, pow_vals(y.val(), w), k), q())
}

/// The leaves of the coset commitment to `poly`, with `2^k` entries each,
/// at the domain points of the given positions.
pub fn coset_leaves(poly: &MultilinearPoly<Pt>, k: usize, domain: &Vec<Fr>, idxs: &Vec<usize>) -> (r: Vec<Vec<Pt>>)
    requires
        poly.wf(),
        k <= poly.num_vars,
        forall|t: int| 0 <= t < idxs@.len() ==> #[trigger] idxs@[t] < domain@.len(),
    ensures
        r@.len() == idxs@.len(),
        forall|t: int|
            0 <= t < idxs@.len() ==> coset_leaf_ok(
                poly.table(),
                k as nat,
                (poly.num_vars - k) as nat,
                domain@[idxs@[t] as int],
                #[trigger] r@[t],
            ),
{
    let w = poly.num_vars - k;
    let mut out: Vec<Vec<Pt>> = Vec::new();
    let mut t: usize = 0;
    while t < idxs.len()
        invariant
            t <= idxs@.len(),
            poly.wf(),
            k <= poly.num_vars,
            w == poly.num_vars - k,
            forall|s: int| 0 <= s < idxs@.len() ==> #[trigger] idxs@[s] < domain@.len(),
            out@.len() == t,
            forall|s: int|
                0 <= s < t ==> coset_leaf_ok(poly.table(), k as nat, w as nat, domain@[idxs@[s] as int], #[trigger] out@[s]),
        decreases idxs@.len() - t,
    {
        let y = domain[idxs[t]];
        let pow_y = generate_power_vec(y, w, false);
        let leaf = poly.restrict_msb(pow_y.as_slice());
        proof {
            assert(lvals(pow_y@) =~= pow_vals(y.val(), w as nat));
            assert((poly.num_vars - w) as nat == k as nat);
        }
        out.push(leaf.coeffs);
        t = t + 1;
    }
    out
}

/// The public parameters of the commitment: a polynomial in `m` variables is
/// cut into `2^m1` chunks; the group polynomial of the chunk commitments is
/// folded `l1` times and committed to on the domain `domain_g1`, and
/// `num_queries` of its cosets are opened; `bp_setup` holds the `2^(m - m1)`
/// generators.
#[derive(Clone, Debug)]
pub struct TitanSetup {
    pub m: usize,
    pub m1: usize,
    pub l1: usize,
    pub num_queries: usize,
    pub domain_g1: Vec<Fr>,
    pub bp_setup: BulletProofParams<Pt>,
}

impl TitanSetup {
    /// The shapes that committing and proving need.
    pub open spec fn wf(&self) -> bool {
        &&& self.m1 <= self.m
        &&& self.bp_setup.wf()
        &&& self.bp_setup.m == self.m - self.m1
        &&& exp2(self.m as nat) <= usize::MAX
    }
}

/// The chunk commitments of the table `f` under the generator values `ck`:
/// `G[i] = Σ_j f[i · 2^n2 + j] · ck[j]` for the `2^n1` chunks of `2^n2` values.
pub open spec fn chunk_commitments(f: Seq<int>, ck: Seq<int>, n1: nat, n2: nat) -> Seq<int> {
    Seq::new(exp2(n1), |i: int| dot(ck, f.subrange(i * exp2(n2), (i + 1) * exp2(n2))) % q())
}

/// The commitment scheme: setup, commitment, evaluation proofs and their
/// verification.
pub struct TitanPolyCommitment;

impl TitanPolyCommitment {
    /// The parameters for a configuration: the domain of `2^domain_g1_size`
    /// points for the group polynomial and `2^(m - m1)` random generators
    /// with cosets of `2^l2`.
    pub fn setup(config: &TitanSetupConfig) -> (r: TitanSetup)
        requires
            config.m1 <= config.m,
            config.l2 <= config.m - config.m1,
            config.l2 <= 32,
            config.domain_g1_size <= 32,
            exp2(config.m as nat) <= usize::MAX,
        ensures
            r.wf(),
            r.m == config.m,
            r.m1 == config.m1,
            r.l1 == config.l1,
            r.num_queries == config.num_queries,
            r.bp_setup.l == config.l2,
            r.domain_g1@.len() == exp2(config.domain_g1_size as nat),
            r.domain_g1@[0].val() == 1,
            forall|i: int|
                0 <= i < r.domain_g1@.len() - 1 ==> #[trigger] r.domain_g1@[i + 1].val() == (r.domain_g1@[i].val()
                    * r.domain_g1@[gen_idx(r.domain_g1@.len() as int)].val()) % q(),
    {
        let m2 = config.m - config.m1;
        proof {
            lemma_exp2_monotone(m2 as nat, config.m as nat);
        }
        let domain_g1 = create_smooth_domain(config.domain_g1_size);
        let bp_setup = BulletProofParams::<Pt>::new(m2, config.l2);
        TitanSetup { m: config.m, m1: config.m1, l1: config.l1, num_queries: config.num_queries, domain_g1, bp_setup }
    }

    /// The commitment's group polynomial: the commitments of the `2^m1`
    /// chunks of `2^(m - m1)` values of `poly` under the generators.
    pub fn commit(pp: &TitanSetup, poly: &MultilinearPoly<Fr>) -> (r: MultilinearPoly<Pt>)
        requires
            pp.wf(),
            poly.wf(),
            poly.num_vars == pp.m,
        ensures
            r.wf(),
            r.num_vars == pp.m1,
            r.table() == chunk_commitments(
                poly.table(),
                pp.bp_setup.c_poly.table(),
                pp.m1 as nat,
                (pp.m - pp.m1) as nat,
            ),
    {
        let m1 = pp.m1;
        let m2 = pp.m - m1;
        proof {
            lemma_exp2_adds(m1 as nat, m2 as nat);
            lemma_exp2_pos(m1 as nat);
            lemma_exp2_pos(m2 as nat);
            lemma_exp2_monotone(m1 as nat, pp.m as nat);
            lemma_exp2_monotone(m2 as nat, pp.m as nat);
        }
        let chunk_size = pow2_usize(m2);
        let num_chunks = pow2_usize(m1);
        let ck = Pt::to_affine(pp.bp_setup.c_poly.coeffs.as_slice());
        let ghost f = poly.table();
        let ghost ckv = pp.bp_setup.c_poly.table();
        let mut partials: Vec<Pt> = Vec::new();
        let mut i: usize = 0;
        while i < num_chunks
            invariant
                i <= num_chunks,
                num_chunks == exp2(m1 as nat),
                chunk_size == exp2(m2 as nat),
                num_chunks * chunk_size == poly.coeffs@.len(),
                poly.coeffs@.len() <= usize::MAX,
                f == poly.table(),
                ck@ == pp.bp_setup.c_poly.coeffs@,
                ckv == lvals(ck@),
                ck@.len() == chunk_size,
                partials@.len() == i,
                forall|t: int|
                    0 <= t < i ==> #[trigger] partials@[t].lin_val() == dot(
                        ckv,
                        f.subrange(t * chunk_size, (t + 1) * chunk_size),
                    ) % q(),
            decreases num_chunks - i,
        {
            proof {
                assert((i + 1) * chunk_size <= num_chunks * chunk_size) by (nonlinear_arith)
                    requires
                        i + 1 <= num_chunks,
                ;
                assert((i + 1) * chunk_size == i * chunk_size + chunk_size) by (nonlinear_arith);
            }
            let lo = i * chunk_size;
            let chunk = vstd::slice::slice_subrange(poly.coeffs.as_slice(), lo, lo + chunk_size);
            let c = Pt::inner_product_msm(ck.as_slice(), chunk);
            proof {
                assert(lvals(chunk@) =~= f.subrange(i * chunk_size, (i + 1) * chunk_size));
            }
            partials.push(c);
            i = i + 1;
        }
        let r = MultilinearPoly::new(partials);
        proof {
            crate::sums::lemma_exp2_injective(r.num_vars as nat, m1 as nat);
            assert(r.table() =~= chunk_commitments(f, ckv, m1 as nat, m2 as nat));
        }
        r
    }
}

/// An evaluation proof: the partial evaluation `comm_partial` of the group
/// polynomial at the last variables of the point, the group sum-check for it
/// (without the authentication paths of its leaves) and the inner-product
/// argument for the rest.
pub struct TitanEvalProof {
    pub comm_partial: Pt,
    pub partial_eval_proof: SumCheckGroupProof,
    pub bullet_proof: BulletProof<Pt>,
}

impl TitanEvalProof {
    /// The size of the proof in bytes, given the number of Merkle nodes the
    /// authentication paths of its leaves transmit: 32 bytes for
    /// `comm_partial` and for each element of the two sub-proofs.
    pub fn get_proof_size(&self, merkle_nodes: usize) -> (r: usize)
        requires
            32 + 32 * (merkle_nodes + 3 * self.partial_eval_proof.round_messages@.len() + leaf_total(
                self.partial_eval_proof.leaves@,
            ) + self.partial_eval_proof.g_poly.coeffs@.len()) + 32 * (4 * self.bullet_proof.cm_L@.len()
                + self.bullet_proof.g_folded_poly.coeffs@.len() + self.bullet_proof.a_folded_poly.coeffs@.len())
                <= usize::MAX,
        ensures
            r == 32 + 32 * (merkle_nodes + 3 * self.partial_eval_proof.round_messages@.len() + leaf_total(
                self.partial_eval_proof.leaves@,
            ) + self.partial_eval_proof.g_poly.coeffs@.len()) + 32 * (4 * self.bullet_proof.cm_L@.len()
                + self.bullet_proof.g_folded_poly.coeffs@.len() + self.bullet_proof.a_folded_poly.coeffs@.len()),
    {
        let sg = self.partial_eval_proof.get_proof_size(merkle_nodes);
        let bp = self.bullet_proof.get_proof_size();
        32 + sg * 32 + bp * 32
    }
}

/// The transcript an evaluation proof starts from.
pub open spec fn pcs_log0() -> Seq<TranscriptEntry> {
    seq![TranscriptEntry::Init("sumcheck"@)]
}

/// What the group sum-check part of a proof holds, for the group polynomial
/// with table `g` and the rounds the prover computed.
pub open spec fn pcs_partial_ok(
    pp: TitanSetup,
    g: Seq<int>,
    commitment: Seq<u8>,
    ay: Seq<Fr>,
    comm_partial: Pt,
    sp: SumCheckGroupProof,
    rounds: SumCheckGroupRounds,
    log1: Seq<TranscriptEntry>,
) -> bool {
    let w = (pp.m1 - pp.l1) as nat;
    &&& sg_prove_post(
        pp.m1,
        pp.l1,
        pp.domain_g1@.len() as int,
        commitment,
        ay,
        comm_partial,
        pp.num_queries,
        g,
        pcs_log0(),
        rounds,
        log1,
    )
    &&& sp.round_messages == rounds.round_messages
    &&& sp.g_poly == rounds.g_poly
    &&& forall|a: int, b: int| 0 <= a < b < sp.leaf_indices@.len() ==> sp.leaf_indices@[a] < sp.leaf_indices@[b]
    &&& forall|t: int| 0 <= t < sp.leaf_indices@.len() ==> rounds.queries@.contains(#[trigger] sp.leaf_indices@[t])
    &&& forall|t: int| 0 <= t < rounds.queries@.len() ==> sp.leaf_indices@.contains(#[trigger] rounds.queries@[t])
    &&& sp.leaves@.len() == sp.leaf_indices@.len()
    &&& forall|t: int|
        0 <= t < sp.leaves@.len() ==> coset_leaf_ok(
            g,
            pp.l1 as nat,
            w,
            pp.domain_g1@[sp.leaf_indices@[t] as int],
            #[trigger] sp.leaves@[t],
        )
    &&& sp.evaluations@.len() == sp.leaves@.len()
    &&& forall|t: int|
        0 <= t < sp.evaluations@.len() ==> #[trigger] sp.evaluations@[t].log() == dot(
            lvals(sp.leaves@[t]@),
            seq_mod(eq_table(lvals(rounds.r_vec@)), q()),
        ) % q()
}

/// What `prove` produces for the polynomial with table `f`, the group
/// polynomial with table `g` committed to by the root `commitment`, and the
/// point `alpha = (alpha_x, alpha_y)` with `alpha_x` of `m - m1` values:
/// `comm_partial` is `g(alpha_y)`; the group sum-check for it runs on a
/// transcript labelled "sumcheck", opens each queried coset once, in
/// increasing order, with its evaluation at the round challenges; and the
/// inner-product argument on the same transcript proves that the table of
/// `f` partially evaluated at `alpha_y` has the value `f(alpha)` at
/// `alpha_x`.
pub open spec fn pcs_prove_post(
    pp: TitanSetup,
    f: Seq<int>,
    g: Seq<int>,
    commitment: Seq<u8>,
    alpha: Seq<Fr>,
    proof: TitanEvalProof,
) -> bool {
    let m2 = (pp.m - pp.m1) as nat;
    let ax = alpha.take(m2 as int);
    let ay = alpha.skip(m2 as int);
    let a = seq_mod(restrict_hi(f, lvals(ay), m2), q());
    &&& proof.comm_partial.log() == mle(g, lvals(ay)) % q()
    &&& exists|rounds: SumCheckGroupRounds, log1: Seq<TranscriptEntry>, sigma: Fr, log2: Seq<TranscriptEntry>|
        #![trigger pcs_partial_ok(pp, g, commitment, ay, proof.comm_partial, proof.partial_eval_proof, rounds, log1), bp_prove_post(pp.bp_setup, proof.comm_partial, ax, sigma, a, log1, proof.bullet_proof, log2)]
        {
            &&& pcs_partial_ok(pp, g, commitment, ay, proof.comm_partial, proof.partial_eval_proof, rounds, log1)
            &&& sigma.canonical()
            &&& sigma.val() == mle(a, lvals(ax)) % q()
            &&& bp_prove_post(pp.bp_setup, proof.comm_partial, ax, sigma, a, log1, proof.bullet_proof, log2)
        }
}

/// The values `alpha[lo..hi]`.
fn sub_point(alpha: &Vec<Fr>, lo: usize, hi: usize) -> (r: Vec<Fr>)
    requires
        lo <= hi <= alpha@.len(),
    ensures
        r@ == alpha@.subrange(lo as int, hi as int),
{
    vstd::slice::slice_to_vec(vstd::slice::slice_subrange(alpha.as_slice(), lo, hi))
}

impl TitanPolyCommitment {
    /// The evaluation proof for `poly` at `alpha`, where `committed` is the
    /// commitment's group polynomial and `commitment` the root over its
    /// cosets.
    pub fn prove(
        pp: &TitanSetup,
        poly: &MultilinearPoly<Fr>,
        committed: &MultilinearPoly<Pt>,
        commitment: &Vec<u8>,
        alpha: &Vec<Fr>,
    ) -> (proof: TitanEvalProof)
        requires
            pp.wf(),
            1 <= pp.l1 < pp.m1,
            pp.domain_g1@.len() > 0,
            poly.wf(),
            poly.num_vars == pp.m,
            committed.wf(),
            committed.num_vars == pp.m1,
            commitment@.len() <= u32::MAX,
            alpha@.len() == pp.m,
            gs_alpha_ok(alpha@.skip((pp.m - pp.m1) as int), pp.l1 as nat),
        ensures
            pcs_prove_post(*pp, poly.table(), committed.table(), commitment@, alpha@, proof),
    {
        let m1 = pp.m1;
        let m2 = pp.m - m1;
        let l1 = pp.l1;
        proof {
            lemma_exp2_monotone(m1 as nat, pp.m as nat);
            lemma_exp2_monotone((m1 - l1) as nat, pp.m as nat);
        }
        let alpha_x = sub_point(alpha, 0, m2);
        let alpha_y = sub_point(alpha, m2, pp.m);
        proof {
            assert(alpha_x@ =~= alpha@.take(m2 as int));
            assert(alpha_y@ =~= alpha@.skip(m2 as int));
        }
        let a_poly = poly.fold_msb(alpha_y.as_slice());
        let sigma = a_poly.evaluate(alpha_x.as_slice());
        let sigma_partial = committed.evaluate_msm(alpha_y.as_slice());
        let instance = SumCheckGroupInstance {
            m: m1,
            l: l1,
            domain_g: vstd::slice::slice_to_vec(pp.domain_g1.as_slice()),
            commitment: vstd::slice::slice_to_vec(commitment.as_slice()),
            alpha: alpha_y,
            sigma: sigma_partial,
            num_queries: pp.num_queries,
        };
        let mut transcript = TitanTranscript::new("sumcheck");
        let ghost log0 = transcript@;
        let rounds = ProtoSumCheckGroup::prove_rounds(&instance, committed, &mut transcript);
        let ghost log1 = transcript@;
        let leaf_indices = opened_positions(&rounds.queries, pp.domain_g1.len());
        proof {
            assert forall|t: int| 0 <= t < leaf_indices@.len() implies #[trigger] leaf_indices@[t] < pp.domain_g1@.len() by {
                let s = choose|s: int| 0 <= s < rounds.queries@.len() && rounds.queries@[s] == leaf_indices@[t];
            }
        }
        let leaves = coset_leaves(committed, l1, &pp.domain_g1, &leaf_indices);
        proof {
            assert forall|t: int| 0 <= t < leaves@.len() implies (#[trigger] leaves@[t])@.len() == exp2(rounds.r_vec@.len() as nat) by {
                assert(coset_leaf_ok(committed.table(), l1 as nat, (m1 - l1) as nat, pp.domain_g1@[leaf_indices@[t] as int], leaves@[t]));
            }
            lemma_exp2_monotone(l1 as nat, pp.m as nat);
        }
        let evaluations = opening_evaluations(&leaves, &rounds.r_vec);
        let bp_instance = BulletProofInstance { pp: &pp.bp_setup, commitment: sigma_partial, alpha: alpha_x, sigma };
        let bp_witness = BulletProofWitness { pp: &pp.bp_setup, a_poly };
        let bullet_proof = ProtoBulletProofGroup::prove(&bp_instance, &bp_witness, &mut transcript);
        let ghost log2 = transcript@;
        let partial_eval_proof = SumCheckGroupProof {
            round_messages: rounds.round_messages,
            g_poly: rounds.g_poly,
            leaf_indices,
            leaves,
            evaluations,
        };
        let proof = TitanEvalProof { comm_partial: sigma_partial, partial_eval_proof, bullet_proof };
        proof {
            let ax = alpha@.take(m2 as int);
            let ay = alpha@.skip(m2 as int);
            let a = seq_mod(restrict_hi(poly.table(), lvals(ay), m2 as nat), q());
            assert(log0 == pcs_log0());
            use_type_invariant(&sigma);
            assert(pcs_partial_ok(*pp, committed.table(), commitment@, ay, proof.comm_partial, proof.partial_eval_proof, rounds, log1));
            assert(bp_prove_post(pp.bp_setup, proof.comm_partial, ax, sigma, a, log1, proof.bullet_proof, log2));
        }
        proof
    }
}

/// The parts of an inner-product argument have the lengths the verifier
/// reads: at least `l` round messages of each kind and folded tables of
/// `2^(m - l)` entries.
pub open spec fn bp_shape_ok(bp: BulletProof<Pt>, m: usize, l: usize) -> bool {
    &&& bp.cm_L@.len() >= l
    &&& bp.cm_R@.len() >= l
    &&& bp.lf_L@.len() >= l
    &&& bp.lf_R@.len() >= l
    &&& bp.g_folded_poly.coeffs@.len() == exp2((m - l) as nat)
    &&& bp.a_folded_poly.coeffs@.len() == exp2((m - l) as nat)
}

/// The verdict on an evaluation proof that `sigma` is the value at `alpha`
/// of the polynomial committed to by the root `commitment`, for the verdict
/// `merkle_ok` on the authentication paths of the opened leaves and the
/// batching scalars `r` and `gamma` of the group sum-check and `r_bp` of the
/// inner-product argument: the group sum-check accepts `comm_partial` as
/// the value at `alpha_y`, and the inner-product argument, on the transcript
/// the sum-check left, accepts `sigma` as the value at `alpha_x` of the
/// polynomial committed to by `comm_partial`.
pub open spec fn pcs_verdict(
    pp: TitanSetup,
    commitment: Seq<u8>,
    alpha: Seq<Fr>,
    sigma: Fr,
    proof: TitanEvalProof,
    merkle_ok: bool,
    r: int,
    gamma: int,
    r_bp: int,
) -> bool {
    let m2 = (pp.m - pp.m1) as nat;
    let ax = alpha.take(m2 as int);
    let ay = alpha.skip(m2 as int);
    let sp = proof.partial_eval_proof;
    let init = sg_init_log(pcs_log0(), pp.m1, pp.l1, commitment, ay, proof.comm_partial);
    let log1 = bp_query_log(
        sg_after_log(init, sp.round_messages@, pp.l1 as nat, sp.g_poly.coeffs@),
        pp.num_queries as nat,
    );
    &&& sg_verdict(sp, pp.m1, pp.l1, pp.domain_g1@, pp.num_queries, commitment, ay, proof.comm_partial, pcs_log0(), merkle_ok, r, gamma)
    &&& bp_shape_ok(proof.bullet_proof, pp.bp_setup.m, pp.bp_setup.l)
    &&& bp_verdict(proof.bullet_proof, pp.bp_setup, proof.comm_partial, ax, sigma, log1, r_bp)
}

impl TitanPolyCommitment {
    /// The verifier for given batching scalars: the group sum-check on a
    /// transcript labelled "sumcheck", then the inner-product argument on
    /// the same transcript; `merkle_ok` is the verdict on the authentication
    /// paths of the opened leaves.
    pub fn verify_with_randomness(
        pp: &TitanSetup,
        commitment: &Vec<u8>,
        alpha: &Vec<Fr>,
        sigma: &Fr,
        proof: &TitanEvalProof,
        merkle_ok: bool,
        r: &Fr,
        gamma: &Fr,
        r_bp: &Fr,
    ) -> (ok: bool)
        requires
            pp.wf(),
            pp.l1 <= pp.m1,
            pp.domain_g1@.len() > 0,
            commitment@.len() <= u32::MAX,
            alpha@.len() == pp.m,
            proof.partial_eval_proof.leaves@.len() * exp2(pp.l1 as nat) <= usize::MAX,
            36 * exp2((pp.m - pp.m1) as nat) <= usize::MAX,
        ensures
            ok == pcs_verdict(*pp, commitment@, alpha@, *sigma, *proof, merkle_ok, r.val(), gamma.val(), r_bp.val()),
    {
        let m1 = pp.m1;
        let m2 = pp.m - m1;
        proof {
            lemma_exp2_monotone(m1 as nat, pp.m as nat);
        }
        let alpha_x = sub_point(alpha, 0, m2);
        let alpha_y = sub_point(alpha, m2, pp.m);
        proof {
            assert(alpha_x@ =~= alpha@.take(m2 as int));
            assert(alpha_y@ =~= alpha@.skip(m2 as int));
        }
        let instance = SumCheckGroupInstance {
            m: m1,
            l: pp.l1,
            domain_g: vstd::slice::slice_to_vec(pp.domain_g1.as_slice()),
            commitment: vstd::slice::slice_to_vec(commitment.as_slice()),
            alpha: alpha_y,
            sigma: proof.comm_partial,
            num_queries: pp.num_queries,
        };
        let mut transcript = TitanTranscript::new("sumcheck");
        let sg_ok = ProtoSumCheckGroup::verify_with_randomness(
            &proof.partial_eval_proof,
            &instance,
            &mut transcript,
            merkle_ok,
            r,
            gamma,
        );
        if !sg_ok {
            return false;
        }
        let bp = &proof.bullet_proof;
        let l2 = pp.bp_setup.l;
        proof {
            lemma_exp2_monotone((m2 - l2) as nat, pp.m as nat);
        }
        let n2 = pow2_usize(pp.bp_setup.m - l2);
        let shape_ok = bp.cm_L.len() >= l2 && bp.cm_R.len() >= l2 && bp.lf_L.len() >= l2 && bp.lf_R.len() >= l2
            && bp.g_folded_poly.coeffs.len() == n2 && bp.a_folded_poly.coeffs.len() == n2;
        if !shape_ok {
            return false;
        }
        let bp_instance = BulletProofInstance { pp: &pp.bp_setup, commitment: proof.comm_partial, alpha: alpha_x, sigma: *sigma };
        ProtoBulletProofGroup::verify_with_randomness(bp, &bp_instance, &mut transcript, r_bp)
    }

    /// The verifier: as `verify_with_randomness`, with the batching scalars
    /// drawn at random.
    pub fn verify(
        pp: &TitanSetup,
        commitment: &Vec<u8>,
        alpha: &Vec<Fr>,
        sigma: &Fr,
        proof: &TitanEvalProof,
        merkle_ok: bool,
    ) -> (ok: bool)
        requires
            pp.wf(),
            pp.l1 <= pp.m1,
            pp.domain_g1@.len() > 0,
            commitment@.len() <= u32::MAX,
            alpha@.len() == pp.m,
            proof.partial_eval_proof.leaves@.len() * exp2(pp.l1 as nat) <= usize::MAX,
            36 * exp2((pp.m - pp.m1) as nat) <= usize::MAX,
        ensures
            exists|r: int, gamma: int, r_bp: int|
                0 <= r < q() && 0 <= gamma < q() && 0 <= r_bp < q() && ok == pcs_verdict(
                    *pp,
                    commitment@,
                    alpha@,
                    *sigma,
                    *proof,
                    merkle_ok,
                    r,
                    gamma,
                    r_bp,
                ),
    {
        let r = crate::field::fr_random();
        let gamma = crate::field::fr_random();
        let r_bp = crate::field::fr_random();
        proof {
            r.lemma_val_range();
            gamma.lemma_val_range();
            r_bp.lemma_val_range();
        }
        Self::verify_with_randomness(pp, commitment, alpha, sigma, proof, merkle_ok, &r, &gamma, &r_bp)
    }
}

/// The tables of the polynomials one after another.
pub open spec fn flat_coeffs(polys: Seq<MultilinearPoly<Fr>>) -> Seq<Fr>
    decreases polys.len(),
{
    if polys.len() == 0 {
        Seq::empty()
    } else {
        flat_coeffs(polys.drop_last()) + polys.last().coeffs@
    }
}

/// The aggregate table in `n` variables: the tables of the polynomials one
/// after another, then zeros.
pub open spec fn aggregate_table(polys: Seq<MultilinearPoly<Fr>>, n: nat) -> Seq<int> {
    let flat = flat_coeffs(polys);
    Seq::new(exp2(n), |i: int| if i < flat.len() { flat[i].val() } else { 0 })
}

impl TitanPolyCommitment {
    /// The commitment to a list of polynomials as one: their tables one
    /// after another, padded with zeros to the next power of two, which must
    /// be the size `2^m` of the parameters.
    pub fn aggregate_commit(pp: &TitanSetup, polys: &Vec<MultilinearPoly<Fr>>) -> (r: MultilinearPoly<Pt>)
        requires
            pp.wf(),
            crate::config::is_next_pow2(exp2(pp.m as nat), flat_coeffs(polys@).len()),
        ensures
            r.wf(),
            r.num_vars == pp.m1,
            r.table() == chunk_commitments(
                aggregate_table(polys@, pp.m as nat),
                pp.bp_setup.c_poly.table(),
                pp.m1 as nat,
                (pp.m - pp.m1) as nat,
            ),
    {
        let n = pow2_usize(pp.m);
        let mut coeffs: Vec<Fr> = Vec::new();
        let mut p: usize = 0;
        while p < polys.len()
            invariant
                p <= polys@.len(),
                coeffs@ == flat_coeffs(polys@.take(p as int)),
                flat_coeffs(polys@).len() <= n,
                n == exp2(pp.m as nat),
            decreases polys@.len() - p,
        {
            proof {
                assert(polys@.take(p + 1).drop_last() =~= polys@.take(p as int));
                lemma_flat_prefix(polys@, p + 1);
            }
            let src = &polys[p].coeffs;
            let ghost before = coeffs@;
            let mut j: usize = 0;
            while j < src.len()
                invariant
                    j <= src@.len(),
                    coeffs@ == before + src@.take(j as int),
                    before.len() + src@.len() <= n,
                decreases src@.len() - j,
            {
                coeffs.push(src[j]);
                proof {
                    assert(src@.take(j + 1) =~= src@.take(j as int).push(src@[j as int]));
                }
                j = j + 1;
            }
            proof {
                assert(src@.take(j as int) =~= src@);
                assert(flat_coeffs(polys@.take(p + 1)) == flat_coeffs(polys@.take(p as int)) + polys@[p as int].coeffs@);
            }
            p = p + 1;
        }
        proof {
            assert(polys@.take(p as int) =~= polys@);
        }
        let ghost flat = coeffs@;
        let zero = crate::field::fr_zero();
        while coeffs.len() < n
            invariant
                flat.len() <= coeffs@.len() <= n,
                coeffs@.take(flat.len() as int) == flat,
                forall|i: int| flat.len() <= i < coeffs@.len() ==> (#[trigger] coeffs@[i]).val() == 0,
                zero.val() == 0,
            decreases n - coeffs@.len(),
        {
            coeffs.push(zero);
            proof {
                assert(coeffs@.take(flat.len() as int) =~= flat);
            }
        }
        let agg = MultilinearPoly::new(coeffs);
        proof {
            crate::sums::lemma_exp2_injective(agg.num_vars as nat, pp.m as nat);
            assert forall|i: int| 0 <= i < flat.len() implies #[trigger] coeffs@[i] == flat[i] by {
                assert(coeffs@.take(flat.len() as int)[i] == coeffs@[i]);
            }
            assert(agg.table() =~= aggregate_table(polys@, pp.m as nat));
        }
        Self::commit(pp, &agg)
    }
}

/// A prefix of the list has no more entries than the whole list.
proof fn lemma_flat_prefix(polys: Seq<MultilinearPoly<Fr>>, k: int)
    requires
        0 <= k <= polys.len(),
    ensures
        flat_coeffs(polys.take(k)).len() <= flat_coeffs(polys).len(),
    decreases polys.len(),
{
    if polys.len() > 0 {
        if k == polys.len() {
            assert(polys.take(k) =~= polys);
        } else {
            lemma_flat_prefix(polys.drop_last(), k);
            assert(polys.drop_last().take(k) =~= polys.take(k));
        }
    }
}

/// An aggregate evaluation proof: the values of the aggregated polynomials
/// at the point, the sum-check that reduces their `gamma`-combination to one
/// value of the aggregate polynomial, that value, and its evaluation proof.
pub struct AggregateEvalProof {
    pub evaluations: Vec<Fr>,
    pub sumcheck_proof: SumCheckProof,
    pub p_at_r: Fr,
    pub eval_proof: TitanEvalProof,
}

/// The transcript of an aggregate proof once the values are in.
pub open spec fn agg_init_log(evals: Seq<Fr>) -> Seq<TranscriptEntry> {
    ser_msgs(seq![TranscriptEntry::Init("aggregate_sumcheck"@)], "eval"@, evals)
}

/// The combining scalar `gamma` drawn after the values.
pub open spec fn agg_gamma(evals: Seq<Fr>) -> int {
    challenge_scalar(merlin_challenge(agg_init_log(evals), "gamma"@, 64))
}

/// The transcript once `gamma` is drawn.
pub open spec fn agg_log(evals: Seq<Fr>) -> Seq<TranscriptEntry> {
    agg_init_log(evals).push(TranscriptEntry::Challenge("gamma"@, 64))
}

/// The selector table over `s` variables: `gamma^j` at the first `k`
/// positions, zero after them.
pub open spec fn agg_h(gamma: int, k: nat, s: nat) -> Seq<int> {
    Seq::new(exp2(s), |j: int| if j < k { pow(gamma, j as nat) % q() } else { 0 })
}

/// The table of `q(x, y) = eq(x, point) · h(y)`, with `x` in the low
/// variables.
pub open spec fn agg_q(x: Seq<int>, h: Seq<int>) -> Seq<int> {
    Seq::new(
        h.len() * exp2(x.len()),
        |b: int| (seq_mod(eq_table(x), q())[b % exp2(x.len()) as int] * h[b / exp2(x.len()) as int]) % q(),
    )
}

/// The tables the aggregate sum-check runs on: the aggregate polynomial and
/// `q`.
pub open spec fn agg_tables(f: Seq<int>, point: Seq<Fr>, max_idx: nat, n: nat, evals: Seq<Fr>) -> Seq<Seq<int>> {
    seq![f, agg_q(lvals(point), agg_h(agg_gamma(evals), max_idx, (n - point.len()) as nat))]
}

/// The challenges of the aggregate sum-check with the given rounds.
pub open spec fn agg_challenges(
    f: Seq<int>,
    point: Seq<Fr>,
    max_idx: nat,
    n: nat,
    evals: Seq<Fr>,
    rounds: Seq<Seq<int>>,
) -> Seq<int> {
    let tabs = agg_tables(f, point, max_idx, n, evals);
    let claimed = cube_sum(ProductCombine, tabs, exp2(n)) % q();
    Seq::new(n, |j: int| sc_challenge(agg_log(evals), claimed, rounds, j as nat))
}

/// The values and the sum-check of an honest aggregate proof for the
/// aggregate table `f` in `n` variables: the values are the first `max_idx`
/// entries of `f` restricted to `point` in its low variables, and the rounds
/// are those of the sum-check of `f · q` on the transcript labelled
/// "aggregate_sumcheck" after the values and `gamma`.
pub open spec fn agg_sumcheck_ok(
    f: Seq<int>,
    point: Seq<Fr>,
    max_idx: nat,
    n: nat,
    evals: Seq<Fr>,
    sc: SumCheckProof,
) -> bool {
    let tabs = agg_tables(f, point, max_idx, n, evals);
    let rounds = sc.rounds();
    let chs = agg_challenges(f, point, max_idx, n, evals, rounds);
    &&& evals.len() == max_idx
    &&& forall|i: int|
        0 <= i < max_idx ==> #[trigger] evals[i].val() == seq_mod(
            restrict_lo(f, lvals(point), (n - point.len()) as nat),
            q(),
        )[i]
    &&& rounds.len() == n
    &&& forall|j: int| 0 <= j < n ==> #[trigger] rounds[j].len() == 3
    &&& forall|j: int, t: int|
        0 <= j < n && 0 <= t <= 2 ==> #[trigger] rounds[j][t] == cube_sum(
            ProductCombine,
            line_tables(round_tables(tabs, chs.take(j)), t),
            exp2((n - j - 1) as nat),
        ) % q()
}

/// The challenge point of the aggregate sum-check as field elements.
pub open spec fn agg_point(f: Seq<int>, point: Seq<Fr>, max_idx: nat, n: nat, evals: Seq<Fr>, sc: SumCheckProof) -> Seq<Fr> {
    let chs = agg_challenges(f, point, max_idx, n, evals, sc.rounds());
    Seq::new(n, |j: int| fr_of_val(chs[j]))
}

/// The challenge point of an aggregate sum-check is one `prove` can open at.
pub open spec fn pcs_point_ok(pp: TitanSetup, alpha: Seq<Fr>) -> bool {
    gs_alpha_ok(alpha.skip((pp.m - pp.m1) as int), pp.l1 as nat)
}

impl TitanPolyCommitment {
    /// The aggregate evaluation proof: the values at `point` of the first
    /// `max_idx` polynomials aggregated in `poly` (the polynomial with `point`
    /// fixed in its low variables, at the indices of the selector
    /// variables), a sum-check of `poly · q` for `q(x, y) = eq(x, point) ·
    /// Σ_i gamma^i eq(y, i)`, and the evaluation proof of `poly` at the
    /// sum-check's challenge point. There is none where that point is one
    /// `prove` cannot open at.
    pub fn aggregate_prove(
        pp: &TitanSetup,
        poly: &MultilinearPoly<Fr>,
        committed: &MultilinearPoly<Pt>,
        commitment: &Vec<u8>,
        point: &Vec<Fr>,
        max_idx: usize,
    ) -> (r: Option<AggregateEvalProof>)
        requires
            pp.wf(),
            1 <= pp.l1 < pp.m1,
            pp.domain_g1@.len() > 0,
            poly.wf(),
            poly.num_vars == pp.m,
            committed.wf(),
            committed.num_vars == pp.m1,
            commitment@.len() <= u32::MAX,
            point@.len() <= pp.m,
            max_idx <= exp2((pp.m - point@.len()) as nat),
        ensures
            r matches Some(proof) ==> {
                let chs = agg_challenges(
                    poly.table(),
                    point@,
                    max_idx as nat,
                    pp.m as nat,
                    proof.evaluations@,
                    proof.sumcheck_proof.rounds(),
                );
                let pt = agg_point(poly.table(), point@, max_idx as nat, pp.m as nat, proof.evaluations@, proof.sumcheck_proof);
                &&& agg_sumcheck_ok(poly.table(), point@, max_idx as nat, pp.m as nat, proof.evaluations@, proof.sumcheck_proof)
                &&& pcs_point_ok(*pp, pt)
                &&& proof.p_at_r.val() == mle(poly.table(), chs) % q()
                &&& pcs_prove_post(*pp, poly.table(), committed.table(), commitment@, pt, proof.eval_proof)
            },
            r is None ==> exists|evals: Seq<Fr>, sc: SumCheckProof|
                #[trigger] agg_sumcheck_ok(poly.table(), point@, max_idx as nat, pp.m as nat, evals, sc) && !pcs_point_ok(
                    *pp,
                    agg_point(poly.table(), point@, max_idx as nat, pp.m as nat, evals, sc),
                ),
    {
        let n = poly.num_vars;
        let m = point.len();
        let s = n - m;
        let ghost f = poly.table();
        let ghost x = lvals(point@);
        proof {
            lemma_exp2_adds(m as nat, s as nat);
            lemma_exp2_pos(m as nat);
            lemma_exp2_pos(s as nat);
            lemma_exp2_monotone(m as nat, n as nat);
            lemma_exp2_monotone(s as nat, n as nat);
        }
        // the values at the indices of the selector variables
        let table: Vec<Fr> = if m < n {
            poly.restrict(point.as_slice()).coeffs
        } else {
            let v = poly.evaluate(point.as_slice());
            let mut t: Vec<Fr> = Vec::new();
            t.push(v);
            proof {
                assert(exp2(0) == 1);
                assert(seq_mod(restrict_lo(f, x, 0), q())[0] == mle(f, x) % q()) by {
                    assert(Seq::new(exp2(x.len()), |j: int| f[0 * exp2(x.len()) + j] * crate::mle::eq_at(x, j))
                        =~= Seq::new(exp2(x.len()), |b: int| f[b] * crate::mle::eq_at(x, b)));
                }
                assert(lvals(t@) =~= seq_mod(restrict_lo(f, x, s as nat), q()));
            }
            t
        };
        let evaluations = sub_point(&table, 0, max_idx);
        let mut transcript = TitanTranscript::new("aggregate_sumcheck");
        let mut k: usize = 0;
        proof {
            assert(ser_msgs(seq![TranscriptEntry::Init("aggregate_sumcheck"@)], "eval"@, evaluations@.take(0))
                =~= seq![TranscriptEntry::Init("aggregate_sumcheck"@)]);
        }
        while k < evaluations.len()
            invariant
                k <= evaluations@.len(),
                transcript@ == ser_msgs(seq![TranscriptEntry::Init("aggregate_sumcheck"@)], "eval"@, evaluations@.take(k as int)),
            decreases evaluations@.len() - k,
        {
            append_to_transcript(&mut transcript, "eval", &evaluations[k]);
            proof {
                assert(ser_msgs(seq![TranscriptEntry::Init("aggregate_sumcheck"@)], "eval"@, evaluations@.take(k + 1))
                    =~= ser_msgs(seq![TranscriptEntry::Init("aggregate_sumcheck"@)], "eval"@, evaluations@.take(k as int)).push(
                    TranscriptEntry::Message("eval"@, evaluations@[k as int].ser()),
                ));
            }
            k = k + 1;
        }
        proof {
            assert(evaluations@.take(k as int) =~= evaluations@);
        }
        let gamma = get_challenge(&mut transcript, "gamma");
        let ghost ev = evaluations@;
        // h(y) = gamma^y at the first max_idx positions
        let h_size = pow2_usize(s);
        let zero = fr_zero();
        let mut h: Vec<Fr> = Vec::new();
        let mut gp = fr_one();
        let mut j: usize = 0;
        proof {
            vstd::arithmetic::power::lemma_pow0(gamma.val());
            vstd::arithmetic::div_mod::lemma_small_mod(1, q() as nat);
        }
        while j < h_size
            invariant
                j <= h_size,
                h_size == exp2(s as nat),
                max_idx <= h_size,
                zero.val() == 0,
                gp.val() == pow(gamma.val(), j as nat) % q(),
                h@.len() == j,
                forall|t: int| 0 <= t < j ==> (#[trigger] h@[t]).val() == agg_h(gamma.val(), max_idx as nat, s as nat)[t],
            decreases h_size - j,
        {
            if j < max_idx {
                h.push(gp);
            } else {
                h.push(zero);
            }
            proof {
                vstd::arithmetic::power::lemma_pow_adds(gamma.val(), j as nat, 1);
                vstd::arithmetic::power::lemma_pow1(gamma.val());
                lemma_mul_mod_noop_left(pow(gamma.val(), j as nat), gamma.val(), q());
                gamma.lemma_val_range();
            }
            gp = fr_mul(&gp, &gamma);
            j = j + 1;
        }
        // q(x, y) = eq(x, point) · h(y)
        let eq_point = MultilinearPoly::<Fr>::init_with_eq(point.as_slice());
        let m_size = pow2_usize(m);
        proof {
            assert(h_size * m_size == m_size * h_size) by (nonlinear_arith);
        }
        let mut q_coeffs: Vec<Fr> = Vec::new();
        let mut jj: usize = 0;
        let ghost qt = agg_q(x, agg_h(gamma.val(), max_idx as nat, s as nat));
        while jj < h_size
            invariant
                jj <= h_size,
                h_size == exp2(s as nat),
                m_size == exp2(m as nat),
                h_size * m_size == exp2(n as nat),
                m_size >= 1,
                exp2(n as nat) <= usize::MAX,
                h@.len() == h_size,
                forall|t: int| 0 <= t < h_size ==> (#[trigger] h@[t]).val() == agg_h(gamma.val(), max_idx as nat, s as nat)[t],
                eq_point.wf(),
                eq_point.num_vars == m,
                eq_point.table() == seq_mod(eq_table(x), q()),
                x.len() == m,
                qt == agg_q(x, agg_h(gamma.val(), max_idx as nat, s as nat)),
                q_coeffs@.len() == jj * m_size,
                forall|b: int| 0 <= b < jj * m_size ==> (#[trigger] q_coeffs@[b]).val() == qt[b],
            decreases h_size - jj,
        {
            let mut i: usize = 0;
            proof {
                assert(jj * m_size + m_size <= h_size * m_size) by (nonlinear_arith)
                    requires
                        jj < h_size,
                ;
            }
            while i < m_size
                invariant
                    i <= m_size,
                    jj < h_size,
                    h_size == exp2(s as nat),
                    m_size == exp2(m as nat),
                    m_size >= 1,
                    jj * m_size + m_size <= h_size * m_size,
                    h@.len() == h_size,
                    forall|t: int| 0 <= t < h_size ==> (#[trigger] h@[t]).val() == agg_h(gamma.val(), max_idx as nat, s as nat)[t],
                    eq_point.wf(),
                    eq_point.num_vars == m,
                    eq_point.table() == seq_mod(eq_table(x), q()),
                    x.len() == m,
                    qt == agg_q(x, agg_h(gamma.val(), max_idx as nat, s as nat)),
                    q_coeffs@.len() == jj * m_size + i,
                    forall|b: int| 0 <= b < jj * m_size + i ==> (#[trigger] q_coeffs@[b]).val() == qt[b],
                decreases m_size - i,
            {
                let v = fr_mul(&eq_point.coeffs[i], &h[jj]);
                proof {
                    let b: int = jj * m_size + i;
                    let ms: int = m_size as int;
                    assert(b / ms == jj && b % ms == i) by (nonlinear_arith)
                        requires
                            b == jj * ms + i,
                            0 <= i < ms,
                            0 <= jj,
                    ;
                    assert(b < h_size * m_size);
                    assert(eq_point.table()[i as int] == eq_point.coeffs@[i as int].val());
                }
                q_coeffs.push(v);
                i = i + 1;
            }
            proof {
                assert((jj + 1) * m_size == jj * m_size + m_size) by (nonlinear_arith);
            }
            jj = jj + 1;
        }
        let q_poly = MultilinearPoly::new(q_coeffs);
        let p_copy = MultilinearPoly { coeffs: vstd::slice::slice_to_vec(poly.coeffs.as_slice()), num_vars: n };
        proof {
            crate::sums::lemma_exp2_injective(q_poly.num_vars as nat, n as nat);
            assert(q_poly.table() =~= qt);
            assert(p_copy.table() =~= f);
        }
        let mut polys: Vec<MultilinearPoly<Fr>> = Vec::new();
        polys.push(p_copy);
        polys.push(q_poly);
        let ghost log1 = transcript@;
        proof {
            assert(tables_of(polys@) =~= agg_tables(f, point@, max_idx as nat, n as nat, ev));
            assert(log1 == agg_log(ev));
        }
        let (sumcheck_proof, chs) = crate::field_sumcheck::prove(polys, &ProductCombine, 2, &mut transcript);
        let ghost pt = agg_point(f, point@, max_idx as nat, n as nat, ev, sumcheck_proof);
        proof {
            assert forall|j: int| 0 <= j < n implies #[trigger] chs@[j] == pt[j] by {
                lemma_fr_of_val(chs@[j]);
                assert(lvals(chs@)[j] == chs@[j].val());
            }
            assert(chs@ =~= pt);
            let tabs = agg_tables(f, point@, max_idx as nat, n as nat, ev);
            let rounds = sumcheck_proof.rounds();
            let chv = agg_challenges(f, point@, max_idx as nat, n as nat, ev, rounds);
            assert(ev.len() == max_idx);
            assert(forall|i: int|
                0 <= i < max_idx ==> #[trigger] ev[i].val() == seq_mod(restrict_lo(f, x, (n - m) as nat), q())[i]);
            assert(rounds.len() == n);
            assert(lvals(chs@) =~= chv);
            assert(forall|j: int| 0 <= j < n ==> #[trigger] rounds[j].len() == 3);
            assert(agg_sumcheck_ok(f, point@, max_idx as nat, n as nat, ev, sumcheck_proof));
        }
        let m2 = pp.m - pp.m1;
        proof {
            lemma_exp2_monotone(pp.l1 as nat, pp.m as nat);
        }
        if !check_alpha(vstd::slice::slice_subrange(chs.as_slice(), m2, n), pp.l1) {
            proof {
                assert(chs@.subrange(m2 as int, n as int) =~= pt.skip(m2 as int));
            }
            return None;
        }
        proof {
            assert(chs@.subrange(m2 as int, n as int) =~= chs@.skip(m2 as int));
        }
        let p_at_r = poly.evaluate(chs.as_slice());
        let eval_proof = Self::prove(pp, poly, committed, commitment, &chs);
        Some(AggregateEvalProof { evaluations, sumcheck_proof, p_at_r, eval_proof })
    }
}

/// `Σ_i gamma^i · v_i` over the values `v`.
pub open spec fn gamma_sum(v: Seq<int>, gamma: int) -> int {
    ssum(Seq::new(v.len(), |i: int| pow(gamma, i as nat) * v[i]))
}

/// One step of a running sum `Σ_i gamma^i · v_i` modulo `q`, with the power
/// held modulo `q`.
proof fn lemma_gamma_step(t: Seq<int>, i: int, acc: int, gp: int, gamma: int, v: int)
    requires
        0 <= i < t.len(),
        t[i] == pow(gamma, i as nat) * v,
        acc == ssum(t.take(i)) % q(),
        gp == pow(gamma, i as nat) % q(),
    ensures
        (acc + (gp * v) % q()) % q() == ssum(t.take(i + 1)) % q(),
        (gp * gamma) % q() == pow(gamma, (i + 1) as nat) % q(),
{
    lemma_ssum_push(t, i);
    lemma_mul_mod_noop_left(pow(gamma, i as nat), v, q());
    vstd::arithmetic::div_mod::lemma_add_mod_noop(ssum(t.take(i)), t[i], q());
    vstd::arithmetic::div_mod::lemma_add_mod_noop(ssum(t.take(i)) % q(), (gp * v) % q(), q());
    vstd::arithmetic::div_mod::lemma_mod_twice(ssum(t.take(i)), q());
    vstd::arithmetic::div_mod::lemma_mod_twice(gp * v, q());
    vstd::arithmetic::power::lemma_pow_adds(gamma, i as nat, 1);
    vstd::arithmetic::power::lemma_pow1(gamma);
    lemma_mul_mod_noop_left(pow(gamma, i as nat), gamma, q());
}

/// `Σ_i gamma^i · vals[i]`.
pub fn gamma_combination<C: Linear>(vals: &[C], gamma: &Fr) -> (r: C)
    ensures
        r.lin_val() == gamma_sum(lvals(vals@), gamma.val()) % q(),
{
    let ghost t = Seq::new(vals@.len(), |i: int| pow(gamma.val(), i as nat) * vals@[i].lin_val());
    let mut acc = C::zero();
    let mut gp = fr_one();
    let mut i: usize = 0;
    proof {
        vstd::arithmetic::power::lemma_pow0(gamma.val());
        vstd::arithmetic::div_mod::lemma_small_mod(1, q() as nat);
        vstd::arithmetic::div_mod::lemma_small_mod(0, q() as nat);
        assert(t.take(0).len() == 0);
    }
    while i < vals.len()
        invariant
            i <= vals@.len(),
            t == Seq::new(vals@.len(), |i: int| pow(gamma.val(), i as nat) * vals@[i].lin_val()),
            acc.lin_val() == ssum(t.take(i as int)) % q(),
            gp.val() == pow(gamma.val(), i as nat) % q(),
        decreases vals@.len() - i,
    {
        proof {
            lemma_gamma_step(t, i as int, acc.lin_val(), gp.val(), gamma.val(), vals@[i as int].lin_val());
            assert(vals@[i as int].lin_val() * gp.val() == gp.val() * vals@[i as int].lin_val()) by (nonlinear_arith);
        }
        let term = vals[i].lin_scale(&gp);
        acc = acc.lin_add(&term);
        gp = fr_mul(&gp, gamma);
        i = i + 1;
    }
    proof {
        assert(t.take(i as int) =~= t);
        assert(t =~= Seq::new(lvals(vals@).len(), |i: int| pow(gamma.val(), i as nat) * lvals(vals@)[i]));
    }
    acc
}

/// `Σ_{i < k} gamma^i · eq(y, i)` for the boolean points `i`.
pub open spec fn gamma_eq_sum(gamma: int, k: nat, y: Seq<int>) -> int {
    gamma_sum(Seq::new(k, |i: int| eq_at(y, i)), gamma)
}

/// `Σ_{i < k} gamma^i · eq(y, i)` in the field.
fn gamma_eq_combination(gamma: &Fr, k: usize, y: &[Fr]) -> (r: Fr)
    ensures
        r.val() == gamma_eq_sum(gamma.val(), k as nat, lvals(y@)) % q(),
{
    let ghost e = Seq::new(k as nat, |i: int| eq_at(lvals(y@), i));
    let ghost t = Seq::new(k as nat, |i: int| pow(gamma.val(), i as nat) * e[i]);
    let mut acc = fr_zero();
    let mut gp = fr_one();
    let mut i: usize = 0;
    proof {
        vstd::arithmetic::power::lemma_pow0(gamma.val());
        vstd::arithmetic::div_mod::lemma_small_mod(1, q() as nat);
        vstd::arithmetic::div_mod::lemma_small_mod(0, q() as nat);
        assert(t.take(0).len() == 0);
    }
    while i < k
        invariant
            i <= k,
            e == Seq::new(k as nat, |i: int| eq_at(lvals(y@), i)),
            t == Seq::new(k as nat, |i: int| pow(gamma.val(), i as nat) * e[i]),
            acc.val() == ssum(t.take(i as int)) % q(),
            gp.val() == pow(gamma.val(), i as nat) % q(),
        decreases k - i,
    {
        let ev = crate::utils::eq_from_index(y, i);
        proof {
            lemma_gamma_step(t, i as int, acc.val(), gp.val(), gamma.val(), e[i as int]);
            lemma_mul_mod_noop_right(gp.val(), e[i as int], q());
        }
        let term = fr_mul(&gp, &ev);
        acc = fr_add(&acc, &term);
        gp = fr_mul(&gp, gamma);
        i = i + 1;
    }
    proof {
        assert(t.take(i as int) =~= t);
    }
    acc
}

/// `eq(x, y) = Π_j (x_j y_j + (1 - x_j)(1 - y_j))` in the field.
pub(crate) fn eq_product(x: &[Fr], y: &[Fr]) -> (r: Fr)
    requires
        x@.len() == y@.len(),
    ensures
        r.val() == eq_poly(lvals(x@), lvals(y@)) % q(),
{
    let ghost a = lvals(x@);
    let ghost b = lvals(y@);
    let n = x.len();
    let mut acc = fr_one();
    let mut k: usize = n;
    proof {
        assert(a.skip(n as int) =~= Seq::<int>::empty());
        vstd::arithmetic::div_mod::lemma_small_mod(1, q() as nat);
    }
    while k > 0
        invariant
            k <= n,
            n == x@.len(),
            n == y@.len(),
            a == lvals(x@),
            b == lvals(y@),
            acc.val() == eq_poly(a.skip(k as int), b.skip(k as int)) % q(),
        decreases k,
    {
        let j = k - 1;
        let xy = fr_mul(&x[j], &y[j]);
        let ox = fr_one_minus(&x[j]);
        let oy = fr_one_minus(&y[j]);
        let oxy = fr_mul(&ox, &oy);
        let fct = fr_add(&xy, &oxy);
        let ghost xj = a[j as int];
        let ghost yj = b[j as int];
        let ghost rest = eq_poly(a.skip(k as int), b.skip(k as int));
        proof {
            assert(a.skip(j as int).drop_first() =~= a.skip(k as int));
            assert(b.skip(j as int).drop_first() =~= b.skip(k as int));
            assert(eq_poly(a.skip(j as int), b.skip(j as int)) == (xj * yj + (1 - xj) * (1 - yj)) * rest);
            lemma_mul_mod_noop_left(1 - xj, (1 - yj) % q(), q());
            lemma_mul_mod_noop_right(1 - xj, 1 - yj, q());
            vstd::arithmetic::div_mod::lemma_add_mod_noop(xj * yj, (1 - xj) * (1 - yj), q());
            lemma_mul_mod_noop_left(xj * yj + (1 - xj) * (1 - yj), rest, q());
            lemma_mul_mod_noop_right((xj * yj + (1 - xj) * (1 - yj)) % q(), rest, q());
            lemma_mul_mod_noop_right(xj * yj + (1 - xj) * (1 - yj), rest, q());
        }
        acc = fr_mul(&fct, &acc);
        k = j;
    }
    proof {
        assert(a.skip(0) =~= a);
        assert(b.skip(0) =~= b);
    }
    acc
}

/// The verdict on an aggregate proof that the first `max_idx` polynomials
/// aggregated in the polynomial committed to by `commitment`, in `n`
/// variables, have the values `proof.evaluations` at `point`, for the
/// verdict `merkle_ok` on the authentication paths and the batching scalars
/// of the final evaluation proof: the sum-check of the `gamma`-combination
/// `v` of the values passes and leaves the claim `p(r) · q(r)`, where
/// `q(r) = eq(r_x, point) · Σ_{i < max_idx} gamma^i eq(r_y, i)`, and the
/// evaluation proof shows `p(r) = p_at_r`.
pub open spec fn agg_verdict(
    pp: TitanSetup,
    commitment: Seq<u8>,
    point: Seq<Fr>,
    n: nat,
    max_idx: nat,
    proof: AggregateEvalProof,
    merkle_ok: bool,
    r: int,
    gamma: int,
    r_bp: int,
) -> bool {
    let ev = proof.evaluations@;
    let g = agg_gamma(ev);
    let v = gamma_sum(lvals(ev), g) % q();
    let rounds = proof.sumcheck_proof.rounds();
    let log1 = agg_log(ev);
    let m = point.len() as int;
    let chs = Seq::new(n, |j: int| sc_challenge(log1, v, rounds, j as nat));
    let q_at_r = ((eq_poly(chs.take(m), lvals(point)) % q()) * (gamma_eq_sum(g, max_idx, chs.skip(m)) % q())) % q();
    &&& rounds.len() == n
    &&& forall|j: int| 0 <= j < n ==> !#[trigger] sc_round_fails(log1, v, rounds, 2, j)
    &&& (proof.p_at_r.val() * q_at_r) % q() == sc_prev_claim(log1, v, rounds, n)
    &&& pcs_verdict(
        pp,
        commitment,
        Seq::new(n, |j: int| fr_of_val(chs[j])),
        proof.p_at_r,
        proof.eval_proof,
        merkle_ok,
        r,
        gamma,
        r_bp,
    )
}

impl TitanPolyCommitment {
    /// The verifier of an aggregate proof for given batching scalars of the
    /// final evaluation proof.
    pub fn aggregate_verify_with_randomness(
        pp: &TitanSetup,
        commitment: &Vec<u8>,
        point: &Vec<Fr>,
        num_vars: usize,
        max_idx: usize,
        proof: &AggregateEvalProof,
        merkle_ok: bool,
        r: &Fr,
        gamma: &Fr,
        r_bp: &Fr,
    ) -> (ok: bool)
        requires
            pp.wf(),
            pp.l1 <= pp.m1,
            pp.domain_g1@.len() > 0,
            commitment@.len() <= u32::MAX,
            num_vars == pp.m,
            point@.len() <= num_vars,
            proof.eval_proof.partial_eval_proof.leaves@.len() * exp2(pp.l1 as nat) <= usize::MAX,
            36 * exp2((pp.m - pp.m1) as nat) <= usize::MAX,
        ensures
            ok == agg_verdict(
                *pp,
                commitment@,
                point@,
                num_vars as nat,
                max_idx as nat,
                *proof,
                merkle_ok,
                r.val(),
                gamma.val(),
                r_bp.val(),
            ),
    {
        let m = point.len();
        let mut transcript = TitanTranscript::new("aggregate_sumcheck");
        let evs = &proof.evaluations;
        let mut k: usize = 0;
        proof {
            assert(ser_msgs(seq![TranscriptEntry::Init("aggregate_sumcheck"@)], "eval"@, evs@.take(0))
                =~= seq![TranscriptEntry::Init("aggregate_sumcheck"@)]);
        }
        while k < evs.len()
            invariant
                k <= evs@.len(),
                transcript@ == ser_msgs(seq![TranscriptEntry::Init("aggregate_sumcheck"@)], "eval"@, evs@.take(k as int)),
            decreases evs@.len() - k,
        {
            append_to_transcript(&mut transcript, "eval", &evs[k]);
            proof {
                assert(ser_msgs(seq![TranscriptEntry::Init("aggregate_sumcheck"@)], "eval"@, evs@.take(k + 1))
                    =~= ser_msgs(seq![TranscriptEntry::Init("aggregate_sumcheck"@)], "eval"@, evs@.take(k as int)).push(
                    TranscriptEntry::Message("eval"@, evs@[k as int].ser()),
                ));
            }
            k = k + 1;
        }
        proof {
            assert(evs@.take(k as int) =~= evs@);
        }
        let g = get_challenge(&mut transcript, "gamma");
        let v_agg = gamma_combination(evs.as_slice(), &g);
        proof {
            crate::field_sumcheck::lemma_lagrange_invertible(3);
        }
        let subclaim = crate::field_sumcheck::verify(&proof.sumcheck_proof, v_agg, num_vars, 2, &mut transcript);
        let sc = match subclaim {
            Ok(sc) => sc,
            Err(_) => {
                return false;
            },
        };
        let ghost chs = lvals(sc.point@);
        let r_x = vstd::slice::slice_subrange(sc.point.as_slice(), 0, m);
        let r_y = vstd::slice::slice_subrange(sc.point.as_slice(), m, num_vars);
        let eq_rx_point = eq_product(r_x, point.as_slice());
        let h_at_ry = gamma_eq_combination(&g, max_idx, r_y);
        let q_at_r = fr_mul(&eq_rx_point, &h_at_ry);
        let lhs = fr_mul(&proof.p_at_r, &q_at_r);
        proof {
            assert(lvals(r_x@) =~= chs.take(m as int));
            assert(lvals(r_y@) =~= chs.skip(m as int));
            assert forall|j: int| 0 <= j < num_vars implies #[trigger] sc.point@[j] == fr_of_val(chs[j]) by {
                lemma_fr_of_val(sc.point@[j]);
            }
            assert(sc.point@ =~= Seq::new(num_vars as nat, |j: int| fr_of_val(chs[j])));
            sc.expected_evaluation.lemma_val_range();
            vstd::arithmetic::div_mod::lemma_small_mod(sc.expected_evaluation.val() as nat, q() as nat);
        }
        if !crate::field::fr_eq(&lhs, &sc.expected_evaluation) {
            return false;
        }
        Self::verify_with_randomness(pp, commitment, &sc.point, &proof.p_at_r, &proof.eval_proof, merkle_ok, r, gamma, r_bp)
    }

    /// The verifier of an aggregate proof: as
    /// `aggregate_verify_with_randomness`, with the batching scalars drawn at
    /// random.
    pub fn aggregate_verify(
        pp: &TitanSetup,
        commitment: &Vec<u8>,
        point: &Vec<Fr>,
        num_vars: usize,
        max_idx: usize,
        proof: &AggregateEvalProof,
        merkle_ok: bool,
    ) -> (ok: bool)
        requires
            pp.wf(),
            pp.l1 <= pp.m1,
            pp.domain_g1@.len() > 0,
            commitment@.len() <= u32::MAX,
            num_vars == pp.m,
            point@.len() <= num_vars,
            proof.eval_proof.partial_eval_proof.leaves@.len() * exp2(pp.l1 as nat) <= usize::MAX,
            36 * exp2((pp.m - pp.m1) as nat) <= usize::MAX,
        ensures
            exists|r: int, gamma: int, r_bp: int|
                0 <= r < q() && 0 <= gamma < q() && 0 <= r_bp < q() && ok == agg_verdict(
                    *pp,
                    commitment@,
                    point@,
                    num_vars as nat,
                    max_idx as nat,
                    *proof,
                    merkle_ok,
                    r,
                    gamma,
                    r_bp,
                ),
    {
        let r = crate::field::fr_random();
        let gamma = crate::field::fr_random();
        let r_bp = crate::field::fr_random();
        proof {
            r.lemma_val_range();
            gamma.lemma_val_range();
            r_bp.lemma_val_range();
        }
        Self::aggregate_verify_with_randomness(pp, commitment, point, num_vars, max_idx, proof, merkle_ok, &r, &gamma, &r_bp)
    }
}

/// An evaluation proof for several polynomials at one point: the partial
/// evaluations of their group polynomials, the batched group sum-check for
/// them (without the authentication paths) and one inner-product argument
/// for the `gamma`-combination of the rest.
pub struct TitanBatchEvalProof {
    pub comm_partials: Vec<Pt>,
    pub partial_eval_proof: SumCheckGroupBatchProof,
    pub bullet_proof: BulletProof<Pt>,
}

impl TitanBatchEvalProof {
    /// The number of elements of the proof, given the number of Merkle nodes
    /// its authentication paths transmit: those of the batched sum-check and
    /// of the inner-product argument.
    #[allow(non_snake_case)]
    pub fn get_prooof_size(&self, merkle_nodes: usize) -> (r: usize)
        requires
            merkle_nodes + 3 * self.partial_eval_proof.round_messages@.len()
                + self.partial_eval_proof.g_poly.coeffs@.len() + (4 * self.bullet_proof.cm_L@.len()
                + self.bullet_proof.g_folded_poly.coeffs@.len() + self.bullet_proof.a_folded_poly.coeffs@.len())
                <= usize::MAX,
        ensures
            r == merkle_nodes + 3 * self.partial_eval_proof.round_messages@.len()
                + self.partial_eval_proof.g_poly.coeffs@.len() + (4 * self.bullet_proof.cm_L@.len()
                + self.bullet_proof.g_folded_poly.coeffs@.len() + self.bullet_proof.a_folded_poly.coeffs@.len()),
    {
        self.partial_eval_proof.get_proof_size(merkle_nodes) + self.bullet_proof.get_proof_size()
    }

    /// The size of the restricted polynomial of the batched sum-check.
    pub fn get_honest_oracle_proof_size(&self) -> (r: usize)
        ensures
            r == self.partial_eval_proof.g_poly.coeffs@.len(),
    {
        self.partial_eval_proof.g_poly.coeffs.len()
    }
}

/// A copy of the roots.
fn copy_roots(cs: &Vec<Vec<u8>>) -> (r: Vec<Vec<u8>>)
    ensures
        roots_view(r@) == roots_view(cs@),
        r@.len() == cs@.len(),
        forall|t: int| 0 <= t < cs@.len() ==> (#[trigger] r@[t])@ == cs@[t]@,
{
    let mut out: Vec<Vec<u8>> = Vec::new();
    let mut i: usize = 0;
    while i < cs.len()
        invariant
            i <= cs@.len(),
            out@.len() == i,
            forall|t: int| 0 <= t < i ==> (#[trigger] out@[t])@ == cs@[t]@,
        decreases cs@.len() - i,
    {
        out.push(vstd::slice::slice_to_vec(cs[i].as_slice()));
        i = i + 1;
    }
    proof {
        assert(roots_view(out@) =~= roots_view(cs@));
    }
    out
}

/// The tables of the polynomials with the last variables fixed to `ay`.
pub open spec fn partial_tables(polys: Seq<MultilinearPoly<Fr>>, ay: Seq<int>, m2: nat) -> Seq<Seq<int>> {
    Seq::new(polys.len(), |i: int| seq_mod(restrict_hi(polys[i].table(), ay, m2), q()))
}

/// The `gamma`-combination of `n` entries of the tables.
pub open spec fn gamma_tables(tabs: Seq<Seq<int>>, gamma: int, n: nat) -> Seq<int> {
    Seq::new(n, |j: int| gamma_sum(Seq::new(tabs.len(), |i: int| tabs[i][j]), gamma) % q())
}

/// What the batched group sum-check part of a proof holds, for the group
/// polynomials `gs` and the rounds the prover computed.
pub open spec fn pcs_batch_partial_ok(
    pp: TitanSetup,
    gs: Seq<MultilinearPoly<Pt>>,
    commitments: Seq<Seq<u8>>,
    ay: Seq<Fr>,
    comm_partials: Seq<Pt>,
    sp: SumCheckGroupBatchProof,
    rounds: SumCheckGroupRounds,
    g: int,
    log1: Seq<TranscriptEntry>,
) -> bool {
    let w = (pp.m1 - pp.l1) as nat;
    &&& sgb_prove_post(
        pp.m1,
        pp.l1,
        pp.domain_g1@.len() as int,
        commitments,
        ay,
        comm_partials,
        pp.num_queries,
        gs,
        seq![TranscriptEntry::Init("batch_sumcheck"@)],
        rounds,
        g,
        log1,
    )
    &&& sp.round_messages == rounds.round_messages
    &&& sp.g_poly == rounds.g_poly
    &&& forall|a: int, b: int| 0 <= a < b < sp.leaf_indices@.len() ==> sp.leaf_indices@[a] < sp.leaf_indices@[b]
    &&& forall|t: int| 0 <= t < sp.leaf_indices@.len() ==> rounds.queries@.contains(#[trigger] sp.leaf_indices@[t])
    &&& forall|t: int| 0 <= t < rounds.queries@.len() ==> sp.leaf_indices@.contains(#[trigger] rounds.queries@[t])
    &&& sp.leaves@.len() == gs.len()
    &&& sp.evaluations@.len() == gs.len()
    &&& forall|i: int|
        0 <= i < gs.len() ==> (#[trigger] sp.leaves@[i])@.len() == sp.leaf_indices@.len() && sp.evaluations@[i]@.len()
            == sp.leaf_indices@.len()
    &&& forall|i: int, t: int|
        0 <= i < gs.len() && 0 <= t < sp.leaf_indices@.len() ==> coset_leaf_ok(
            gs[i].table(),
            pp.l1 as nat,
            w,
            pp.domain_g1@[sp.leaf_indices@[t] as int],
            #[trigger] sp.leaves@[i]@[t],
        )
    &&& forall|i: int, t: int|
        0 <= i < gs.len() && 0 <= t < sp.leaf_indices@.len() ==> (#[trigger] sp.evaluations@[i]@[t]).log() == dot(
            lvals(sp.leaves@[i]@[t]@),
            seq_mod(eq_table(lvals(rounds.r_vec@)), q()),
        ) % q()
}

/// What `batch_prove` produces for the polynomials `polys`, their group
/// polynomials `gs` committed to by the roots `commitments`, and the point
/// `alpha = (alpha_x, alpha_y)`: `comm_partials[i]` is `gs[i](alpha_y)`; the
/// batched group sum-check for them runs on a transcript labelled
/// "batch_sumcheck" and draws `gamma`; and the inner-product argument on the
/// same transcript proves that the `gamma`-combination of the polynomials
/// partially evaluated at `alpha_y`, committed to by the
/// `gamma`-combination of `comm_partials`, has at `alpha_x` the
/// `gamma`-combination of their values.
pub open spec fn pcs_batch_prove_post(
    pp: TitanSetup,
    polys: Seq<MultilinearPoly<Fr>>,
    gs: Seq<MultilinearPoly<Pt>>,
    commitments: Seq<Seq<u8>>,
    alpha: Seq<Fr>,
    proof: TitanBatchEvalProof,
) -> bool {
    let m2 = (pp.m - pp.m1) as nat;
    let ax = alpha.take(m2 as int);
    let ay = alpha.skip(m2 as int);
    let k = polys.len();
    let a = partial_tables(polys, lvals(ay), m2);
    let cp = proof.comm_partials@;
    &&& cp.len() == k
    &&& forall|i: int| 0 <= i < k ==> (#[trigger] cp[i]).log() == mle(gs[i].table(), lvals(ay)) % q()
    &&& exists|rounds: SumCheckGroupRounds, g: int, log1: Seq<TranscriptEntry>, c: Pt, sigma: Fr, log2: Seq<TranscriptEntry>|
        #![trigger pcs_batch_partial_ok(pp, gs, commitments, ay, cp, proof.partial_eval_proof, rounds, g, log1), bp_prove_post(pp.bp_setup, c, ax, sigma, gamma_tables(a, g, exp2(m2)), log1, proof.bullet_proof, log2)]
        {
            &&& pcs_batch_partial_ok(pp, gs, commitments, ay, cp, proof.partial_eval_proof, rounds, g, log1)
            &&& c.log() == gamma_sum(lvals(cp), g) % q()
            &&& sigma.val() == gamma_sum(Seq::new(k, |i: int| mle(a[i], lvals(ax)) % q()), g) % q()
            &&& bp_prove_post(pp.bp_setup, c, ax, sigma, gamma_tables(a, g, exp2(m2)), log1, proof.bullet_proof, log2)
        }
}

impl TitanPolyCommitment {
    /// The evaluation proof of several polynomials, each with its own
    /// commitment, at one point `alpha`.
    pub fn batch_prove(
        pp: &TitanSetup,
        polys: &Vec<MultilinearPoly<Fr>>,
        committed: &Vec<MultilinearPoly<Pt>>,
        commitments: &Vec<Vec<u8>>,
        alpha: &Vec<Fr>,
    ) -> (proof: TitanBatchEvalProof)
        requires
            pp.wf(),
            1 <= pp.l1 < pp.m1,
            pp.domain_g1@.len() > 0,
            polys@.len() >= 1,
            committed@.len() == polys@.len(),
            commitments@.len() == polys@.len(),
            forall|i: int| 0 <= i < polys@.len() ==> (#[trigger] polys@[i]).wf() && polys@[i].num_vars == pp.m,
            forall|i: int| 0 <= i < committed@.len() ==> (#[trigger] committed@[i]).wf() && committed@[i].num_vars == pp.m1,
            forall|i: int| 0 <= i < commitments@.len() ==> (#[trigger] commitments@[i])@.len() <= u32::MAX,
            alpha@.len() == pp.m,
            gs_alpha_ok(alpha@.skip((pp.m - pp.m1) as int), pp.l1 as nat),
        ensures
            pcs_batch_prove_post(*pp, polys@, committed@, roots_view(commitments@), alpha@, proof),
    {
        let k = polys.len();
        let m1 = pp.m1;
        let m2 = pp.m - m1;
        let l1 = pp.l1;
        proof {
            lemma_exp2_monotone(m1 as nat, pp.m as nat);
            lemma_exp2_monotone(m2 as nat, pp.m as nat);
            lemma_exp2_monotone((m1 - l1) as nat, pp.m as nat);
            lemma_exp2_monotone(l1 as nat, pp.m as nat);
        }
        let alpha_x = sub_point(alpha, 0, m2);
        let alpha_y = sub_point(alpha, m2, pp.m);
        let ghost ax = alpha@.take(m2 as int);
        let ghost ay = alpha@.skip(m2 as int);
        proof {
            assert(alpha_x@ =~= ax);
            assert(alpha_y@ =~= ay);
        }
        let ghost a = partial_tables(polys@, lvals(ay), m2 as nat);
        let mut a_polys: Vec<MultilinearPoly<Fr>> = Vec::new();
        let mut sigmas: Vec<Fr> = Vec::new();
        let mut comm_partials: Vec<Pt> = Vec::new();
        let mut i: usize = 0;
        while i < k
            invariant
                i <= k,
                k == polys@.len(),
                k == committed@.len(),
                m2 == pp.m - pp.m1,
                pp.m1 <= pp.m,
                alpha_x@ == ax,
                alpha_y@ == ay,
                ax.len() == m2,
                ay.len() == pp.m - m2,
                a == partial_tables(polys@, lvals(ay), m2 as nat),
                forall|t: int| 0 <= t < polys@.len() ==> (#[trigger] polys@[t]).wf() && polys@[t].num_vars == pp.m,
                forall|t: int| 0 <= t < committed@.len() ==> (#[trigger] committed@[t]).wf() && committed@[t].num_vars == pp.m1,
                a_polys@.len() == i,
                sigmas@.len() == i,
                comm_partials@.len() == i,
                forall|t: int|
                    0 <= t < i ==> (#[trigger] a_polys@[t]).wf() && a_polys@[t].num_vars == m2 && a_polys@[t].table() == a[t],
                forall|t: int| 0 <= t < i ==> (#[trigger] sigmas@[t]).val() == mle(a[t], lvals(ax)) % q(),
                forall|t: int| 0 <= t < i ==> (#[trigger] comm_partials@[t]).log() == mle(committed@[t].table(), lvals(ay)) % q(),
            decreases k - i,
        {
            let a_i = polys[i].fold_msb(alpha_y.as_slice());
            let sigma_i = a_i.evaluate(alpha_x.as_slice());
            let cp_i = committed[i].evaluate_msm(alpha_y.as_slice());
            a_polys.push(a_i);
            sigmas.push(sigma_i);
            comm_partials.push(cp_i);
            i = i + 1;
        }
        let instance = SumCheckGroupBatchInstance {
            m: m1,
            l: l1,
            domain_g: vstd::slice::slice_to_vec(pp.domain_g1.as_slice()),
            commitments: copy_roots(commitments),
            alpha: alpha_y,
            sigmas: vstd::slice::slice_to_vec(comm_partials.as_slice()),
            num_queries: pp.num_queries,
        };
        let mut transcript = TitanTranscript::new("batch_sumcheck");
        let ghost log0 = transcript@;
        let (rounds, gamma) = ProtoSumCheckGroup::prove_batch_rounds(&instance, committed, &mut transcript);
        let ghost log1 = transcript@;
        let leaf_indices = opened_positions(&rounds.queries, pp.domain_g1.len());
        proof {
            assert forall|t: int| 0 <= t < leaf_indices@.len() implies #[trigger] leaf_indices@[t] < pp.domain_g1@.len() by {
                let s = choose|s: int| 0 <= s < rounds.queries@.len() && rounds.queries@[s] == leaf_indices@[t];
            }
        }
        let mut leaves: Vec<Vec<Vec<Pt>>> = Vec::new();
        let mut evaluations: Vec<Vec<Pt>> = Vec::new();
        let mut i: usize = 0;
        while i < k
            invariant
                i <= k,
                k == committed@.len(),
                l1 == pp.l1,
                m1 == pp.m1,
                pp.m1 <= pp.m,
                1 <= pp.l1 < pp.m1,
                exp2(pp.m as nat) <= usize::MAX,
                exp2(pp.l1 as nat) <= usize::MAX,
                rounds.r_vec@.len() == pp.l1,
                forall|t: int| 0 <= t < committed@.len() ==> (#[trigger] committed@[t]).wf() && committed@[t].num_vars == pp.m1,
                forall|t: int| 0 <= t < leaf_indices@.len() ==> #[trigger] leaf_indices@[t] < pp.domain_g1@.len(),
                leaves@.len() == i,
                evaluations@.len() == i,
                forall|s: int|
                    0 <= s < i ==> (#[trigger] leaves@[s])@.len() == leaf_indices@.len() && evaluations@[s]@.len()
                        == leaf_indices@.len(),
                forall|s: int, t: int|
                    0 <= s < i && 0 <= t < leaf_indices@.len() ==> coset_leaf_ok(
                        committed@[s].table(),
                        pp.l1 as nat,
                        (pp.m1 - pp.l1) as nat,
                        pp.domain_g1@[leaf_indices@[t] as int],
                        #[trigger] leaves@[s]@[t],
                    ),
                forall|s: int, t: int|
                    0 <= s < i && 0 <= t < leaf_indices@.len() ==> (#[trigger] evaluations@[s]@[t]).log() == dot(
                        lvals(leaves@[s]@[t]@),
                        seq_mod(eq_table(lvals(rounds.r_vec@)), q()),
                    ) % q(),
            decreases k - i,
        {
            let lv = coset_leaves(&committed[i], l1, &pp.domain_g1, &leaf_indices);
            proof {
                assert forall|t: int| 0 <= t < lv@.len() implies (#[trigger] lv@[t])@.len() == exp2(rounds.r_vec@.len() as nat) by {
                    assert(coset_leaf_ok(committed@[i as int].table(), l1 as nat, (m1 - l1) as nat, pp.domain_g1@[leaf_indices@[t] as int], lv@[t]));
                }
            }
            let ev = opening_evaluations(&lv, &rounds.r_vec);
            leaves.push(lv);
            evaluations.push(ev);
            i = i + 1;
        }
        // one inner-product argument for the gamma-combination
        let c = gamma_combination(comm_partials.as_slice(), &gamma);
        let sigma = gamma_combination(sigmas.as_slice(), &gamma);
        let n2 = pow2_usize(m2);
        let mut a_coeffs: Vec<Fr> = Vec::new();
        let mut j: usize = 0;
        while j < n2
            invariant
                j <= n2,
                n2 == exp2(m2 as nat),
                k == a_polys@.len(),
                forall|t: int|
                    0 <= t < k ==> (#[trigger] a_polys@[t]).wf() && a_polys@[t].num_vars == m2 && a_polys@[t].table() == a[t],
                a.len() == k,
                a_coeffs@.len() == j,
                forall|b: int| 0 <= b < j ==> (#[trigger] a_coeffs@[b]).val() == gamma_tables(a, gamma.val(), n2 as nat)[b],
            decreases n2 - j,
        {
            let mut col: Vec<Fr> = Vec::new();
            let mut t: usize = 0;
            while t < k
                invariant
                    t <= k,
                    j < n2,
                    n2 == exp2(m2 as nat),
                    k == a_polys@.len(),
                    forall|s: int|
                        0 <= s < k ==> (#[trigger] a_polys@[s]).wf() && a_polys@[s].num_vars == m2 && a_polys@[s].table() == a[s],
                    col@.len() == t,
                    forall|s: int| 0 <= s < t ==> (#[trigger] col@[s]).val() == a[s][j as int],
                decreases k - t,
            {
                col.push(a_polys[t].coeffs[j]);
                proof {
                    assert(a_polys@[t as int].table()[j as int] == a_polys@[t as int].coeffs@[j as int].val());
                }
                t = t + 1;
            }
            let v = gamma_combination(col.as_slice(), &gamma);
            proof {
                assert(lvals(col@) =~= Seq::new(a.len(), |i: int| a[i][j as int]));
            }
            a_coeffs.push(v);
            j = j + 1;
        }
        let a_poly = MultilinearPoly::new(a_coeffs);
        proof {
            crate::sums::lemma_exp2_injective(a_poly.num_vars as nat, m2 as nat);
            assert(a_poly.table() =~= gamma_tables(a, gamma.val(), exp2(m2 as nat)));
            assert(lvals(sigmas@) =~= Seq::new(k as nat, |i: int| mle(a[i], lvals(ax)) % q()));
        }
        let bp_instance = BulletProofInstance { pp: &pp.bp_setup, commitment: c, alpha: alpha_x, sigma };
        let bp_witness = BulletProofWitness { pp: &pp.bp_setup, a_poly };
        let bullet_proof = ProtoBulletProofGroup::prove(&bp_instance, &bp_witness, &mut transcript);
        let ghost log2 = transcript@;
        let partial_eval_proof = SumCheckGroupBatchProof {
            round_messages: rounds.round_messages,
            g_poly: rounds.g_poly,
            leaf_indices,
            leaves,
            evaluations,
        };
        let proof = TitanBatchEvalProof { comm_partials, partial_eval_proof, bullet_proof };
        proof {
            let gv = gamma.val();
            assert(log0 == seq![TranscriptEntry::Init("batch_sumcheck"@)]);
            assert(instance.sigmas@ == proof.comm_partials@);
            assert(pcs_batch_partial_ok(
                *pp,
                committed@,
                roots_view(commitments@),
                ay,
                proof.comm_partials@,
                proof.partial_eval_proof,
                rounds,
                gv,
                log1,
            ));
            assert(bp_prove_post(pp.bp_setup, c, ax, sigma, gamma_tables(a, gv, exp2(m2 as nat)), log1, proof.bullet_proof, log2));
            assert(c.log() == gamma_sum(lvals(proof.comm_partials@), gv) % q());
            assert(sigma.val() == gamma_sum(Seq::new(k as nat, |i: int| mle(a[i], lvals(ax)) % q()), gv) % q());
            assert(proof.comm_partials@.len() == k);
            assert(forall|i: int| 0 <= i < k ==> (#[trigger] proof.comm_partials@[i]).log() == mle(committed@[i].table(), lvals(ay)) % q());
            let m2n = (pp.m - pp.m1) as nat;
            let ax2 = alpha@.take(m2n as int);
            let ay2 = alpha@.skip(m2n as int);
            let a2 = partial_tables(polys@, lvals(ay2), m2n);
            let cp = proof.comm_partials@;
            assert(ax2 == ax && ay2 == ay && a2 == a);
            assert(pcs_batch_partial_ok(*pp, committed@, roots_view(commitments@), ay2, cp, proof.partial_eval_proof, rounds, gv, log1));
            assert(bp_prove_post(pp.bp_setup, c, ax2, sigma, gamma_tables(a2, gv, exp2(m2n)), log1, proof.bullet_proof, log2));
            assert(sigma.val() == gamma_sum(Seq::new(polys@.len(), |i: int| mle(a2[i], lvals(ax2)) % q()), gv) % q());
        }
        proof
    }
}

/// The `gamma`-combinations `c` of the partial evaluations and `sigma` of the
/// claimed values that the batched verifier hands to the inner-product
/// argument, for the `gamma` of the batched sum-check.
pub open spec fn pcs_batch_combined(
    pp: TitanSetup,
    commitments: Seq<Seq<u8>>,
    alpha: Seq<Fr>,
    sigmas: Seq<Fr>,
    proof: TitanBatchEvalProof,
    c: Pt,
    sigma: Fr,
) -> bool {
    let ay = alpha.skip((pp.m - pp.m1) as int);
    let cp = proof.comm_partials@;
    let g = crate::sumcheck::sgb_gamma(
        sgb_init_log(seq![TranscriptEntry::Init("batch_sumcheck"@)], pp.m1, pp.l1, commitments, ay, cp),
    );
    &&& c.log() == gamma_sum(lvals(cp), g) % q()
    &&& sigma.val() == gamma_sum(lvals(sigmas), g) % q()
}

/// The verdict on a batched evaluation proof that the polynomials committed
/// to by `commitments` have the values `sigmas` at `alpha`, for the verdict
/// `merkle_ok` on the authentication paths, the batching scalars `rs`,
/// `delta` of the batched sum-check and `r_bp` of the inner-product
/// argument, and the combinations `c` and `sigma`: there is one partial
/// evaluation per commitment, the batched sum-check accepts them, and the
/// inner-product argument, on the transcript the sum-check left, accepts
/// `sigma` as the value at `alpha_x` of the polynomial committed to by `c`.
pub open spec fn pcs_batch_verdict(
    pp: TitanSetup,
    commitments: Seq<Seq<u8>>,
    alpha: Seq<Fr>,
    proof: TitanBatchEvalProof,
    merkle_ok: bool,
    rs: Seq<int>,
    delta: int,
    r_bp: int,
    c: Pt,
    sigma: Fr,
) -> bool {
    let m2 = (pp.m - pp.m1) as nat;
    let ax = alpha.take(m2 as int);
    let ay = alpha.skip(m2 as int);
    let sp = proof.partial_eval_proof;
    let cp = proof.comm_partials@;
    let log0 = seq![TranscriptEntry::Init("batch_sumcheck"@)];
    let start = sgb_init_log(log0, pp.m1, pp.l1, commitments, ay, cp).push(TranscriptEntry::Challenge("gamma"@, 64));
    let log1 = bp_query_log(sg_after_log(start, sp.round_messages@, pp.l1 as nat, sp.g_poly.coeffs@), pp.num_queries as nat);
    &&& cp.len() == commitments.len()
    &&& sgb_verdict(sp, pp.m1, pp.l1, pp.domain_g1@, pp.num_queries, commitments, ay, cp, log0, merkle_ok, rs, delta)
    &&& bp_shape_ok(proof.bullet_proof, pp.bp_setup.m, pp.bp_setup.l)
    &&& bp_verdict(proof.bullet_proof, pp.bp_setup, c, ax, sigma, log1, r_bp)
}

impl TitanPolyCommitment {
    /// The verifier of a batched evaluation proof for given batching scalars.
    pub fn batch_verify_with_randomness(
        pp: &TitanSetup,
        commitments: &Vec<Vec<u8>>,
        alpha: &Vec<Fr>,
        sigmas: &Vec<Fr>,
        proof: &TitanBatchEvalProof,
        merkle_ok: bool,
        rs: &Vec<Fr>,
        delta: &Fr,
        r_bp: &Fr,
    ) -> (ok: bool)
        requires
            pp.wf(),
            pp.l1 <= pp.m1,
            pp.domain_g1@.len() > 0,
            forall|i: int| 0 <= i < commitments@.len() ==> (#[trigger] commitments@[i])@.len() <= u32::MAX,
            alpha@.len() == pp.m,
            sigmas@.len() == commitments@.len(),
            rs@.len() == commitments@.len(),
            proof.partial_eval_proof.leaf_indices@.len() * exp2(pp.l1 as nat) <= usize::MAX,
            36 * exp2((pp.m - pp.m1) as nat) <= usize::MAX,
        ensures
            exists|c: Pt, sigma: Fr|
                pcs_batch_combined(*pp, roots_view(commitments@), alpha@, sigmas@, *proof, c, sigma) && ok
                    == pcs_batch_verdict(
                    *pp,
                    roots_view(commitments@),
                    alpha@,
                    *proof,
                    merkle_ok,
                    lvals(rs@),
                    delta.val(),
                    r_bp.val(),
                    c,
                    sigma,
                ),
    {
        let m1 = pp.m1;
        let m2 = pp.m - m1;
        proof {
            lemma_exp2_monotone(m1 as nat, pp.m as nat);
        }
        let alpha_x = sub_point(alpha, 0, m2);
        let alpha_y = sub_point(alpha, m2, pp.m);
        proof {
            assert(alpha_x@ =~= alpha@.take(m2 as int));
            assert(alpha_y@ =~= alpha@.skip(m2 as int));
        }
        let instance = SumCheckGroupBatchInstance {
            m: m1,
            l: pp.l1,
            domain_g: vstd::slice::slice_to_vec(pp.domain_g1.as_slice()),
            commitments: copy_roots(commitments),
            alpha: alpha_y,
            sigmas: vstd::slice::slice_to_vec(proof.comm_partials.as_slice()),
            num_queries: pp.num_queries,
        };
        let mut transcript = TitanTranscript::new("batch_sumcheck");
        let (sg_ok, gamma) = ProtoSumCheckGroup::verify_batch_with_randomness(
            &proof.partial_eval_proof,
            &instance,
            &mut transcript,
            merkle_ok,
            rs,
            delta,
        );
        let c = gamma_combination(proof.comm_partials.as_slice(), &gamma);
        let sigma = gamma_combination(sigmas.as_slice(), &gamma);
        proof {
            assert(pcs_batch_combined(*pp, roots_view(commitments@), alpha@, sigmas@, *proof, c, sigma));
        }
        if !(sg_ok && proof.comm_partials.len() == commitments.len()) {
            return false;
        }
        let bp = &proof.bullet_proof;
        let l2 = pp.bp_setup.l;
        proof {
            lemma_exp2_monotone((m2 - l2) as nat, pp.m as nat);
        }
        let n2 = pow2_usize(pp.bp_setup.m - l2);
        let shape_ok = bp.cm_L.len() >= l2 && bp.cm_R.len() >= l2 && bp.lf_L.len() >= l2 && bp.lf_R.len() >= l2
            && bp.g_folded_poly.coeffs.len() == n2 && bp.a_folded_poly.coeffs.len() == n2;
        if !shape_ok {
            return false;
        }
        let bp_instance = BulletProofInstance { pp: &pp.bp_setup, commitment: c, alpha: alpha_x, sigma };
        ProtoBulletProofGroup::verify_with_randomness(bp, &bp_instance, &mut transcript, r_bp)
    }

    /// The verifier of a batched evaluation proof: as
    /// `batch_verify_with_randomness`, with the batching scalars drawn at
    /// random.
    pub fn batch_verify(
        pp: &TitanSetup,
        commitments: &Vec<Vec<u8>>,
        alpha: &Vec<Fr>,
        sigmas: &Vec<Fr>,
        proof: &TitanBatchEvalProof,
        merkle_ok: bool,
    ) -> (ok: bool)
        requires
            pp.wf(),
            pp.l1 <= pp.m1,
            pp.domain_g1@.len() > 0,
            forall|i: int| 0 <= i < commitments@.len() ==> (#[trigger] commitments@[i])@.len() <= u32::MAX,
            alpha@.len() == pp.m,
            sigmas@.len() == commitments@.len(),
            proof.partial_eval_proof.leaf_indices@.len() * exp2(pp.l1 as nat) <= usize::MAX,
            36 * exp2((pp.m - pp.m1) as nat) <= usize::MAX,
        ensures
            exists|rs: Seq<int>, delta: int, r_bp: int, c: Pt, sigma: Fr|
                rs.len() == commitments@.len() && 0 <= delta < q() && 0 <= r_bp < q() && pcs_batch_combined(
                    *pp,
                    roots_view(commitments@),
                    alpha@,
                    sigmas@,
                    *proof,
                    c,
                    sigma,
                ) && ok == pcs_batch_verdict(
                    *pp,
                    roots_view(commitments@),
                    alpha@,
                    *proof,
                    merkle_ok,
                    rs,
                    delta,
                    r_bp,
                    c,
                    sigma,
                ),
    {
        let mut rs: Vec<Fr> = Vec::new();
        let mut i: usize = 0;
        while i < commitments.len()
            invariant
                i <= commitments@.len(),
                rs@.len() == i,
            decreases commitments@.len() - i,
        {
            rs.push(crate::field::fr_random());
            i = i + 1;
        }
        let delta = crate::field::fr_random();
        let r_bp = crate::field::fr_random();
        proof {
            delta.lemma_val_range();
            r_bp.lemma_val_range();
        }
        Self::batch_verify_with_randomness(pp, commitments, alpha, sigmas, proof, merkle_ok, &rs, &delta, &r_bp)
    }
}

} // verus!
