//! The sum-check over a committed group polynomial: the prover reduces the
//! claim `σ = f(α)` through `l` rounds to a claim about `f` restricted to the
//! round challenges, sends that restriction, and the verifier checks it at
//! coset positions drawn from the transcript against the evaluations of the
//! opened leaves of the commitment.
//!
//! The Merkle commitment itself (building the tree, the authentication paths
//! and their verification) is carried by the caller: the prover hands back
//! the positions to open, and the verifier takes the verdict on the
//! authentication paths as an argument.
use vstd::prelude::*;
use vstd::string::StringSliceAdditionalSpecFns;
use vstd::arithmetic::power::pow;
use vstd::arithmetic::div_mod::{lemma_mul_mod_noop_left, lemma_mul_mod_noop_right, lemma_small_mod, lemma_mod_twice};
use crate::field::{q, Fr, fr_from_u64, fr_one, fr_mul, fr_add};
use crate::group::{Pt, pt_add, pt_eq};
use crate::traits::{Linear, InnerProduct, ByteSerializable, lvals};
use crate::sums::{ssum, dot, exp2, lemma_exp2_pos, lemma_exp2_monotone};
use crate::mle::{eq_table, seq_mod, restrict_lo, mle};
use crate::multilinear::{MultilinearPoly, pow2_usize};
use crate::utils::generate_power_vec;
use crate::transcript::{TitanTranscript, TranscriptEntry, append_to_transcript, get_challenge, get_challenge_u64};
use crate::group_sumcheck::{
    compute_Sl_poly, compute_all_S_tables, compute_gi_values, eval_triple_at_alpha, eval_triple, gi_value,
    sum_top_times, sl_table, gs_alpha_ok, gs_alpha_ok_at, gp_msgs, gp_log, gp_r, lemma_gp_log_prefix,
};
use crate::field_sumcheck::is_inverse;
use crate::bulletproof::{ser_msgs, bp_query_log, bp_queries, pow_vals};
use crate::config::ProtoSumCheckGroup;

verus! {

/// The statement: the polynomial committed to by the root `commitment`, in
/// `m` variables, has the value `sigma` at `alpha`; the prover folds `l`
/// variables, and the verifier makes `num_queries` queries on the domain
/// `domain_g` of the folded polynomial.
pub struct SumCheckGroupInstance {
    pub m: usize,
    pub l: usize,
    pub domain_g: Vec<Fr>,
    pub commitment: Vec<u8>,
    pub alpha: Vec<Fr>,
    pub sigma: Pt,
    pub num_queries: usize,
}

/// What the prover computes: the round messages, the polynomial restricted
/// to the round challenges, the challenges and the positions to open.
pub struct SumCheckGroupRounds {
    pub round_messages: Vec<[Pt; 3]>,
    pub g_poly: MultilinearPoly<Pt>,
    pub r_vec: Vec<Fr>,
    pub queries: Vec<usize>,
}

/// The proof apart from the authentication paths: the round messages, the
/// restricted polynomial, the opened positions and leaves, and the claimed
/// evaluations of the leaves at the round challenges.
pub struct SumCheckGroupProof {
    pub round_messages: Vec<[Pt; 3]>,
    pub g_poly: MultilinearPoly<Pt>,
    pub leaf_indices: Vec<usize>,
    pub leaves: Vec<Vec<Pt>>,
    pub evaluations: Vec<Pt>,
}

/// The total number of entries of the given leaves.
pub open spec fn leaf_total(leaves: Seq<Vec<Pt>>) -> int
    decreases leaves.len(),
{
    if leaves.len() == 0 {
        0
    } else {
        leaf_total(leaves.drop_last()) + leaves.last()@.len()
    }
}

impl SumCheckGroupProof {
    /// The number of group elements in the proof, given the number of Merkle
    /// nodes its authentication paths transmit: the Merkle nodes, three per
    /// round, the opened leaves and the restricted polynomial.
    pub fn get_proof_size(&self, merkle_nodes: usize) -> (r: usize)
        requires
            merkle_nodes + 3 * self.round_messages@.len() + leaf_total(self.leaves@) + self.g_poly.coeffs@.len()
                <= usize::MAX,
        ensures
            r == merkle_nodes + 3 * self.round_messages@.len() + leaf_total(self.leaves@) + self.g_poly.coeffs@.len(),
    {
        let mut total: usize = 0;
        let mut i: usize = 0;
        while i < self.leaves.len()
            invariant
                i <= self.leaves@.len(),
                total == leaf_total(self.leaves@.take(i as int)),
                merkle_nodes + 3 * self.round_messages@.len() + leaf_total(self.leaves@) + self.g_poly.coeffs@.len()
                    <= usize::MAX,
            decreases self.leaves@.len() - i,
        {
            proof {
                assert(self.leaves@.take(i + 1).drop_last() =~= self.leaves@.take(i as int));
                lemma_leaf_total_prefix(self.leaves@, i + 1);
            }
            total = total + self.leaves[i].len();
            i = i + 1;
        }
        proof {
            assert(self.leaves@.take(i as int) =~= self.leaves@);
        }
        merkle_nodes + 3 * self.round_messages.len() + total + self.g_poly.coeffs.len()
    }
}

/// The entries of a prefix of the leaves are at most those of all of them.
pub proof fn lemma_leaf_total_prefix(leaves: Seq<Vec<Pt>>, k: int)
    requires
        0 <= k <= leaves.len(),
    ensures
        0 <= leaf_total(leaves.take(k)) <= leaf_total(leaves),
    decreases leaves.len(),
{
    if leaves.len() > 0 {
        if k == leaves.len() {
            assert(leaves.take(k) =~= leaves);
            lemma_leaf_total_prefix(leaves.drop_last(), k - 1);
            assert(leaves.drop_last().take(k - 1) =~= leaves.drop_last());
        } else {
            lemma_leaf_total_prefix(leaves.drop_last(), k);
            assert(leaves.drop_last().take(k) =~= leaves.take(k));
        }
    }
}

/// The transcript once the statement is bound.
pub open spec fn sg_init_log(
    log0: Seq<TranscriptEntry>,
    m: usize,
    l: usize,
    commitment: Seq<u8>,
    alpha: Seq<Fr>,
    sigma: Pt,
) -> Seq<TranscriptEntry> {
    ser_msgs(
        log0.push(TranscriptEntry::Message("protocol"@, "sumcheck".spec_bytes())).push(
            TranscriptEntry::U64("instance.m"@, m as u64),
        ).push(TranscriptEntry::U64("instance.l"@, l as u64)).push(TranscriptEntry::Message("commitment"@, commitment)),
        "alpha"@,
        alpha,
    ).push(TranscriptEntry::Message("sigma"@, sigma.ser()))
}

/// The transcript once the rounds and the restricted polynomial are in.
pub open spec fn sg_after_log(
    init: Seq<TranscriptEntry>,
    rounds: Seq<[Pt; 3]>,
    l: nat,
    g_coeffs: Seq<Pt>,
) -> Seq<TranscriptEntry> {
    ser_msgs(gp_log(init, rounds, l), "h_poly"@, g_coeffs)
}

/// Binds the statement to the transcript.
fn sg_bind(instance: &SumCheckGroupInstance, transcript: &mut TitanTranscript)
    requires
        instance.commitment@.len() <= u32::MAX,
    ensures
        final(transcript)@ == sg_init_log(
            old(transcript)@,
            instance.m,
            instance.l,
            instance.commitment@,
            instance.alpha@,
            instance.sigma,
        ),
{
    let proto = "sumcheck".as_bytes();
    proof {
        reveal_strlit("sumcheck");
        vstd::string::is_ascii_spec_bytes("sumcheck");
    }
    transcript.append_message("protocol", proto);
    transcript.append_u64("instance.m", instance.m as u64);
    transcript.append_u64("instance.l", instance.l as u64);
    transcript.append_message("commitment", instance.commitment.as_slice());
    let ghost base = transcript@;
    let mut k: usize = 0;
    proof {
        assert(ser_msgs(base, "alpha"@, instance.alpha@.take(0)) =~= base);
    }
    while k < instance.alpha.len()
        invariant
            k <= instance.alpha@.len(),
            transcript@ == ser_msgs(base, "alpha"@, instance.alpha@.take(k as int)),
        decreases instance.alpha@.len() - k,
    {
        append_to_transcript(transcript, "alpha", &instance.alpha[k]);
        proof {
            assert(ser_msgs(base, "alpha"@, instance.alpha@.take(k + 1)) =~= ser_msgs(
                base,
                "alpha"@,
                instance.alpha@.take(k as int),
            ).push(TranscriptEntry::Message("alpha"@, instance.alpha@[k as int].ser())));
        }
        k = k + 1;
    }
    proof {
        assert(instance.alpha@.take(instance.alpha@.len() as int) =~= instance.alpha@);
    }
    append_to_transcript(transcript, "sigma", &instance.sigma);
}

/// Appends each coefficient under the label `h_poly`.
fn sg_append_poly(transcript: &mut TitanTranscript, coeffs: &Vec<Pt>)
    ensures
        final(transcript)@ == ser_msgs(old(transcript)@, "h_poly"@, coeffs@),
{
    let ghost base = transcript@;
    let mut k: usize = 0;
    proof {
        assert(ser_msgs(base, "h_poly"@, coeffs@.take(0)) =~= base);
    }
    while k < coeffs.len()
        invariant
            k <= coeffs@.len(),
            base == old(transcript)@,
            transcript@ == ser_msgs(base, "h_poly"@, coeffs@.take(k as int)),
        decreases coeffs@.len() - k,
    {
        append_to_transcript(transcript, "h_poly", &coeffs[k]);
        proof {
            assert(ser_msgs(base, "h_poly"@, coeffs@.take(k + 1)) =~= ser_msgs(
                base,
                "h_poly"@,
                coeffs@.take(k as int),
            ).push(TranscriptEntry::Message("h_poly"@, coeffs@[k as int].ser())));
        }
        k = k + 1;
    }
    proof {
        assert(coeffs@.take(coeffs@.len() as int) =~= coeffs@);
    }
}

/// Draws `nq` positions in a domain of `n` points.
fn sg_draw_queries(transcript: &mut TitanTranscript, nq: usize, n: usize) -> (ys: Vec<usize>)
    requires
        n > 0,
    ensures
        ys@.len() == nq,
        forall|t: int| 0 <= t < nq ==> #[trigger] ys@[t] < n,
        ys@.map_values(|y: usize| y as int) == bp_queries(old(transcript)@, nq as nat, n as int),
        final(transcript)@ == bp_query_log(old(transcript)@, nq as nat),
{
    let ghost base = transcript@;
    let mut ys: Vec<usize> = Vec::new();
    let mut k: usize = 0;
    proof {
        assert(bp_query_log(base, 0) =~= base);
    }
    while k < nq
        invariant
            k <= nq,
            n > 0,
            base == old(transcript)@,
            ys@.len() == k,
            transcript@ == bp_query_log(base, k as nat),
            forall|t: int| 0 <= t < k ==> #[trigger] ys@[t] < n,
            forall|t: int| 0 <= t < k ==> #[trigger] ys@[t] as int == bp_queries(base, nq as nat, n as int)[t],
        decreases nq - k,
    {
        let c = get_challenge_u64(transcript, "challenge_y");
        let y = (c % (n as u64)) as usize;
        ys.push(y);
        proof {
            assert(bp_query_log(base, (k + 1) as nat) =~= bp_query_log(base, k as nat).push(
                TranscriptEntry::Challenge("challenge_y"@, 8),
            ));
        }
        k = k + 1;
    }
    proof {
        assert(ys@.map_values(|y: usize| y as int) =~= bp_queries(base, nq as nat, n as int));
    }
    ys
}


/// What the prover produces for the statement with the given parts and the
/// polynomial with the table `f`, from the transcript `log0` to `log1`:
/// round `j` holds `g_j(0), g_j(1), g_j(2)` from the partial sums of
/// `f · eq(α, ·)` and the challenges drawn so far, each challenge is drawn
/// after its round, the restricted polynomial is `f` with its first `l`
/// variables fixed to the challenges, and the query positions are drawn
/// after it.
pub open spec fn sg_prove_post(
    m: usize,
    l: usize,
    domain_len: int,
    commitment: Seq<u8>,
    alpha: Seq<Fr>,
    sigma: Pt,
    num_queries: usize,
    f: Seq<int>,
    log0: Seq<TranscriptEntry>,
    r: SumCheckGroupRounds,
    log1: Seq<TranscriptEntry>,
) -> bool {
    let init = sg_init_log(log0, m, l, commitment, alpha, sigma);
    let av = lvals(alpha);
    let rv = lvals(r.r_vec@);
    let tr = r.round_messages@;
    let slv = seq_mod(sl_table(f, av, l as nat), q());
    let after = sg_after_log(init, tr, l as nat, r.g_poly.coeffs@);
    &&& rv.len() == l
    &&& tr.len() == l
    &&& forall|j: int| 0 <= j < l ==> #[trigger] rv[j] == gp_r(init, tr, j as nat)
    &&& forall|j: int, u: int|
        0 <= j < l && 0 <= u < 3 ==> #[trigger] tr[j][u].log() == gi_value(
            sum_top_times(slv, (l - j - 1) as nat),
            av,
            rv.take(j),
            u,
        )
    &&& r.g_poly.wf()
    &&& r.g_poly.num_vars == m - l
    &&& r.g_poly.table() == seq_mod(restrict_lo(f, rv, (m - l) as nat), q())
    &&& r.queries@.map_values(|y: usize| y as int) == bp_queries(after, num_queries as nat, domain_len)
    &&& forall|t: int| 0 <= t < r.queries@.len() ==> #[trigger] r.queries@[t] < domain_len
    &&& log1 == bp_query_log(after, num_queries as nat)
}

impl ProtoSumCheckGroup {
    /// The prover's rounds: binds the statement, answers `l` rounds from the
    /// partial sums `S_i` of `f · eq(α, ·)`, sends `f` restricted to the round
    /// challenges, and draws the positions at which the commitment is to be
    /// opened.
    pub fn prove_rounds(
        instance: &SumCheckGroupInstance,
        poly: &MultilinearPoly<Pt>,
        transcript: &mut TitanTranscript,
    ) -> (r: SumCheckGroupRounds)
        requires
            1 <= instance.l < instance.m,
            poly.wf(),
            poly.num_vars == instance.m,
            instance.alpha@.len() == instance.m,
            gs_alpha_ok(instance.alpha@, instance.l as nat),
            instance.commitment@.len() <= u32::MAX,
            instance.domain_g@.len() > 0,
        ensures
            sg_prove_post(
                instance.m,
                instance.l,
                instance.domain_g@.len() as int,
                instance.commitment@,
                instance.alpha@,
                instance.sigma,
                instance.num_queries,
                poly.table(),
                old(transcript)@,
                r,
                final(transcript)@,
            ),
    {
        let m = instance.m;
        let l = instance.l;
        let ghost log0 = transcript@;
        let ghost f = poly.table();
        let ghost av = lvals(instance.alpha@);
        sg_bind(instance, transcript);
        let ghost init = transcript@;
        let s_l = compute_Sl_poly(m, l, poly, instance.alpha.as_slice());
        let ghost slv = s_l.table();
        let s_tables = compute_all_S_tables(s_l.coeffs, l);
        let (r_vec, gi_triples) = sg_prove_rounds(m, l, &instance.alpha, &s_tables, Ghost(slv), transcript);
        let h_poly = poly.restrict(r_vec.as_slice());
        sg_append_poly(transcript, &h_poly.coeffs);
        let ghost after = transcript@;
        let queries = sg_draw_queries(transcript, instance.num_queries, instance.domain_g.len());
        SumCheckGroupRounds { round_messages: gi_triples, g_poly: h_poly, r_vec, queries }
    }
}

/// The openings of a proof for the rounds `rounds` on the polynomial with
/// table `f` in `m` variables, with leaves of `2^l` points over `domain`:
/// each queried position once, in increasing order, its coset leaf, and the
/// leaf's value at the round challenges.
pub open spec fn sg_openings_ok(domain: Seq<Fr>, f: Seq<int>, m: nat, l: nat, rounds: SumCheckGroupRounds, p: SumCheckGroupProof) -> bool {
    let idx = p.leaf_indices@;
    &&& forall|a: int, b: int| 0 <= a < b < idx.len() ==> idx[a] < idx[b]
    &&& forall|t: int| 0 <= t < idx.len() ==> rounds.queries@.contains(#[trigger] idx[t])
    &&& forall|t: int| 0 <= t < rounds.queries@.len() ==> idx.contains(#[trigger] rounds.queries@[t])
    &&& p.leaves@.len() == idx.len()
    &&& forall|t: int|
        0 <= t < idx.len() ==> crate::pcs::coset_leaf_ok(f, l, (m - l) as nat, domain[idx[t] as int], #[trigger] p.leaves@[t])
    &&& p.evaluations@.len() == idx.len()
    &&& forall|t: int|
        0 <= t < idx.len() ==> #[trigger] p.evaluations@[t].log() == dot(
            lvals(p.leaves@[t]@),
            seq_mod(eq_table(lvals(rounds.r_vec@)), q()),
        ) % q()
}

impl ProtoSumCheckGroup {
    /// The prover: the rounds, then the opened positions, their coset leaves
    /// and the leaves' values at the round challenges (the proof apart from
    /// the authentication paths).
    pub fn prove(
        instance: &SumCheckGroupInstance,
        poly: &MultilinearPoly<Pt>,
        transcript: &mut TitanTranscript,
    ) -> (p: SumCheckGroupProof)
        requires
            1 <= instance.l < instance.m,
            poly.wf(),
            poly.num_vars == instance.m,
            instance.alpha@.len() == instance.m,
            gs_alpha_ok(instance.alpha@, instance.l as nat),
            instance.commitment@.len() <= u32::MAX,
            instance.domain_g@.len() > 0,
        ensures
            exists|rounds: SumCheckGroupRounds|
                #![trigger sg_prove_post(instance.m, instance.l, instance.domain_g@.len() as int, instance.commitment@, instance.alpha@, instance.sigma, instance.num_queries, poly.table(), old(transcript)@, rounds, final(transcript)@)]
                {
                    &&& sg_prove_post(
                        instance.m,
                        instance.l,
                        instance.domain_g@.len() as int,
                        instance.commitment@,
                        instance.alpha@,
                        instance.sigma,
                        instance.num_queries,
                        poly.table(),
                        old(transcript)@,
                        rounds,
                        final(transcript)@,
                    )
                    &&& p.round_messages@ == rounds.round_messages@
                    &&& p.g_poly == rounds.g_poly
                    &&& sg_openings_ok(instance.domain_g@, poly.table(), instance.m as nat, instance.l as nat, rounds, p)
                },
            (p.round_messages@[0][0].log() + p.round_messages@[0][1].log()) % q() == mle(
                poly.table(),
                lvals(instance.alpha@),
            ) % q(),
    {
        let rounds = Self::prove_rounds(instance, poly, transcript);
        let ghost r0 = rounds;
        // the inverses of 1 - alpha_0 and alpha_0, which the first round divides by
        let a0 = instance.alpha[0];
        let om = crate::field::fr_one_minus(&a0);
        proof {
            assert(gs_alpha_ok_at(instance.alpha@, 1));
            a0.lemma_val_range();
            if om.val() == 0 {
                vstd::arithmetic::div_mod::lemma_small_mod(a0.val() as nat, q() as nat);
                assert((1 - a0.val()) % q() == 0);
                assert(a0.val() == 1) by {
                    vstd::arithmetic::div_mod::lemma_fundamental_div_mod(1 - a0.val(), q());
                }
            }
        }
        let inv_om = crate::group_sumcheck::invert_nonzero(&om);
        let inv_a0 = crate::group_sumcheck::invert_nonzero(&a0);
        proof {
            let av = lvals(instance.alpha@);
            assert(av[0] == a0.val());
            lemma_mul_mod_noop_left(1 - av[0], inv_om.val(), q());
            assert(is_inverse(1 - av[0], inv_om.val()));
            assert(is_inverse(av[0], inv_a0.val()));
            crate::sumcheck_laws::law_group_first_round_sums_to_claim(poly.table(), av, instance.l as nat);
            assert(lvals(rounds.r_vec@).take(0) =~= Seq::<int>::empty());
        }
        let leaf_indices = crate::pcs::opened_positions(&rounds.queries, instance.domain_g.len());
        proof {
            assert forall|t: int| 0 <= t < leaf_indices@.len() implies #[trigger] leaf_indices@[t] < instance.domain_g@.len() by {
                let s = choose|s: int| 0 <= s < rounds.queries@.len() && rounds.queries@[s] == leaf_indices@[t];
            }
        }
        let leaves = crate::pcs::coset_leaves(poly, instance.l, &instance.domain_g, &leaf_indices);
        let table_len = poly.coeffs.len();
        proof {
            assert(poly.coeffs@.len() == table_len);
            lemma_exp2_monotone(instance.l as nat, instance.m as nat);
            assert forall|t: int| 0 <= t < leaves@.len() implies (#[trigger] leaves@[t])@.len() == exp2(rounds.r_vec@.len() as nat) by {
                assert(crate::pcs::coset_leaf_ok(poly.table(), instance.l as nat, (instance.m - instance.l) as nat, instance.domain_g@[leaf_indices@[t] as int], leaves@[t]));
            }
        }
        let evaluations = opening_evaluations(&leaves, &rounds.r_vec);
        let p = SumCheckGroupProof {
            round_messages: rounds.round_messages,
            g_poly: rounds.g_poly,
            leaf_indices,
            leaves,
            evaluations,
        };
        proof {
            assert(sg_openings_ok(instance.domain_g@, poly.table(), instance.m as nat, instance.l as nat, r0, p));
        }
        p
    }
}


/// The claimed evaluations of opened leaves at `point`: each leaf's inner
/// product with the table of `eq(point, ·)`.
pub fn opening_evaluations(leaves: &Vec<Vec<Pt>>, point: &Vec<Fr>) -> (r: Vec<Pt>)
    requires
        exp2(point@.len() as nat) <= usize::MAX,
        forall|i: int| 0 <= i < leaves@.len() ==> (#[trigger] leaves@[i])@.len() == exp2(point@.len() as nat),
    ensures
        r@.len() == leaves@.len(),
        forall|i: int|
            0 <= i < leaves@.len() ==> #[trigger] r@[i].log() == dot(
                lvals(leaves@[i]@),
                seq_mod(eq_table(lvals(point@)), q()),
            ) % q(),
{
    let eq_poly = MultilinearPoly::<Fr>::init_with_eq(point.as_slice());
    let mut out: Vec<Pt> = Vec::new();
    let mut i: usize = 0;
    while i < leaves.len()
        invariant
            i <= leaves@.len(),
            eq_poly.wf(),
            eq_poly.num_vars == point@.len(),
            eq_poly.table() == seq_mod(eq_table(lvals(point@)), q()),
            forall|t: int| 0 <= t < leaves@.len() ==> (#[trigger] leaves@[t])@.len() == exp2(point@.len() as nat),
            out@.len() == i,
            forall|t: int|
                0 <= t < i ==> #[trigger] out@[t].log() == dot(lvals(leaves@[t]@), seq_mod(eq_table(lvals(point@)), q()))
                    % q(),
        decreases leaves@.len() - i,
    {
        let e = Pt::inner_product_msm(leaves[i].as_slice(), eq_poly.coeffs.as_slice());
        out.push(e);
        i = i + 1;
    }
    out
}

/// The claim that round `j` starts from: `sigma` for the first round, the
/// previous round polynomial at the previous challenge after that.
pub open spec fn sg_prev_claim(init: Seq<TranscriptEntry>, tr: Seq<[Pt; 3]>, sigma: int, j: int) -> int {
    if j == 0 {
        sigma
    } else {
        eval_triple(tr[j - 1][0].log(), tr[j - 1][1].log(), tr[j - 1][2].log(), gp_r(init, tr, (j - 1) as nat))
    }
}

/// Whether round `j` passes: `g_j(0) + g_j(1)` is the claim it starts from.
pub open spec fn sg_round_ok(init: Seq<TranscriptEntry>, tr: Seq<[Pt; 3]>, sigma: int, j: int) -> bool {
    (tr[j][0].log() + tr[j][1].log()) % q() == sg_prev_claim(init, tr, sigma, j)
}

/// The leaves one after another.
pub open spec fn sg_leaf_cat(leaves: Seq<Vec<Pt>>, k: nat) -> Seq<int>
    decreases k,
{
    if k == 0 {
        Seq::empty()
    } else {
        sg_leaf_cat(leaves, (k - 1) as nat) + lvals(leaves[k - 1]@)
    }
}

/// The table `e` scaled by `r^i` for each leaf `i < k`, one after another.
pub open spec fn sg_eq_cat(e: Seq<int>, r: int, k: nat) -> Seq<int>
    decreases k,
{
    if k == 0 {
        Seq::empty()
    } else {
        sg_eq_cat(e, r, (k - 1) as nat) + Seq::new(e.len(), |j: int| (e[j] * pow(r, (k - 1) as nat)) % q())
    }
}

/// The powers `1, r, ..., r^(n-1)` modulo `q`.
pub open spec fn sg_powers(r: int, n: nat) -> Seq<int> {
    Seq::new(n, |i: int| pow(r, i as nat) % q())
}

/// The batched check of the claimed evaluations against the opened leaves:
/// `Σ_i r^i ⟨leaf_i, e⟩ = Σ_i r^i · eval_i`, as the verifier computes it.
pub open spec fn sg_eval_ok(leaves: Seq<Vec<Pt>>, evals: Seq<Pt>, e: Seq<int>, r: int) -> bool {
    dot(sg_leaf_cat(leaves, leaves.len()), sg_eq_cat(e, r, leaves.len())) % q() == dot(
        lvals(evals),
        sg_powers(r, evals.len()),
    ) % q()
}

/// The table of `eq((y, y^2, ..., y^(2^(w-1))), ·)`.
pub open spec fn sg_ytab(y: int, w: nat) -> Seq<int> {
    seq_mod(eq_table(pow_vals(y, w)), q())
}

/// The terms `γ^i · ytab(y_i)[idx]` for the first `k` opened positions.
pub open spec fn sg_yterms(domain: Seq<Fr>, idxs: Seq<usize>, gamma: int, w: nat, idx: int, k: nat) -> Seq<int> {
    Seq::new(k, |i: int| sg_ytab(domain[idxs[i] as int].val(), w)[idx] * pow(gamma, i as nat))
}

/// The terms `eval_i · γ^i` for the first `k` evaluations.
pub open spec fn sg_eterms(evals: Seq<int>, gamma: int, k: nat) -> Seq<int> {
    Seq::new(k, |i: int| evals[i] * pow(gamma, i as nat))
}

/// The batched check of the restricted polynomial against the claimed
/// evaluations: `⟨g, Σ_i γ^i ytab(y_i)⟩ = Σ_i γ^i eval_i`.
pub open spec fn sg_poly_ok(g: Seq<Pt>, domain: Seq<Fr>, idxs: Seq<usize>, evals: Seq<int>, gamma: int, w: nat) -> bool {
    dot(lvals(g), Seq::new(exp2(w), |idx: int| ssum(sg_yterms(domain, idxs, gamma, w, idx, idxs.len())) % q())) % q()
        == ssum(sg_eterms(evals, gamma, idxs.len())) % q()
}

/// Whether the parts of the proof have the shapes the checks need.
pub open spec fn sg_shape_ok(proof: SumCheckGroupProof, m: usize, l: usize, domain_len: int) -> bool {
    &&& proof.leaves@.len() > 0
    &&& proof.leaves@.len() == proof.evaluations@.len()
    &&& proof.leaf_indices@.len() == proof.evaluations@.len()
    &&& forall|i: int| 0 <= i < proof.leaves@.len() ==> (#[trigger] proof.leaves@[i])@.len() == exp2(l as nat)
    &&& forall|i: int| 0 <= i < proof.leaf_indices@.len() ==> #[trigger] proof.leaf_indices@[i] < domain_len
    &&& proof.g_poly.coeffs@.len() == exp2((m - l) as nat)
}

/// Whether the opened positions are the drawn query positions `qs`: each
/// once, in increasing order.
pub open spec fn sg_positions_ok(idx: Seq<usize>, qs: Seq<int>) -> bool {
    &&& forall|a: int, b: int| 0 <= a < b < idx.len() ==> idx[a] < idx[b]
    &&& forall|t: int| 0 <= t < idx.len() ==> qs.contains(#[trigger] idx[t] as int)
    &&& forall|t: int| 0 <= t < qs.len() ==> idx.map_values(|y: usize| y as int).contains(#[trigger] qs[t])
}

/// Checks that the opened positions are the drawn ones, each once, in
/// increasing order.
fn sg_positions_check(idx: &Vec<usize>, qs: &Vec<usize>) -> (ok: bool)
    ensures
        ok == sg_positions_ok(idx@, qs@.map_values(|y: usize| y as int)),
{
    let ghost qv = qs@.map_values(|y: usize| y as int);
    let ghost iv = idx@.map_values(|y: usize| y as int);
    let n = idx.len();
    let mut a: usize = 1;
    while a < n
        invariant
            1 <= a,
            n == idx@.len(),
            forall|x: int, y: int| 0 <= x < y < a && y < n ==> idx@[x] < idx@[y],
        decreases n - a,
    {
        if idx[a - 1] >= idx[a] {
            return false;
        }
        a = a + 1;
    }
    let mut t: usize = 0;
    while t < n
        invariant
            t <= n,
            n == idx@.len(),
            qv == qs@.map_values(|y: usize| y as int),
            forall|x: int, y: int| 0 <= x < y < n ==> idx@[x] < idx@[y],
            forall|u: int| 0 <= u < t ==> qv.contains(#[trigger] idx@[u] as int),
        decreases n - t,
    {
        let mut k: usize = 0;
        let mut found = false;
        while k < qs.len() && !found
            invariant
                k <= qs@.len(),
                t < n,
                n == idx@.len(),
                qv == qs@.map_values(|y: usize| y as int),
                found ==> qv.contains(idx@[t as int] as int),
                !found ==> forall|u: int| 0 <= u < k ==> qs@[u] != idx@[t as int],
                found ==> k < qs@.len(),
            decreases qs@.len() - k + (if found { 0int } else { 1int }),
        {
            if qs[k] == idx[t] {
                found = true;
                proof {
                    assert(qv[k as int] == idx@[t as int] as int);
                }
            } else {
                k = k + 1;
            }
        }
        if !found {
            proof {
                assert(!qv.contains(idx@[t as int] as int)) by {
                    if qv.contains(idx@[t as int] as int) {
                        let u = choose|u: int| 0 <= u < qv.len() && qv[u] == idx@[t as int] as int;
                        assert(qs@[u] == idx@[t as int]);
                    }
                }
            }
            return false;
        }
        t = t + 1;
    }
    let mut k: usize = 0;
    while k < qs.len()
        invariant
            k <= qs@.len(),
            n == idx@.len(),
            qv == qs@.map_values(|y: usize| y as int),
            iv == idx@.map_values(|y: usize| y as int),
            forall|x: int, y: int| 0 <= x < y < n ==> idx@[x] < idx@[y],
            forall|u: int| 0 <= u < n ==> qv.contains(#[trigger] idx@[u] as int),
            forall|u: int| 0 <= u < k ==> iv.contains(#[trigger] qv[u]),
        decreases qs@.len() - k,
    {
        let mut t: usize = 0;
        let mut found = false;
        while t < n && !found
            invariant
                t <= n,
                k < qs@.len(),
                n == idx@.len(),
                qv == qs@.map_values(|y: usize| y as int),
                iv == idx@.map_values(|y: usize| y as int),
                found ==> iv.contains(qv[k as int]),
                !found ==> forall|u: int| 0 <= u < t ==> idx@[u] != qs@[k as int],
                found ==> t < n,
            decreases n - t + (if found { 0int } else { 1int }),
        {
            if idx[t] == qs[k] {
                found = true;
                proof {
                    assert(iv[t as int] == qv[k as int]);
                }
            } else {
                t = t + 1;
            }
        }
        if !found {
            proof {
                assert(!iv.contains(qv[k as int])) by {
                    if iv.contains(qv[k as int]) {
                        let u = choose|u: int| 0 <= u < iv.len() && iv[u] == qv[k as int];
                        assert(idx@[u] == qs@[k as int]);
                    }
                }
            }
            return false;
        }
        k = k + 1;
    }
    true
}

/// The verifier's verdict, for the verdict `merkle_ok` on the authentication
/// paths and the batching scalars `r` and `gamma`.
pub open spec fn sg_verdict(
    proof: SumCheckGroupProof,
    m: usize,
    l: usize,
    domain: Seq<Fr>,
    nq: usize,
    commitment: Seq<u8>,
    alpha: Seq<Fr>,
    sigma: Pt,
    log0: Seq<TranscriptEntry>,
    merkle_ok: bool,
    r: int,
    gamma: int,
) -> bool {
    let init = sg_init_log(log0, m, l, commitment, alpha, sigma);
    let tr = proof.round_messages@;
    let rv = Seq::new(l as nat, |j: int| gp_r(init, tr, j as nat));
    &&& tr.len() >= l
    &&& forall|j: int| 0 <= j < l ==> #[trigger] sg_round_ok(init, tr, sigma.log(), j)
    &&& merkle_ok
    &&& sg_shape_ok(proof, m, l, domain.len() as int)
    &&& sg_positions_ok(
        proof.leaf_indices@,
        bp_queries(sg_after_log(init, tr, l as nat, proof.g_poly.coeffs@), nq as nat, domain.len() as int),
    )
    &&& sg_eval_ok(proof.leaves@, proof.evaluations@, seq_mod(eq_table(rv), q()), r)
    &&& sg_poly_ok(proof.g_poly.coeffs@, domain, proof.leaf_indices@, lvals(proof.evaluations@), gamma, (m - l) as nat)
}


/// Replays the `l` rounds: appends each round's messages, draws its
/// challenge and checks the round against the claim it starts from.
pub(crate) fn sg_replay_rounds(tr: &Vec<[Pt; 3]>, l: usize, sigma: &Pt, transcript: &mut TitanTranscript) -> (r: (bool, Vec<Fr>))
    requires
        tr@.len() >= l,
    ensures
        final(transcript)@ == gp_log(old(transcript)@, tr@, l as nat),
        lvals(r.1@) == Seq::new(l as nat, |j: int| gp_r(old(transcript)@, tr@, j as nat)),
        r.0 == (forall|j: int| 0 <= j < l ==> #[trigger] sg_round_ok(old(transcript)@, tr@, sigma.log(), j)),
{
    let ghost init = transcript@;
    let mut ok = true;
    let mut r_vec: Vec<Fr> = Vec::new();
    let mut i: usize = 0;
    while i < l
        invariant
            i <= l,
            tr@.len() >= l,
            r_vec@.len() == i,
            transcript@ == gp_log(init, tr@, i as nat),
            forall|j: int| 0 <= j < i ==> #[trigger] lvals(r_vec@)[j] == gp_r(init, tr@, j as nat),
            ok == (forall|j: int| 0 <= j < i ==> #[trigger] sg_round_ok(init, tr@, sigma.log(), j)),
        decreases l - i,
    {
        let t = tr[i];
        append_to_transcript(transcript, "g_i(0)", &t[0]);
        append_to_transcript(transcript, "g_i(1)", &t[1]);
        append_to_transcript(transcript, "g_i(2)", &t[2]);
        let r_i = get_challenge(transcript, "r_i");
        let sum = pt_add(&t[0], &t[1]);
        let pass = if i == 0 {
            pt_eq(&sum, sigma)
        } else {
            let prev = eval_triple_at_alpha(&tr[i - 1], r_vec[i - 1]);
            pt_eq(&sum, &prev)
        };
        proof {
            sigma.lemma_log_range();
            assert(t == tr@[i as int]);
            assert(r_i.val() == gp_r(init, tr@, i as nat));
            if i > 0 {
                assert(lvals(r_vec@)[i - 1] == gp_r(init, tr@, (i - 1) as nat));
            }
            assert(pass == sg_round_ok(init, tr@, sigma.log(), i as int));
        }
        ok = ok && pass;
        let ghost rv_old = lvals(r_vec@);
        r_vec.push(r_i);
        proof {
            assert(lvals(r_vec@) =~= rv_old.push(r_i.val()));
        }
        i = i + 1;
    }
    proof {
        assert(lvals(r_vec@) =~= Seq::new(l as nat, |j: int| gp_r(init, tr@, j as nat)));
    }
    (ok, r_vec)
}


proof fn lemma_acc(a: int, b: int, p: int)
    ensures
        ((a % q()) + (b * (p % q())) % q()) % q() == (a + b * p) % q(),
{
    lemma_mul_mod_noop_right(b, p, q());
    vstd::arithmetic::div_mod::lemma_add_mod_noop(a, b * p, q());
}

proof fn lemma_pow_next(r: int, k: nat)
    ensures
        pow(r, k + 1) == pow(r, k) * r,
        pow(r, 0) == 1,
{
    reveal(pow);
    assert(pow(r, k + 1) == r * pow(r, k));
    assert(r * pow(r, k) == pow(r, k) * r) by (nonlinear_arith);
}

/// The check of claimed evaluations of opened leaves at `alpha` in the
/// leaves' variables, batched with the powers of `r`:
/// `Σ_i r^i ⟨leaf_i, eq(alpha, ·)⟩ = Σ_i r^i · claimed_i`. Without leaves
/// there is nothing to check.
pub fn check_openings_batch(leaves: &Vec<Vec<Pt>>, alpha: &Vec<Fr>, claimed: &Vec<Pt>, r: &Fr) -> (ok: bool)
    requires
        leaves@.len() == claimed@.len(),
        forall|i: int| 0 <= i < leaves@.len() ==> (#[trigger] leaves@[i])@.len() == exp2(alpha@.len() as nat),
        leaves@.len() * exp2(alpha@.len() as nat) <= usize::MAX,
    ensures
        leaves@.len() == 0 ==> ok,
        leaves@.len() > 0 ==> ok == sg_eval_ok(leaves@, claimed@, seq_mod(eq_table(lvals(alpha@)), q()), r.val()),
{
    if leaves.len() == 0 {
        return true;
    }
    proof {
        assert(leaves@[0]@.len() == exp2(alpha@.len() as nat));
        let (a, b) = (leaves@.len() as int, exp2(alpha@.len() as nat) as int);
        assert(b <= a * b) by (nonlinear_arith)
            requires
                a >= 1,
                b >= 0,
        ;
    }
    let e = MultilinearPoly::<Fr>::init_with_eq(alpha.as_slice());
    sg_eval_check(leaves, claimed, &e.coeffs, r)
}

/// The batched check of claimed evaluations against opened leaves.
fn sg_eval_check(leaves: &Vec<Vec<Pt>>, evals: &Vec<Pt>, e: &Vec<Fr>, r: &Fr) -> (ok: bool)
    requires
        leaves@.len() == evals@.len(),
        leaves@.len() > 0,
        forall|i: int| 0 <= i < leaves@.len() ==> (#[trigger] leaves@[i])@.len() == e@.len(),
        leaves@.len() * e@.len() <= usize::MAX,
    ensures
        ok == sg_eval_ok(leaves@, evals@, lvals(e@), r.val()),
{
    let n = leaves.len();
    let w = e.len();
    let ghost ev = lvals(e@);
    let ghost rv = r.val();
    let mut cl: Vec<Pt> = Vec::new();
    let mut ce: Vec<Fr> = Vec::new();
    let mut rps: Vec<Fr> = Vec::new();
    let mut rp = fr_one();
    proof {
        lemma_pow_next(rv, 0);
        assert(lvals(cl@) =~= sg_leaf_cat(leaves@, 0));
        assert(lvals(ce@) =~= sg_eq_cat(ev, rv, 0));
    }
    let mut i: usize = 0;
    while i < n
        invariant
            i <= n,
            n == leaves@.len(),
            w == e@.len(),
            ev == lvals(e@),
            rv == r.val(),
            n * w <= usize::MAX,
            forall|t: int| 0 <= t < leaves@.len() ==> (#[trigger] leaves@[t])@.len() == w,
            rp.val() == pow(rv, i as nat) % q(),
            lvals(cl@) == sg_leaf_cat(leaves@, i as nat),
            lvals(ce@) == sg_eq_cat(ev, rv, i as nat),
            cl@.len() == i * w,
            ce@.len() == i * w,
            lvals(rps@) == sg_powers(rv, i as nat),
        decreases n - i,
    {
        proof {
            assert(i * w + w <= n * w) by (nonlinear_arith)
                requires
                    i < n,
            ;
        }
        let mut leaf = vstd::slice::slice_to_vec(leaves[i].as_slice());
        let ghost cl_old = cl@;
        cl.append(&mut leaf);
        proof {
            assert(lvals(cl@) =~= lvals(cl_old) + lvals(leaves@[i as int]@));
        }
        let ghost ce_old = ce@;
        let mut j: usize = 0;
        while j < w
            invariant
                j <= w,
                w == e@.len(),
                ev == lvals(e@),
                rp.val() == pow(rv, i as nat) % q(),
                ce@.len() == ce_old.len() + j,
                ce_old.len() + w <= usize::MAX,
                forall|t: int| 0 <= t < ce_old.len() ==> #[trigger] ce@[t] == ce_old[t],
                forall|t: int|
                    0 <= t < j ==> #[trigger] ce@[ce_old.len() + t].val() == (ev[t] * pow(rv, i as nat)) % q(),
            decreases w - j,
        {
            let sc = fr_mul(&e[j], &rp);
            proof {
                lemma_mul_mod_noop_right(ev[j as int], pow(rv, i as nat), q());
            }
            ce.push(sc);
            j = j + 1;
        }
        proof {
            assert forall|t: int| ce_old.len() <= t < ce@.len() implies #[trigger] ce@[t].val() == (ev[t - ce_old.len()]
                * pow(rv, i as nat)) % q() by {
                let k = t - ce_old.len();
                assert(ce@[ce_old.len() + k] == ce@[t]);
            }
            assert(lvals(ce@) =~= lvals(ce_old) + Seq::new(ev.len(), |t: int| (ev[t] * pow(rv, i as nat)) % q()));
            assert((i + 1) * w == i * w + w) by (nonlinear_arith);
        }
        let ghost rps_old = lvals(rps@);
        rps.push(rp);
        proof {
            assert(lvals(rps@) =~= rps_old.push(rp.val()));
            assert(sg_powers(rv, (i + 1) as nat) =~= sg_powers(rv, i as nat).push(pow(rv, i as nat) % q()));
            assert(lvals(rps@) =~= sg_powers(rv, (i + 1) as nat));
            lemma_pow_next(rv, i as nat);
            lemma_mul_mod_noop_left(pow(rv, i as nat), rv, q());
        }
        rp = fr_mul(&rp, r);
        i = i + 1;
    }
    let lhs = Pt::inner_product_msm(cl.as_slice(), ce.as_slice());
    let rhs = Pt::inner_product_msm(evals.as_slice(), rps.as_slice());
    pt_eq(&lhs, &rhs)
}

/// The batched check of the restricted polynomial against the claimed
/// evaluations at the opened positions.
fn sg_poly_check(g: &Vec<Pt>, domain: &Vec<Fr>, idxs: &Vec<usize>, evals: &Vec<Pt>, gamma: &Fr, w: usize) -> (ok: bool)
    requires
        g@.len() == exp2(w as nat),
        exp2(w as nat) <= usize::MAX,
        idxs@.len() == evals@.len(),
        forall|i: int| 0 <= i < idxs@.len() ==> #[trigger] idxs@[i] < domain@.len(),
    ensures
        ok == sg_poly_ok(g@, domain@, idxs@, lvals(evals@), gamma.val(), w as nat),
{
    let n_w = pow2_usize(w);
    let ghost gv = gamma.val();
    let zero = crate::field::fr_zero();
    let mut cs: Vec<Fr> = Vec::new();
    let mut j: usize = 0;
    while j < n_w
        invariant
            j <= n_w,
            cs@.len() == j,
            zero.val() == 0,
            forall|t: int| 0 <= t < j ==> #[trigger] cs@[t].val() == 0,
        decreases n_w - j,
    {
        cs.push(zero);
        j = j + 1;
    }
    let mut ce = crate::group::pt_identity();
    let mut gp = fr_one();
    proof {
        lemma_pow_next(gv, 0);
        assert forall|t: int| 0 <= t < n_w implies #[trigger] cs@[t].val() == ssum(sg_yterms(domain@, idxs@, gv, w as nat, t, 0)) % q() by {
            assert(sg_yterms(domain@, idxs@, gv, w as nat, t, 0).len() == 0);
        }
        assert(sg_eterms(lvals(evals@), gv, 0).len() == 0);
    }
    let mut i: usize = 0;
    while i < idxs.len()
        invariant
            i <= idxs@.len(),
            idxs@.len() == evals@.len(),
            forall|t: int| 0 <= t < idxs@.len() ==> #[trigger] idxs@[t] < domain@.len(),
            n_w == exp2(w as nat),
            gv == gamma.val(),
            cs@.len() == n_w,
            gp.val() == pow(gv, i as nat) % q(),
            forall|t: int| 0 <= t < n_w ==> #[trigger] cs@[t].val() == ssum(sg_yterms(domain@, idxs@, gv, w as nat, t, i as nat)) % q(),
            ce.log() == ssum(sg_eterms(lvals(evals@), gv, i as nat)) % q(),
        decreases idxs@.len() - i,
    {
        let y = domain[idxs[i]];
        let pv = generate_power_vec(y, w, false);
        let eq_i = MultilinearPoly::<Fr>::init_with_eq(pv.as_slice());
        proof {
            assert(lvals(pv@) =~= pow_vals(y.val(), w as nat));
            assert(eq_i.table() == sg_ytab(domain@[idxs@[i as int] as int].val(), w as nat));
        }
        let ghost cs_old = cs@;
        let mut k: usize = 0;
        while k < n_w
            invariant
                k <= n_w,
                n_w == eq_i.coeffs@.len(),
                cs@.len() == n_w,
                eq_i.table() == sg_ytab(domain@[idxs@[i as int] as int].val(), w as nat),
                gp.val() == pow(gv, i as nat) % q(),
                forall|t: int| k <= t < n_w ==> #[trigger] cs@[t] == cs_old[t],
                forall|t: int|
                    0 <= t < n_w ==> #[trigger] cs_old[t].val() == ssum(sg_yterms(domain@, idxs@, gv, w as nat, t, i as nat)) % q(),
                forall|t: int|
                    0 <= t < k ==> #[trigger] cs@[t].val() == ssum(sg_yterms(domain@, idxs@, gv, w as nat, t, (i + 1) as nat)) % q(),
            decreases n_w - k,
        {
            let sc = fr_mul(&eq_i.coeffs[k], &gp);
            let nv = fr_add(&cs[k], &sc);
            proof {
                let ts = sg_yterms(domain@, idxs@, gv, w as nat, k as int, (i + 1) as nat);
                assert(ts.drop_last() =~= sg_yterms(domain@, idxs@, gv, w as nat, k as int, i as nat));
                assert(ts.last() == eq_i.table()[k as int] * pow(gv, i as nat));
                lemma_acc(ssum(ts.drop_last()), eq_i.table()[k as int], pow(gv, i as nat));
            }
            cs.set(k, nv);
            k = k + 1;
        }
        let sce = crate::group::pt_scale(&evals[i], &gp);
        let nce = pt_add(&ce, &sce);
        proof {
            let es = sg_eterms(lvals(evals@), gv, (i + 1) as nat);
            assert(es.drop_last() =~= sg_eterms(lvals(evals@), gv, i as nat));
            lemma_acc(ssum(es.drop_last()), evals@[i as int].log(), pow(gv, i as nat));
            lemma_pow_next(gv, i as nat);
            lemma_mul_mod_noop_left(pow(gv, i as nat), gv, q());
        }
        ce = nce;
        gp = fr_mul(&gp, gamma);
        i = i + 1;
    }
    let lhs = Pt::inner_product_msm(g.as_slice(), cs.as_slice());
    proof {
        assert(lvals(cs@) =~= Seq::new(exp2(w as nat), |idx: int| ssum(sg_yterms(domain@, idxs@, gv, w as nat, idx, idxs@.len() as nat)) % q()));
        crate::group::Pt::lemma_log_range(&ce);
    }
    pt_eq(&lhs, &ce)
}


/// Whether the parts of the proof have the shapes the checks need.
fn sg_shape_check(proof: &SumCheckGroupProof, instance: &SumCheckGroupInstance) -> (ok: bool)
    requires
        instance.l <= instance.m,
        exp2(instance.m as nat) <= usize::MAX,
    ensures
        ok == sg_shape_ok(*proof, instance.m, instance.l, instance.domain_g@.len() as int),
{
    proof {
        lemma_exp2_monotone(instance.l as nat, instance.m as nat);
        lemma_exp2_monotone((instance.m - instance.l) as nat, instance.m as nat);
    }
    let leaf_size = pow2_usize(instance.l);
    let g_size = pow2_usize(instance.m - instance.l);
    let n = proof.leaves.len();
    if n == 0 || n != proof.evaluations.len() || proof.leaf_indices.len() != proof.evaluations.len()
        || proof.g_poly.coeffs.len() != g_size {
        return false;
    }
    let mut i: usize = 0;
    while i < n
        invariant
            i <= n,
            n == proof.leaves@.len(),
            n == proof.leaf_indices@.len(),
            leaf_size == exp2(instance.l as nat),
            forall|t: int| 0 <= t < i ==> (#[trigger] proof.leaves@[t])@.len() == leaf_size,
            forall|t: int| 0 <= t < i ==> #[trigger] proof.leaf_indices@[t] < instance.domain_g@.len(),
        decreases n - i,
    {
        if proof.leaves[i].len() != leaf_size || proof.leaf_indices[i] >= instance.domain_g.len() {
            return false;
        }
        i = i + 1;
    }
    true
}

impl ProtoSumCheckGroup {
    /// The verifier for given batching scalars: replays the rounds and checks
    /// each against the claim it starts from, reads the restricted
    /// polynomial, draws the query positions, and checks the claimed
    /// evaluations against the opened leaves (with `r`) and the restricted
    /// polynomial against the claimed evaluations (with `gamma`);
    /// `merkle_ok` is the verdict on the authentication paths of the leaves.
    pub fn verify_with_randomness(
        proof: &SumCheckGroupProof,
        instance: &SumCheckGroupInstance,
        transcript: &mut TitanTranscript,
        merkle_ok: bool,
        r: &Fr,
        gamma: &Fr,
    ) -> (ok: bool)
        requires
            instance.commitment@.len() <= u32::MAX,
            instance.l <= instance.m,
            instance.domain_g@.len() > 0,
            exp2(instance.m as nat) <= usize::MAX,
            proof.leaves@.len() * exp2(instance.l as nat) <= usize::MAX,
        ensures
            ok == sg_verdict(
                *proof,
                instance.m,
                instance.l,
                instance.domain_g@,
                instance.num_queries,
                instance.commitment@,
                instance.alpha@,
                instance.sigma,
                old(transcript)@,
                merkle_ok,
                r.val(),
                gamma.val(),
            ),
            proof.round_messages@.len() < instance.l ==> final(transcript)@ == old(transcript)@,
            proof.round_messages@.len() >= instance.l ==> final(transcript)@ == bp_query_log(
                sg_after_log(
                    sg_init_log(
                        old(transcript)@,
                        instance.m,
                        instance.l,
                        instance.commitment@,
                        instance.alpha@,
                        instance.sigma,
                    ),
                    proof.round_messages@,
                    instance.l as nat,
                    proof.g_poly.coeffs@,
                ),
                instance.num_queries as nat,
            ),
    {
        let l = instance.l;
        let m = instance.m;
        if proof.round_messages.len() < l {
            return false;
        }
        let ghost log0 = transcript@;
        sg_bind(instance, transcript);
        let ghost init = transcript@;
        let (rounds_ok, r_vec) = sg_replay_rounds(&proof.round_messages, l, &instance.sigma, transcript);
        sg_append_poly(transcript, &proof.g_poly.coeffs);
        let queries = sg_draw_queries(transcript, instance.num_queries, instance.domain_g.len());
        let shape_ok = sg_shape_check(proof, instance);
        if !shape_ok {
            return false;
        }
        let positions_ok = sg_positions_check(&proof.leaf_indices, &queries);
        proof {
            lemma_exp2_monotone(l as nat, m as nat);
            lemma_exp2_monotone((m - l) as nat, m as nat);
            assert(lvals(r_vec@).len() == r_vec@.len());
            assert(r_vec@.len() == l);
        }
        let eq_r = MultilinearPoly::<Fr>::init_with_eq(r_vec.as_slice());
        let eval_ok = sg_eval_check(&proof.leaves, &proof.evaluations, &eq_r.coeffs, r);
        let poly_ok = sg_poly_check(
            &proof.g_poly.coeffs,
            &instance.domain_g,
            &proof.leaf_indices,
            &proof.evaluations,
            gamma,
            m - l,
        );
        proof {
            assert(lvals(eq_r.coeffs@) == seq_mod(eq_table(Seq::new(l as nat, |j: int| gp_r(init, proof.round_messages@, j as nat))), q()));
        }
        rounds_ok && merkle_ok && positions_ok && eval_ok && poly_ok
    }

    /// The verifier: as `verify_with_randomness`, with both batching scalars
    /// drawn at random.
    pub fn verify(
        proof: &SumCheckGroupProof,
        instance: &SumCheckGroupInstance,
        transcript: &mut TitanTranscript,
        merkle_ok: bool,
    ) -> (ok: bool)
        requires
            instance.commitment@.len() <= u32::MAX,
            instance.l <= instance.m,
            instance.domain_g@.len() > 0,
            exp2(instance.m as nat) <= usize::MAX,
            proof.leaves@.len() * exp2(instance.l as nat) <= usize::MAX,
        ensures
            exists|r: int, gamma: int|
                0 <= r < q() && 0 <= gamma < q() && ok == sg_verdict(
                    *proof,
                    instance.m,
                    instance.l,
                    instance.domain_g@,
                    instance.num_queries,
                    instance.commitment@,
                    instance.alpha@,
                    instance.sigma,
                    old(transcript)@,
                    merkle_ok,
                    r,
                    gamma,
                ),
    {
        let r = crate::field::fr_random();
        let gamma = crate::field::fr_random();
        proof {
            r.lemma_val_range();
            gamma.lemma_val_range();
        }
        Self::verify_with_randomness(proof, instance, transcript, merkle_ok, &r, &gamma)
    }
}


/// The statement of the batched sum-check: the polynomials committed to by
/// the roots `commitments`, each in `m` variables, have the values `sigmas`
/// at the shared point `alpha`.
pub struct SumCheckGroupBatchInstance {
    pub m: usize,
    pub l: usize,
    pub domain_g: Vec<Fr>,
    pub commitments: Vec<Vec<u8>>,
    pub alpha: Vec<Fr>,
    pub sigmas: Vec<Pt>,
    pub num_queries: usize,
}

/// The batched proof apart from the authentication paths: the rounds and the
/// restricted polynomial of the combination, the opened positions, and for
/// each polynomial its opened leaves and their claimed evaluations.
pub struct SumCheckGroupBatchProof {
    pub round_messages: Vec<[Pt; 3]>,
    pub g_poly: MultilinearPoly<Pt>,
    pub leaf_indices: Vec<usize>,
    pub leaves: Vec<Vec<Vec<Pt>>>,
    pub evaluations: Vec<Vec<Pt>>,
}

impl SumCheckGroupBatchProof {
    /// The number of group elements in the proof apart from the opened
    /// leaves, given the number of Merkle nodes all its authentication paths
    /// transmit: the Merkle nodes, three per round and the restricted
    /// polynomial.
    pub fn get_proof_size(&self, merkle_nodes: usize) -> (r: usize)
        requires
            merkle_nodes + 3 * self.round_messages@.len() + self.g_poly.coeffs@.len() <= usize::MAX,
        ensures
            r == merkle_nodes + 3 * self.round_messages@.len() + self.g_poly.coeffs@.len(),
    {
        merkle_nodes + 3 * self.round_messages.len() + self.g_poly.coeffs.len()
    }
}

/// The tables of group elements as values in `Z_q`.
pub open spec fn tables_vals(t: Seq<Vec<Pt>>) -> Seq<Seq<int>> {
    Seq::new(t.len(), |i: int| lvals(t[i]@))
}

/// The combination `Σ_i γ^i · tabs[i]` of `n` entries, modulo `q`.
pub open spec fn sg_comb(tabs: Seq<Seq<int>>, gamma: int, n: nat) -> Seq<int> {
    Seq::new(n, |b: int| ssum(sg_comb_terms(tabs, gamma, b, tabs.len())) % q())
}

/// The terms `tabs[i][b] · γ^i` for `i < k`.
pub open spec fn sg_comb_terms(tabs: Seq<Seq<int>>, gamma: int, b: int, k: nat) -> Seq<int> {
    Seq::new(k, |i: int| tabs[i][b] * pow(gamma, i as nat))
}

/// One labelled message per commitment root.
pub open spec fn commit_msgs(log: Seq<TranscriptEntry>, cs: Seq<Seq<u8>>) -> Seq<TranscriptEntry> {
    log + Seq::new(cs.len(), |i: int| TranscriptEntry::Message("commitment"@, cs[i]))
}

/// The bytes of each root.
pub open spec fn roots_view(cs: Seq<Vec<u8>>) -> Seq<Seq<u8>> {
    cs.map_values(|c: Vec<u8>| c@)
}

/// The transcript once the batched statement is bound.
pub open spec fn sgb_init_log(
    log0: Seq<TranscriptEntry>,
    m: usize,
    l: usize,
    commitments: Seq<Seq<u8>>,
    alpha: Seq<Fr>,
    sigmas: Seq<Pt>,
) -> Seq<TranscriptEntry> {
    ser_msgs(
        ser_msgs(
            commit_msgs(
                log0.push(TranscriptEntry::Message("protocol"@, "batch_sumcheck".spec_bytes())).push(
                    TranscriptEntry::U64("k"@, commitments.len() as u64),
                ).push(TranscriptEntry::U64("instance.m"@, m as u64)).push(TranscriptEntry::U64("instance.l"@, l as u64)),
                commitments,
            ),
            "alpha"@,
            alpha,
        ),
        "sigma"@,
        sigmas,
    )
}

/// The combining challenge drawn after the statement.
pub open spec fn sgb_gamma(init: Seq<TranscriptEntry>) -> int {
    crate::transcript::challenge_scalar(crate::transcript::merlin_challenge(init, "gamma"@, 64))
}

/// Combines tables of one length with the powers of `gamma`.
fn sg_combine(tables: &Vec<Vec<Pt>>, gamma: &Fr, n: usize) -> (r: Vec<Pt>)
    requires
        forall|i: int| 0 <= i < tables@.len() ==> (#[trigger] tables@[i])@.len() == n,
    ensures
        r@.len() == n,
        lvals(r@) == sg_comb(tables_vals(tables@), gamma.val(), n as nat),
{
    let ghost tv = tables_vals(tables@);
    let ghost gv = gamma.val();
    let mut acc: Vec<Pt> = Vec::new();
    let id = crate::group::pt_identity();
    let mut j: usize = 0;
    while j < n
        invariant
            j <= n,
            acc@.len() == j,
            id.log() == 0,
            forall|t: int| 0 <= t < j ==> #[trigger] acc@[t].log() == 0,
        decreases n - j,
    {
        acc.push(id);
        j = j + 1;
    }
    let mut gp = fr_one();
    proof {
        lemma_pow_next(gv, 0);
        assert forall|t: int| 0 <= t < n implies #[trigger] acc@[t].log() == ssum(sg_comb_terms(tv, gv, t, 0)) % q() by {
            assert(sg_comb_terms(tv, gv, t, 0).len() == 0);
        }
    }
    let mut i: usize = 0;
    while i < tables.len()
        invariant
            i <= tables@.len(),
            tv == tables_vals(tables@),
            gv == gamma.val(),
            forall|t: int| 0 <= t < tables@.len() ==> (#[trigger] tables@[t])@.len() == n,
            acc@.len() == n,
            gp.val() == pow(gv, i as nat) % q(),
            forall|t: int| 0 <= t < n ==> #[trigger] acc@[t].log() == ssum(sg_comb_terms(tv, gv, t, i as nat)) % q(),
        decreases tables@.len() - i,
    {
        let ghost acc_old = acc@;
        let mut k: usize = 0;
        while k < n
            invariant
                k <= n,
                i < tables@.len(),
                tables@[i as int]@.len() == n,
                tv == tables_vals(tables@),
                acc@.len() == n,
                gp.val() == pow(gv, i as nat) % q(),
                forall|t: int| k <= t < n ==> #[trigger] acc@[t] == acc_old[t],
                forall|t: int| 0 <= t < n ==> #[trigger] acc_old[t].log() == ssum(sg_comb_terms(tv, gv, t, i as nat)) % q(),
                forall|t: int| 0 <= t < k ==> #[trigger] acc@[t].log() == ssum(sg_comb_terms(tv, gv, t, (i + 1) as nat)) % q(),
            decreases n - k,
        {
            let sc = crate::group::pt_scale(&tables[i][k], &gp);
            let nv = pt_add(&acc[k], &sc);
            proof {
                let ts = sg_comb_terms(tv, gv, k as int, (i + 1) as nat);
                assert(ts.drop_last() =~= sg_comb_terms(tv, gv, k as int, i as nat));
                assert(tv[i as int][k as int] == tables@[i as int]@[k as int].log());
                lemma_acc(ssum(ts.drop_last()), tv[i as int][k as int], pow(gv, i as nat));
            }
            acc.set(k, nv);
            k = k + 1;
        }
        proof {
            lemma_pow_next(gv, i as nat);
            lemma_mul_mod_noop_left(pow(gv, i as nat), gv, q());
        }
        gp = fr_mul(&gp, gamma);
        i = i + 1;
    }
    proof {
        assert(lvals(acc@) =~= sg_comb(tv, gv, n as nat));
    }
    acc
}

/// Binds the batched statement to the transcript.
fn sgb_bind(instance: &SumCheckGroupBatchInstance, transcript: &mut TitanTranscript)
    requires
        forall|i: int| 0 <= i < instance.commitments@.len() ==> (#[trigger] instance.commitments@[i])@.len() <= u32::MAX,
    ensures
        final(transcript)@ == sgb_init_log(
            old(transcript)@,
            instance.m,
            instance.l,
            roots_view(instance.commitments@),
            instance.alpha@,
            instance.sigmas@,
        ),
{
    let proto = "batch_sumcheck".as_bytes();
    proof {
        reveal_strlit("batch_sumcheck");
        vstd::string::is_ascii_spec_bytes("batch_sumcheck");
    }
    transcript.append_message("protocol", proto);
    transcript.append_u64("k", instance.commitments.len() as u64);
    transcript.append_u64("instance.m", instance.m as u64);
    transcript.append_u64("instance.l", instance.l as u64);
    let ghost base = transcript@;
    let mut k: usize = 0;
    proof {
        assert(commit_msgs(base, roots_view(instance.commitments@).take(0)) =~= base);
    }
    while k < instance.commitments.len()
        invariant
            k <= instance.commitments@.len(),
            forall|i: int| 0 <= i < instance.commitments@.len() ==> (#[trigger] instance.commitments@[i])@.len() <= u32::MAX,
            transcript@ == commit_msgs(base, roots_view(instance.commitments@).take(k as int)),
        decreases instance.commitments@.len() - k,
    {
        transcript.append_message("commitment", instance.commitments[k].as_slice());
        proof {
            assert(commit_msgs(base, roots_view(instance.commitments@).take(k + 1)) =~= commit_msgs(
                base,
                roots_view(instance.commitments@).take(k as int),
            ).push(TranscriptEntry::Message("commitment"@, instance.commitments@[k as int]@)));
        }
        k = k + 1;
    }
    proof {
        assert(roots_view(instance.commitments@).take(instance.commitments@.len() as int) =~= roots_view(instance.commitments@));
    }
    let ghost base2 = transcript@;
    let mut k: usize = 0;
    proof {
        assert(ser_msgs(base2, "alpha"@, instance.alpha@.take(0)) =~= base2);
    }
    while k < instance.alpha.len()
        invariant
            k <= instance.alpha@.len(),
            transcript@ == ser_msgs(base2, "alpha"@, instance.alpha@.take(k as int)),
        decreases instance.alpha@.len() - k,
    {
        append_to_transcript(transcript, "alpha", &instance.alpha[k]);
        proof {
            assert(ser_msgs(base2, "alpha"@, instance.alpha@.take(k + 1)) =~= ser_msgs(
                base2,
                "alpha"@,
                instance.alpha@.take(k as int),
            ).push(TranscriptEntry::Message("alpha"@, instance.alpha@[k as int].ser())));
        }
        k = k + 1;
    }
    proof {
        assert(instance.alpha@.take(instance.alpha@.len() as int) =~= instance.alpha@);
    }
    let ghost base3 = transcript@;
    let mut k: usize = 0;
    proof {
        assert(ser_msgs(base3, "sigma"@, instance.sigmas@.take(0)) =~= base3);
    }
    while k < instance.sigmas.len()
        invariant
            k <= instance.sigmas@.len(),
            transcript@ == ser_msgs(base3, "sigma"@, instance.sigmas@.take(k as int)),
        decreases instance.sigmas@.len() - k,
    {
        append_to_transcript(transcript, "sigma", &instance.sigmas[k]);
        proof {
            assert(ser_msgs(base3, "sigma"@, instance.sigmas@.take(k + 1)) =~= ser_msgs(
                base3,
                "sigma"@,
                instance.sigmas@.take(k as int),
            ).push(TranscriptEntry::Message("sigma"@, instance.sigmas@[k as int].ser())));
        }
        k = k + 1;
    }
    proof {
        assert(instance.sigmas@.take(instance.sigmas@.len() as int) =~= instance.sigmas@);
    }
}


/// The first `l` rounds from the tables `S_l, ..., S_1` (`s_tables[t]` is
/// `S_(l-t)`, the partial sums of `slv`): in round `i` the values
/// `g_i(0), g_i(1), g_i(2)` are appended and the challenge `r_i` is drawn.
fn sg_prove_rounds(
    m: usize,
    l: usize,
    alpha: &Vec<Fr>,
    s_tables: &Vec<Vec<Pt>>,
    slv: Ghost<Seq<int>>,
    transcript: &mut TitanTranscript,
) -> (r: (Vec<Fr>, Vec<[Pt; 3]>))
    requires
        1 <= l < m,
        alpha@.len() == m,
        gs_alpha_ok(alpha@, l as nat),
        s_tables@.len() == l,
        forall|t: int| 0 <= t < l ==> (#[trigger] s_tables@[t])@.len() == exp2((l - t) as nat),
        forall|t: int| 0 <= t < l ==> lvals((#[trigger] s_tables@[t])@) == sum_top_times(slv@, t as nat),
    ensures
        ({
            let init = old(transcript)@;
            let av = lvals(alpha@);
            let rv = lvals(r.0@);
            let tr = r.1@;
            &&& rv.len() == l
            &&& tr.len() == l
            &&& final(transcript)@ == gp_log(init, tr, l as nat)
            &&& forall|j: int| 0 <= j < l ==> #[trigger] rv[j] == gp_r(init, tr, j as nat)
            &&& forall|j: int, u: int|
                0 <= j < l && 0 <= u < 3 ==> #[trigger] tr[j][u].log() == gi_value(
                    sum_top_times(slv@, (l - j - 1) as nat),
                    av,
                    rv.take(j),
                    u,
                )
        }),
{
    let ghost init = transcript@;
    let ghost av = lvals(alpha@);
    let ghost slv = slv@;
    let mut r_vec: Vec<Fr> = Vec::new();
    let mut gi_triples: Vec<[Pt; 3]> = Vec::new();
    let u_values = [fr_from_u64(0), fr_from_u64(1), fr_from_u64(2)];
    let mut i: usize = 1;
    while i <= l
        invariant
            1 <= i <= l + 1,
            l < m,
            alpha@.len() == m,
            av == lvals(alpha@),
            gs_alpha_ok(alpha@, l as nat),
            s_tables@.len() == l,
            forall|t: int| 0 <= t < l ==> (#[trigger] s_tables@[t])@.len() == exp2((l - t) as nat),
            forall|t: int| 0 <= t < l ==> lvals((#[trigger] s_tables@[t])@) == sum_top_times(slv, t as nat),
            u_values@[0].val() == 0,
            u_values@[1].val() == 1,
            u_values@[2].val() == 2,
            r_vec@.len() == i - 1,
            gi_triples@.len() == i - 1,
            transcript@ == gp_log(init, gi_triples@, (i - 1) as nat),
            forall|j: int| 0 <= j < i - 1 ==> #[trigger] lvals(r_vec@)[j] == gp_r(init, gi_triples@, j as nat),
            forall|j: int, u: int|
                0 <= j < i - 1 && 0 <= u < 3 ==> #[trigger] gi_triples@[j][u].log() == gi_value(
                    sum_top_times(slv, (l - j - 1) as nat),
                    av,
                    lvals(r_vec@).take(j),
                    u,
                ),
        decreases l + 1 - i,
    {
        proof {
            assert(alpha@[i - 1].val() != 0);
        }
        let gi = compute_gi_values(
            m,
            i,
            l,
            alpha.as_slice(),
            r_vec.as_slice(),
            &s_tables,
            u_values.as_slice(),
        );
        let t = [gi[0], gi[1], gi[2]];
        append_to_transcript(transcript, "g_i(0)", &t[0]);
        append_to_transcript(transcript, "g_i(1)", &t[1]);
        append_to_transcript(transcript, "g_i(2)", &t[2]);
        let r_i = get_challenge(transcript, "r_i");
        let ghost rv_old = lvals(r_vec@);
        let ghost tr_old = gi_triples@;
        r_vec.push(r_i);
        gi_triples.push(t);
        proof {
            let rv_new = lvals(r_vec@);
            let tr_new = gi_triples@;
            assert(rv_new =~= rv_old.push(r_i.val()));
            assert(tr_new =~= tr_old.push(t));
            lemma_gp_log_prefix(init, tr_old, tr_new, (i - 1) as nat);
            assert(gp_msgs(gp_log(init, tr_new, (i - 1) as nat), t) == gp_msgs(
                gp_log(init, tr_old, (i - 1) as nat),
                t,
            ));
            assert forall|j: int| 0 <= j < i implies #[trigger] rv_new[j] == gp_r(init, tr_new, j as nat) by {
                if j < i - 1 {
                    lemma_gp_log_prefix(init, tr_old, tr_new, j as nat);
                    assert(tr_new[j] == tr_old[j]);
                }
            }
            assert forall|j: int, u: int|
                0 <= j < i && 0 <= u < 3 implies #[trigger] tr_new[j][u].log() == gi_value(
                sum_top_times(slv, (l - j - 1) as nat),
                av,
                rv_new.take(j),
                u,
            ) by {
                assert(rv_new.take(j) =~= rv_old.take(j));
                if j == i - 1 {
                    assert(rv_old.take(j) =~= rv_old);
                    assert(lvals(s_tables@[l - i]@) == sum_top_times(slv, (l - i) as nat));
                    assert(tr_new[j] == t);
                    assert((l - j - 1) as nat == (l - i) as nat);
                    if u == 0 {
                        assert(t[0] == gi@[0]);
                        assert(gi@[0].lin_val() == gi_value(lvals(s_tables@[l - i]@), av, rv_old, u_values@[0].val()));
                    } else if u == 1 {
                        assert(t[1] == gi@[1]);
                        assert(gi@[1].lin_val() == gi_value(lvals(s_tables@[l - i]@), av, rv_old, u_values@[1].val()));
                    } else {
                        assert(t[2] == gi@[2]);
                        assert(gi@[2].lin_val() == gi_value(lvals(s_tables@[l - i]@), av, rv_old, u_values@[2].val()));
                    }
                } else {
                    assert(tr_new[j] == tr_old[j]);
                }
            }
        }
        i = i + 1;
    }
    (r_vec, gi_triples)
}


/// The tables `S_l` of the polynomials.
pub open spec fn sgb_sl_tables(polys: Seq<MultilinearPoly<Pt>>, av: Seq<int>, l: nat) -> Seq<Seq<int>> {
    Seq::new(polys.len(), |i: int| seq_mod(sl_table(polys[i].table(), av, l), q()))
}

/// The polynomials restricted to the challenges `rv`.
pub open spec fn sgb_h_tables(polys: Seq<MultilinearPoly<Pt>>, rv: Seq<int>, w: nat) -> Seq<Seq<int>> {
    Seq::new(polys.len(), |i: int| seq_mod(restrict_lo(polys[i].table(), rv, w), q()))
}

/// What the batched prover produces for the statement with the given parts
/// and the polynomials `polys`, from the transcript `log0` to `log1`:
/// `gamma` is drawn after the statement, round `j` holds `g_j(0), g_j(1),
/// g_j(2)` from the `gamma`-combination of the partial sums, the restricted
/// polynomial is the `gamma`-combination of the polynomials restricted to the
/// challenges, and the query positions are drawn after it.
pub open spec fn sgb_prove_post(
    m: usize,
    l: usize,
    domain_len: int,
    commitments: Seq<Seq<u8>>,
    alpha: Seq<Fr>,
    sigmas: Seq<Pt>,
    num_queries: usize,
    polys: Seq<MultilinearPoly<Pt>>,
    log0: Seq<TranscriptEntry>,
    rounds: SumCheckGroupRounds,
    g: int,
    log1: Seq<TranscriptEntry>,
) -> bool {
    let init = sgb_init_log(log0, m, l, commitments, alpha, sigmas);
    let start = init.push(TranscriptEntry::Challenge("gamma"@, 64));
    let av = lvals(alpha);
    let rv = lvals(rounds.r_vec@);
    let tr = rounds.round_messages@;
    let slv = sg_comb(sgb_sl_tables(polys, av, l as nat), g, exp2(l as nat));
    let after = sg_after_log(start, tr, l as nat, rounds.g_poly.coeffs@);
    &&& g == sgb_gamma(init)
    &&& rv.len() == l
    &&& tr.len() == l
    &&& forall|j: int| 0 <= j < l ==> #[trigger] rv[j] == gp_r(start, tr, j as nat)
    &&& forall|j: int, u: int|
        0 <= j < l && 0 <= u < 3 ==> #[trigger] tr[j][u].log() == gi_value(
            sum_top_times(slv, (l - j - 1) as nat),
            av,
            rv.take(j),
            u,
        )
    &&& rounds.g_poly.wf()
    &&& rounds.g_poly.num_vars == m - l
    &&& rounds.g_poly.table() == sg_comb(sgb_h_tables(polys, rv, (m - l) as nat), g, exp2((m - l) as nat))
    &&& rounds.queries@.map_values(|y: usize| y as int) == bp_queries(after, num_queries as nat, domain_len)
    &&& forall|t: int| 0 <= t < rounds.queries@.len() ==> #[trigger] rounds.queries@[t] < domain_len
    &&& log1 == bp_query_log(after, num_queries as nat)
}

impl ProtoSumCheckGroup {
    /// The batched prover: binds the statement, draws `gamma`, runs the
    /// rounds on `Σ_i γ^i S_l(f_i)`, sends `Σ_i γ^i f_i` restricted to the
    /// round challenges and draws the positions to open. Returns the rounds
    /// and `gamma`.
    pub fn prove_batch_rounds(
        instance: &SumCheckGroupBatchInstance,
        polys: &Vec<MultilinearPoly<Pt>>,
        transcript: &mut TitanTranscript,
    ) -> (r: (SumCheckGroupRounds, Fr))
        requires
            1 <= instance.l < instance.m,
            polys@.len() == instance.commitments@.len(),
            polys@.len() == instance.sigmas@.len(),
            forall|i: int| 0 <= i < polys@.len() ==> (#[trigger] polys@[i]).wf() && polys@[i].num_vars == instance.m,
            instance.alpha@.len() == instance.m,
            gs_alpha_ok(instance.alpha@, instance.l as nat),
            forall|i: int| 0 <= i < instance.commitments@.len() ==> (#[trigger] instance.commitments@[i])@.len() <= u32::MAX,
            instance.domain_g@.len() > 0,
            exp2(instance.m as nat) <= usize::MAX,
        ensures
            sgb_prove_post(
                instance.m,
                instance.l,
                instance.domain_g@.len() as int,
                roots_view(instance.commitments@),
                instance.alpha@,
                instance.sigmas@,
                instance.num_queries,
                polys@,
                old(transcript)@,
                r.0,
                r.1.val(),
                final(transcript)@,
            ),
    {
        let m = instance.m;
        let l = instance.l;
        let ghost av = lvals(instance.alpha@);
        sgb_bind(instance, transcript);
        let gamma = get_challenge(transcript, "gamma");
        let ghost start = transcript@;
        proof {
            lemma_exp2_monotone(l as nat, m as nat);
            lemma_exp2_monotone((m - l) as nat, m as nat);
            lemma_exp2_pos(l as nat);
        }
        let n_l = pow2_usize(l);
        let mut s_ls: Vec<Vec<Pt>> = Vec::new();
        let mut i: usize = 0;
        while i < polys.len()
            invariant
                i <= polys@.len(),
                l < m,
                m == instance.m,
                l == instance.l,
                instance.alpha@.len() == m,
                av == lvals(instance.alpha@),
                n_l == exp2(l as nat),
                forall|t: int| 0 <= t < polys@.len() ==> (#[trigger] polys@[t]).wf() && polys@[t].num_vars == m,
                s_ls@.len() == i,
                forall|t: int| 0 <= t < i ==> (#[trigger] s_ls@[t])@.len() == n_l,
                forall|t: int| 0 <= t < i ==> lvals((#[trigger] s_ls@[t])@) == seq_mod(sl_table(polys@[t].table(), av, l as nat), q()),
            decreases polys@.len() - i,
        {
            let sl = compute_Sl_poly(m, l, &polys[i], instance.alpha.as_slice());
            s_ls.push(sl.coeffs);
            i = i + 1;
        }
        proof {
            assert(tables_vals(s_ls@) =~= sgb_sl_tables(polys@, av, l as nat));
        }
        let s_l = sg_combine(&s_ls, &gamma, n_l);
        let ghost slv = lvals(s_l@);
        let s_tables = compute_all_S_tables(s_l, l);
        let (r_vec, gi_triples) = sg_prove_rounds(m, l, &instance.alpha, &s_tables, Ghost(slv), transcript);
        let ghost rv = lvals(r_vec@);
        proof {
            assert(r_vec@.len() == l);
        }
        let n_w = pow2_usize(m - l);
        let mut hs: Vec<Vec<Pt>> = Vec::new();
        let mut i: usize = 0;
        while i < polys.len()
            invariant
                i <= polys@.len(),
                l < m,
                r_vec@.len() == l,
                rv == lvals(r_vec@),
                n_w == exp2((m - l) as nat),
                forall|t: int| 0 <= t < polys@.len() ==> (#[trigger] polys@[t]).wf() && polys@[t].num_vars == m,
                hs@.len() == i,
                forall|t: int| 0 <= t < i ==> (#[trigger] hs@[t])@.len() == n_w,
                forall|t: int| 0 <= t < i ==> lvals((#[trigger] hs@[t])@) == seq_mod(restrict_lo(polys@[t].table(), rv, (m - l) as nat), q()),
            decreases polys@.len() - i,
        {
            let h = polys[i].restrict(r_vec.as_slice());
            hs.push(h.coeffs);
            i = i + 1;
        }
        proof {
            assert(tables_vals(hs@) =~= sgb_h_tables(polys@, rv, (m - l) as nat));
        }
        let h_coeffs = sg_combine(&hs, &gamma, n_w);
        let h_poly = MultilinearPoly { coeffs: h_coeffs, num_vars: m - l };
        sg_append_poly(transcript, &h_poly.coeffs);
        let queries = sg_draw_queries(transcript, instance.num_queries, instance.domain_g.len());
        (SumCheckGroupRounds { round_messages: gi_triples, g_poly: h_poly, r_vec, queries }, gamma)
    }
}

/// The openings of a batched proof for the rounds `rounds` on the
/// polynomials `gs` in `m` variables, with leaves of `2^l` points over
/// `domain`: each queried position once, in increasing order, each
/// polynomial's coset leaves there, and their values at the round challenges.
pub open spec fn sgb_openings_ok(
    domain: Seq<Fr>,
    gs: Seq<MultilinearPoly<Pt>>,
    m: nat,
    l: nat,
    rounds: SumCheckGroupRounds,
    p: SumCheckGroupBatchProof,
) -> bool {
    let idx = p.leaf_indices@;
    &&& forall|a: int, b: int| 0 <= a < b < idx.len() ==> idx[a] < idx[b]
    &&& forall|t: int| 0 <= t < idx.len() ==> rounds.queries@.contains(#[trigger] idx[t])
    &&& forall|t: int| 0 <= t < rounds.queries@.len() ==> idx.contains(#[trigger] rounds.queries@[t])
    &&& p.leaves@.len() == gs.len()
    &&& p.evaluations@.len() == gs.len()
    &&& forall|i: int| 0 <= i < gs.len() ==> (#[trigger] p.leaves@[i])@.len() == idx.len() && p.evaluations@[i]@.len() == idx.len()
    &&& forall|i: int, t: int|
        0 <= i < gs.len() && 0 <= t < idx.len() ==> crate::pcs::coset_leaf_ok(
            gs[i].table(),
            l,
            (m - l) as nat,
            domain[idx[t] as int],
            #[trigger] p.leaves@[i]@[t],
        )
    &&& forall|i: int, t: int|
        0 <= i < gs.len() && 0 <= t < idx.len() ==> (#[trigger] p.evaluations@[i]@[t]).log() == dot(
            lvals(p.leaves@[i]@[t]@),
            seq_mod(eq_table(lvals(rounds.r_vec@)), q()),
        ) % q()
}

impl ProtoSumCheckGroup {
    /// The batched prover: the rounds for the `gamma`-combination, then the
    /// opened positions, each polynomial's coset leaves there and their
    /// values at the round challenges (the proof apart from the
    /// authentication paths). Returns the proof and `gamma`.
    pub fn prove_batch(
        instance: &SumCheckGroupBatchInstance,
        polys: &Vec<MultilinearPoly<Pt>>,
        transcript: &mut TitanTranscript,
    ) -> (r: (SumCheckGroupBatchProof, Fr))
        requires
            1 <= instance.l < instance.m,
            polys@.len() == instance.commitments@.len(),
            polys@.len() == instance.sigmas@.len(),
            forall|i: int| 0 <= i < polys@.len() ==> (#[trigger] polys@[i]).wf() && polys@[i].num_vars == instance.m,
            instance.alpha@.len() == instance.m,
            gs_alpha_ok(instance.alpha@, instance.l as nat),
            forall|i: int| 0 <= i < instance.commitments@.len() ==> (#[trigger] instance.commitments@[i])@.len() <= u32::MAX,
            instance.domain_g@.len() > 0,
            exp2(instance.m as nat) <= usize::MAX,
        ensures
            exists|rounds: SumCheckGroupRounds|
                #![trigger sgb_prove_post(instance.m, instance.l, instance.domain_g@.len() as int, roots_view(instance.commitments@), instance.alpha@, instance.sigmas@, instance.num_queries, polys@, old(transcript)@, rounds, r.1.val(), final(transcript)@)]
                {
                    &&& sgb_prove_post(
                        instance.m,
                        instance.l,
                        instance.domain_g@.len() as int,
                        roots_view(instance.commitments@),
                        instance.alpha@,
                        instance.sigmas@,
                        instance.num_queries,
                        polys@,
                        old(transcript)@,
                        rounds,
                        r.1.val(),
                        final(transcript)@,
                    )
                    &&& r.0.round_messages == rounds.round_messages
                    &&& r.0.g_poly == rounds.g_poly
                    &&& sgb_openings_ok(instance.domain_g@, polys@, instance.m as nat, instance.l as nat, rounds, r.0)
                },
            (r.0.round_messages@[0][0].log() + r.0.round_messages@[0][1].log()) % q() == crate::pcs::gamma_sum(
                Seq::new(polys@.len(), |i: int| mle(polys@[i].table(), lvals(instance.alpha@))),
                r.1.val(),
            ) % q(),
    {
        let ghost log0 = transcript@;
        let (rounds, gamma) = Self::prove_batch_rounds(instance, polys, transcript);
        let ghost r0 = rounds;
        let ghost log1 = transcript@;
        // the inverses of 1 - alpha_0 and alpha_0, which the first round divides by
        let a0 = instance.alpha[0];
        let om = crate::field::fr_one_minus(&a0);
        proof {
            assert(gs_alpha_ok_at(instance.alpha@, 1));
            a0.lemma_val_range();
            if om.val() == 0 {
                vstd::arithmetic::div_mod::lemma_small_mod(a0.val() as nat, q() as nat);
                assert(a0.val() == 1) by {
                    vstd::arithmetic::div_mod::lemma_fundamental_div_mod(1 - a0.val(), q());
                }
            }
        }
        let inv_om = crate::group_sumcheck::invert_nonzero(&om);
        let inv_a0 = crate::group_sumcheck::invert_nonzero(&a0);
        proof {
            let av = lvals(instance.alpha@);
            assert(av[0] == a0.val());
            lemma_mul_mod_noop_left(1 - av[0], inv_om.val(), q());
            assert(is_inverse(1 - av[0], inv_om.val()));
            assert(is_inverse(av[0], inv_a0.val()));
            let fs = Seq::new(polys@.len(), |i: int| polys@[i].table());
            crate::sumcheck_laws::law_group_batch_first_round_sums_to_claim(fs, av, instance.l as nat, gamma.val());
            assert(sgb_sl_tables(polys@, av, instance.l as nat) =~= Seq::new(fs.len(), |i: int| seq_mod(sl_table(fs[i], av, instance.l as nat), q())));
            assert(Seq::new(fs.len(), |i: int| mle(fs[i], av)) =~= Seq::new(polys@.len(), |i: int| mle(polys@[i].table(), av)));
            assert(lvals(rounds.r_vec@).take(0) =~= Seq::<int>::empty());
        }
        let k = polys.len();
        let l = instance.l;
        let m = instance.m;
        let leaf_indices = crate::pcs::opened_positions(&rounds.queries, instance.domain_g.len());
        proof {
            assert forall|t: int| 0 <= t < leaf_indices@.len() implies #[trigger] leaf_indices@[t] < instance.domain_g@.len() by {
                let s = choose|s: int| 0 <= s < rounds.queries@.len() && rounds.queries@[s] == leaf_indices@[t];
            }
            lemma_exp2_monotone(l as nat, m as nat);
        }
        let mut leaves: Vec<Vec<Vec<Pt>>> = Vec::new();
        let mut evaluations: Vec<Vec<Pt>> = Vec::new();
        let mut i: usize = 0;
        while i < k
            invariant
                i <= k,
                k == polys@.len(),
                l == instance.l,
                m == instance.m,
                1 <= l < m,
                exp2(m as nat) <= usize::MAX,
                exp2(l as nat) <= usize::MAX,
                rounds.r_vec@.len() == l,
                forall|t: int| 0 <= t < polys@.len() ==> (#[trigger] polys@[t]).wf() && polys@[t].num_vars == m,
                forall|t: int| 0 <= t < leaf_indices@.len() ==> #[trigger] leaf_indices@[t] < instance.domain_g@.len(),
                leaves@.len() == i,
                evaluations@.len() == i,
                forall|s: int|
                    0 <= s < i ==> (#[trigger] leaves@[s])@.len() == leaf_indices@.len() && evaluations@[s]@.len()
                        == leaf_indices@.len(),
                forall|s: int, t: int|
                    0 <= s < i && 0 <= t < leaf_indices@.len() ==> crate::pcs::coset_leaf_ok(
                        polys@[s].table(),
                        l as nat,
                        (m - l) as nat,
                        instance.domain_g@[leaf_indices@[t] as int],
                        #[trigger] leaves@[s]@[t],
                    ),
                forall|s: int, t: int|
                    0 <= s < i && 0 <= t < leaf_indices@.len() ==> (#[trigger] evaluations@[s]@[t]).log() == dot(
                        lvals(leaves@[s]@[t]@),
                        seq_mod(eq_table(lvals(rounds.r_vec@)), q()),
                    ) % q(),
            decreases k - i,
        {
            let lv = crate::pcs::coset_leaves(&polys[i], l, &instance.domain_g, &leaf_indices);
            proof {
                assert forall|t: int| 0 <= t < lv@.len() implies (#[trigger] lv@[t])@.len() == exp2(rounds.r_vec@.len() as nat) by {
                    assert(crate::pcs::coset_leaf_ok(polys@[i as int].table(), l as nat, (m - l) as nat, instance.domain_g@[leaf_indices@[t] as int], lv@[t]));
                }
            }
            let ev = opening_evaluations(&lv, &rounds.r_vec);
            let ghost (lvg, evg, lold, eold) = (lv, ev, leaves@, evaluations@);
            leaves.push(lv);
            evaluations.push(ev);
            proof {
                assert(leaves@ == lold.push(lvg));
                assert(evaluations@ == eold.push(evg));
                assert forall|s: int| 0 <= s < i + 1 implies (#[trigger] leaves@[s])@.len() == leaf_indices@.len()
                    && evaluations@[s]@.len() == leaf_indices@.len() by {
                    if s < i {
                        assert(leaves@[s] == lold[s]);
                        assert(evaluations@[s] == eold[s]);
                    } else {
                        assert(leaves@[s] == lvg);
                        assert(evaluations@[s] == evg);
                        assert(lvg@.len() == leaf_indices@.len());
                        assert(evg@.len() == lvg@.len());
                    }
                }
            }
            i = i + 1;
        }
        let p = SumCheckGroupBatchProof {
            round_messages: rounds.round_messages,
            g_poly: rounds.g_poly,
            leaf_indices,
            leaves,
            evaluations,
        };
        proof {
            assert(sgb_openings_ok(instance.domain_g@, polys@, m as nat, l as nat, r0, p));
            assert(sgb_prove_post(
                instance.m,
                instance.l,
                instance.domain_g@.len() as int,
                roots_view(instance.commitments@),
                instance.alpha@,
                instance.sigmas@,
                instance.num_queries,
                polys@,
                log0,
                r0,
                gamma.val(),
                log1,
            ));
            assert(p.round_messages == r0.round_messages);
            assert(p.g_poly == r0.g_poly);
        }
        let r = (p, gamma);
        proof {
            assert(sgb_openings_ok(instance.domain_g@, polys@, m as nat, l as nat, r0, r.0));
            assert(r.0.round_messages == r0.round_messages && r.0.g_poly == r0.g_poly);
            assert(sgb_prove_post(instance.m, instance.l, instance.domain_g@.len() as int, roots_view(instance.commitments@), instance.alpha@, instance.sigmas@, instance.num_queries, polys@, log0, r0, r.1.val(), log1));
        }
        r
    }
}


/// Whether the parts of a batched proof have the shapes the checks need.
pub open spec fn sgb_shape_ok(proof: SumCheckGroupBatchProof, m: usize, l: usize, k: nat, domain_len: int) -> bool {
    let n = proof.leaf_indices@.len();
    &&& k > 0
    &&& proof.leaves@.len() == k
    &&& proof.evaluations@.len() == k
    &&& n > 0
    &&& forall|i: int| 0 <= i < k ==> (#[trigger] proof.leaves@[i])@.len() == n && proof.evaluations@[i]@.len() == n
    &&& forall|i: int, j: int| 0 <= i < k && 0 <= j < n ==> (#[trigger] proof.leaves@[i]@[j])@.len() == exp2(l as nat)
    &&& forall|j: int| 0 <= j < n ==> #[trigger] proof.leaf_indices@[j] < domain_len
    &&& proof.g_poly.coeffs@.len() == exp2((m - l) as nat)
}

/// The batched verifier's verdict, for the verdict `merkle_ok` on all the
/// authentication paths, the batching scalars `rs` (one per polynomial) of
/// the leaf checks and `delta` of the check of the restricted polynomial.
pub open spec fn sgb_verdict(
    proof: SumCheckGroupBatchProof,
    m: usize,
    l: usize,
    domain: Seq<Fr>,
    nq: usize,
    commitments: Seq<Seq<u8>>,
    alpha: Seq<Fr>,
    sigmas: Seq<Pt>,
    log0: Seq<TranscriptEntry>,
    merkle_ok: bool,
    rs: Seq<int>,
    delta: int,
) -> bool {
    let init = sgb_init_log(log0, m, l, commitments, alpha, sigmas);
    let start = init.push(TranscriptEntry::Challenge("gamma"@, 64));
    let g = sgb_gamma(init);
    let sigma = ssum(sg_eterms(lvals(sigmas), g, sigmas.len())) % q();
    let tr = proof.round_messages@;
    let rv = Seq::new(l as nat, |j: int| gp_r(start, tr, j as nat));
    &&& tr.len() >= l
    &&& forall|j: int| 0 <= j < l ==> #[trigger] sg_round_ok(start, tr, sigma, j)
    &&& merkle_ok
    &&& sgb_shape_ok(proof, m, l, commitments.len(), domain.len() as int)
    &&& sg_positions_ok(
        proof.leaf_indices@,
        bp_queries(sg_after_log(start, tr, l as nat, proof.g_poly.coeffs@), nq as nat, domain.len() as int),
    )
    &&& forall|i: int|
        0 <= i < commitments.len() ==> #[trigger] sg_eval_ok(
            proof.leaves@[i]@,
            proof.evaluations@[i]@,
            seq_mod(eq_table(rv), q()),
            rs[i],
        )
    &&& sg_poly_ok(
        proof.g_poly.coeffs@,
        domain,
        proof.leaf_indices@,
        sg_comb(tables_vals(proof.evaluations@), g, proof.leaf_indices@.len()),
        delta,
        (m - l) as nat,
    )
}

/// Whether the parts of a batched proof have the shapes the checks need.
fn sgb_shape_check(proof: &SumCheckGroupBatchProof, instance: &SumCheckGroupBatchInstance) -> (ok: bool)
    requires
        instance.l <= instance.m,
        exp2(instance.m as nat) <= usize::MAX,
    ensures
        ok == sgb_shape_ok(*proof, instance.m, instance.l, instance.commitments@.len(), instance.domain_g@.len() as int),
{
    proof {
        lemma_exp2_monotone(instance.l as nat, instance.m as nat);
        lemma_exp2_monotone((instance.m - instance.l) as nat, instance.m as nat);
    }
    let leaf_size = pow2_usize(instance.l);
    let g_size = pow2_usize(instance.m - instance.l);
    let k = instance.commitments.len();
    let n = proof.leaf_indices.len();
    if k == 0 || proof.leaves.len() != k || proof.evaluations.len() != k || n == 0 || proof.g_poly.coeffs.len() != g_size {
        return false;
    }
    let mut j: usize = 0;
    while j < n
        invariant
            j <= n,
            n == proof.leaf_indices@.len(),
            forall|t: int| 0 <= t < j ==> #[trigger] proof.leaf_indices@[t] < instance.domain_g@.len(),
        decreases n - j,
    {
        if proof.leaf_indices[j] >= instance.domain_g.len() {
            return false;
        }
        j = j + 1;
    }
    let mut i: usize = 0;
    while i < k
        invariant
            i <= k,
            k == proof.leaves@.len(),
            k == proof.evaluations@.len(),
            n == proof.leaf_indices@.len(),
            leaf_size == exp2(instance.l as nat),
            forall|t: int| 0 <= t < i ==> (#[trigger] proof.leaves@[t])@.len() == n,
            forall|t: int| 0 <= t < i ==> (#[trigger] proof.evaluations@[t])@.len() == n,
            forall|t: int, s: int| 0 <= t < i && 0 <= s < n ==> (#[trigger] proof.leaves@[t]@[s])@.len() == leaf_size,
        decreases k - i,
    {
        if proof.leaves[i].len() != n || proof.evaluations[i].len() != n {
            return false;
        }
        let mut s: usize = 0;
        while s < n
            invariant
                s <= n,
                i < k,
                k == proof.leaves@.len(),
                k == proof.evaluations@.len(),
                n == proof.leaf_indices@.len(),
                proof.leaves@[i as int]@.len() == n,
                proof.evaluations@[i as int]@.len() == n,
                leaf_size == exp2(instance.l as nat),
                forall|t: int| 0 <= t < i ==> (#[trigger] proof.leaves@[t])@.len() == n,
                forall|t: int| 0 <= t < i ==> (#[trigger] proof.evaluations@[t])@.len() == n,
                forall|t: int, u: int| 0 <= t < i && 0 <= u < n ==> (#[trigger] proof.leaves@[t]@[u])@.len() == leaf_size,
                forall|t: int| 0 <= t < s ==> (#[trigger] proof.leaves@[i as int]@[t])@.len() == leaf_size,
            decreases n - s,
        {
            if proof.leaves[i][s].len() != leaf_size {
                return false;
            }
            s = s + 1;
        }
        proof {
            assert forall|t: int| 0 <= t < i + 1 implies (#[trigger] proof.leaves@[t])@.len() == n by {
                if t < i {
                    assert(proof.leaves@[t]@.len() == n);
                }
            }
            assert forall|t: int| 0 <= t < i + 1 implies (#[trigger] proof.evaluations@[t])@.len() == n by {
                if t < i {
                    assert(proof.evaluations@[t]@.len() == n);
                }
            }
        }
        i = i + 1;
    }
    true
}

impl ProtoSumCheckGroup {
    /// The batched verifier for given batching scalars: binds the
    /// statement, draws `gamma`, replays the rounds against
    /// `Σ_i γ^i σ_i`, reads the restricted polynomial, draws the query
    /// positions, checks each polynomial's claimed evaluations against its
    /// opened leaves (with `rs[i]`) and the restricted polynomial against
    /// the combined evaluations (with `delta`). Returns the verdict and
    /// `gamma`.
    pub fn verify_batch_with_randomness(
        proof: &SumCheckGroupBatchProof,
        instance: &SumCheckGroupBatchInstance,
        transcript: &mut TitanTranscript,
        merkle_ok: bool,
        rs: &Vec<Fr>,
        delta: &Fr,
    ) -> (r: (bool, Fr))
        requires
            forall|i: int| 0 <= i < instance.commitments@.len() ==> (#[trigger] instance.commitments@[i])@.len() <= u32::MAX,
            instance.l <= instance.m,
            instance.domain_g@.len() > 0,
            exp2(instance.m as nat) <= usize::MAX,
            rs@.len() == instance.commitments@.len(),
            proof.leaf_indices@.len() * exp2(instance.l as nat) <= usize::MAX,
        ensures
            ({
                let init = sgb_init_log(
                    old(transcript)@,
                    instance.m,
                    instance.l,
                    roots_view(instance.commitments@),
                    instance.alpha@,
                    instance.sigmas@,
                );
                let start = init.push(TranscriptEntry::Challenge("gamma"@, 64));
                &&& r.1.val() == sgb_gamma(init)
                &&& r.0 == sgb_verdict(
                    *proof,
                    instance.m,
                    instance.l,
                    instance.domain_g@,
                    instance.num_queries,
                    roots_view(instance.commitments@),
                    instance.alpha@,
                    instance.sigmas@,
                    old(transcript)@,
                    merkle_ok,
                    lvals(rs@),
                    delta.val(),
                )
                &&& proof.round_messages@.len() < instance.l ==> final(transcript)@ == start
                &&& proof.round_messages@.len() >= instance.l ==> final(transcript)@ == bp_query_log(
                    sg_after_log(start, proof.round_messages@, instance.l as nat, proof.g_poly.coeffs@),
                    instance.num_queries as nat,
                )
            }),
    {
        let l = instance.l;
        let m = instance.m;
        sgb_bind(instance, transcript);
        let ghost init = transcript@;
        let gamma = get_challenge(transcript, "gamma");
        let ghost start = transcript@;
        let ghost gv = gamma.val();
        let mut sigma = crate::group::pt_identity();
        let mut gp = fr_one();
        let mut i: usize = 0;
        proof {
            lemma_pow_next(gv, 0);
            assert(sg_eterms(lvals(instance.sigmas@), gv, 0).len() == 0);
        }
        while i < instance.sigmas.len()
            invariant
                i <= instance.sigmas@.len(),
                gv == gamma.val(),
                gp.val() == pow(gv, i as nat) % q(),
                sigma.log() == ssum(sg_eterms(lvals(instance.sigmas@), gv, i as nat)) % q(),
            decreases instance.sigmas@.len() - i,
        {
            let sc = crate::group::pt_scale(&instance.sigmas[i], &gp);
            let ns = pt_add(&sigma, &sc);
            proof {
                let es = sg_eterms(lvals(instance.sigmas@), gv, (i + 1) as nat);
                assert(es.drop_last() =~= sg_eterms(lvals(instance.sigmas@), gv, i as nat));
                lemma_acc(ssum(es.drop_last()), instance.sigmas@[i as int].log(), pow(gv, i as nat));
                lemma_pow_next(gv, i as nat);
                lemma_mul_mod_noop_left(pow(gv, i as nat), gv, q());
            }
            sigma = ns;
            gp = fr_mul(&gp, &gamma);
            i = i + 1;
        }
        if proof.round_messages.len() < l {
            return (false, gamma);
        }
        let (rounds_ok, r_vec) = sg_replay_rounds(&proof.round_messages, l, &sigma, transcript);
        sg_append_poly(transcript, &proof.g_poly.coeffs);
        let queries = sg_draw_queries(transcript, instance.num_queries, instance.domain_g.len());
        let shape_ok = sgb_shape_check(proof, instance);
        if !shape_ok {
            return (false, gamma);
        }
        let positions_ok = sg_positions_check(&proof.leaf_indices, &queries);
        proof {
            lemma_exp2_monotone(l as nat, m as nat);
            lemma_exp2_monotone((m - l) as nat, m as nat);
            assert(lvals(r_vec@).len() == r_vec@.len());
            assert(r_vec@.len() == l);
        }
        let eq_r = MultilinearPoly::<Fr>::init_with_eq(r_vec.as_slice());
        let ghost ev = seq_mod(eq_table(Seq::new(l as nat, |j: int| gp_r(start, proof.round_messages@, j as nat))), q());
        proof {
            assert(lvals(eq_r.coeffs@) == ev);
        }
        let k = instance.commitments.len();
        let mut evals_ok = true;
        let mut i: usize = 0;
        while i < k
            invariant
                i <= k,
                k == instance.commitments@.len(),
                rs@.len() == k,
                sgb_shape_ok(*proof, instance.m, instance.l, instance.commitments@.len(), instance.domain_g@.len() as int),
                lvals(eq_r.coeffs@) == ev,
                eq_r.coeffs@.len() == exp2(l as nat),
                l == instance.l,
                proof.leaf_indices@.len() * exp2(instance.l as nat) <= usize::MAX,
                evals_ok == (forall|t: int|
                    0 <= t < i ==> #[trigger] sg_eval_ok(proof.leaves@[t]@, proof.evaluations@[t]@, ev, lvals(rs@)[t])),
            decreases k - i,
        {
            proof {
                assert(proof.leaves@[i as int]@.len() == proof.leaf_indices@.len());
                assert forall|j: int| 0 <= j < proof.leaves@[i as int]@.len() implies (#[trigger] proof.leaves@[i as int]@[j])@.len()
                    == eq_r.coeffs@.len() by {
                    assert((proof.leaves@[i as int]@[j])@.len() == exp2(instance.l as nat));
                }
            }
            let ok_i = sg_eval_check(&proof.leaves[i], &proof.evaluations[i], &eq_r.coeffs, &rs[i]);
            proof {
                assert(lvals(rs@)[i as int] == rs@[i as int].val());
            }
            evals_ok = evals_ok && ok_i;
            i = i + 1;
        }
        proof {
            assert forall|t: int| 0 <= t < proof.evaluations@.len() implies (#[trigger] proof.evaluations@[t])@.len()
                == proof.leaf_indices@.len() by {
                assert(proof.leaves@[t]@.len() == proof.leaf_indices@.len());
            }
        }
        let combined = sg_combine(&proof.evaluations, &gamma, proof.leaf_indices.len());
        let poly_ok = sg_poly_check(
            &proof.g_poly.coeffs,
            &instance.domain_g,
            &proof.leaf_indices,
            &combined,
            delta,
            m - l,
        );
        (rounds_ok && merkle_ok && positions_ok && evals_ok && poly_ok, gamma)
    }

    /// The batched verifier: as `verify_batch_with_randomness`, with the
    /// batching scalars drawn at random.
    pub fn verify_batch(
        proof: &SumCheckGroupBatchProof,
        instance: &SumCheckGroupBatchInstance,
        transcript: &mut TitanTranscript,
        merkle_ok: bool,
    ) -> (r: (bool, Fr))
        requires
            forall|i: int| 0 <= i < instance.commitments@.len() ==> (#[trigger] instance.commitments@[i])@.len() <= u32::MAX,
            instance.l <= instance.m,
            instance.domain_g@.len() > 0,
            exp2(instance.m as nat) <= usize::MAX,
            proof.leaf_indices@.len() * exp2(instance.l as nat) <= usize::MAX,
        ensures
            r.1.val() == sgb_gamma(
                sgb_init_log(
                    old(transcript)@,
                    instance.m,
                    instance.l,
                    roots_view(instance.commitments@),
                    instance.alpha@,
                    instance.sigmas@,
                ),
            ),
            exists|rs: Seq<int>, delta: int|
                rs.len() == instance.commitments@.len() && r.0 == sgb_verdict(
                    *proof,
                    instance.m,
                    instance.l,
                    instance.domain_g@,
                    instance.num_queries,
                    roots_view(instance.commitments@),
                    instance.alpha@,
                    instance.sigmas@,
                    old(transcript)@,
                    merkle_ok,
                    rs,
                    delta,
                ),
    {
        let mut rs: Vec<Fr> = Vec::new();
        let mut i: usize = 0;
        while i < instance.commitments.len()
            invariant
                i <= instance.commitments@.len(),
                rs@.len() == i,
            decreases instance.commitments@.len() - i,
        {
            rs.push(crate::field::fr_random());
            i = i + 1;
        }
        let delta = crate::field::fr_random();
        let r = Self::verify_batch_with_randomness(proof, instance, transcript, merkle_ok, &rs, &delta);
        proof {
            assert(lvals(rs@).len() == instance.commitments@.len());
        }
        r
    }
}

} // verus!
