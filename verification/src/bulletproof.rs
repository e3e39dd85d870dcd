//! The inner-product argument read as a sum-check over the Pallas group: the
//! prover shows that `C = Σ_b a[b] · g[b]` and `a(α) = σ` by halving both
//! claims with one challenge per round, then sends the folded witness and the
//! folded generators, which the verifier checks against a coset-wise
//! commitment to the generators.
use vstd::prelude::*;
use vstd::string::StringSliceAdditionalSpecFns;
use vstd::arithmetic::power::pow;
use vstd::arithmetic::div_mod::{lemma_mul_mod_noop_left, lemma_mul_mod_noop_right, lemma_mod_twice, lemma_small_mod};
use crate::field::{q, le_val, Fr, fr_one, fr_mul, fr_add, fr_eq, fr_one_minus};
use crate::group::Pt;
use crate::traits::{Linear, InnerProduct, ByteSerializable, lvals, linear_combination};
use crate::sums::{dot, ssum, exp2, min_len, lemma_exp2_pos, lemma_exp2_adds, lemma_exp2_monotone, lemma_ssum_add, lemma_ssum_scale, lemma_ssum_split, lemma_ssum_mod};
use crate::mle::{eq_table, seq_mod, fold_hi, restrict_hi};
use crate::multilinear::{MultilinearPoly, pow2_usize};
use crate::utils::{rev_bits, reverse_bits, lemma_rev_bits_range, create_smooth_domain, generate_power_vec, gen_idx};
use crate::transcript::{TitanTranscript, TranscriptEntry, merlin_challenge, challenge_scalar, append_to_transcript, get_challenge};
use crate::group_sumcheck::scalar_msgs;

verus! {

/// Public parameters: `2^m` generators as the table of `c_poly`, the same
/// generators with bit-reversed indices as `g_poly`, and `g_poly` restricted
/// in its last `m - l` variables to `(y, y^2, ..., y^(2^(m-l-1)))` for every
/// `y` of a domain of size `2^l`.
#[derive(Clone, Debug)]
pub struct BulletProofParams<C> {
    pub m: usize,
    pub l: usize,
    pub g_poly: MultilinearPoly<C>,
    pub c_poly: MultilinearPoly<C>,
    pub g_by_cosets: Vec<Vec<C>>,
    pub domain_g: Vec<Fr>,
}

/// `[y, y^2, y^4, ..., y^(2^(k-1))]` modulo `q`.
pub open spec fn pow_vals(y: int, k: nat) -> Seq<int> {
    Seq::new(k, |t: int| pow(y, exp2(t as nat)) % q())
}

impl<C: InnerProduct> BulletProofParams<C> {
    /// The well-formedness of parameters built from the generators in
    /// `c_poly`.
    pub open spec fn wf(&self) -> bool {
        &&& self.l <= self.m
        &&& self.c_poly.wf()
        &&& self.c_poly.num_vars == self.m
        &&& self.g_poly.wf()
        &&& self.g_poly.num_vars == self.m
        &&& forall|i: int|
            0 <= i < exp2(self.m as nat) ==> #[trigger] self.g_poly.coeffs@[i] == self.c_poly.coeffs@[rev_bits(
                i,
                self.m as nat,
            )]
        &&& self.domain_g@.len() == exp2(self.l as nat)
        &&& self.g_by_cosets@.len() == self.domain_g@.len()
        &&& forall|idx: int|
            0 <= idx < self.domain_g@.len() ==> (#[trigger] self.g_by_cosets@[idx])@.len() == exp2(self.l as nat)
                && lvals(self.g_by_cosets@[idx]@) == seq_mod(
                restrict_hi(
                    self.g_poly.table(),
                    pow_vals(self.domain_g@[idx].val(), (self.m - self.l) as nat),
                    self.l as nat,
                ),
                q(),
            )
    }

    /// The parameters for the given generators.
    pub fn from_generators(g_vec: Vec<C>, m: usize, l: usize) -> (r: Self)
        requires
            g_vec@.len() == exp2(m as nat),
            l <= m,
            l <= 32,
        ensures
            r.wf(),
            r.m == m,
            r.l == l,
            r.c_poly.coeffs@ == g_vec@,
            r.domain_g@[0].val() == 1,
            forall|i: int|
                0 <= i < r.domain_g@.len() - 1 ==> #[trigger] r.domain_g@[i + 1].val() == (r.domain_g@[i].val()
                    * r.domain_g@[gen_idx(r.domain_g@.len() as int)].val()) % q(),
    {
        let total = g_vec.len();
        let c_poly = MultilinearPoly::new(vstd::slice::slice_to_vec(g_vec.as_slice()));
        proof {
            crate::sums::lemma_exp2_injective(c_poly.num_vars as nat, m as nat);
        }
        let n = pow2_usize(m);
        let mut t_vec: Vec<C> = Vec::new();
        let mut i: usize = 0;
        while i < n
            invariant
                i <= n,
                n == exp2(m as nat),
                g_vec@.len() == n,
                exp2(m as nat) <= usize::MAX,
                t_vec@.len() == i,
                forall|t: int| 0 <= t < i ==> #[trigger] t_vec@[t] == g_vec@[rev_bits(t, m as nat)],
            decreases n - i,
        {
            let j = reverse_bits(i, m);
            proof {
                lemma_rev_bits_range(i as int, m as nat);
            }
            t_vec.push(g_vec[j]);
            i = i + 1;
        }
        let g_poly = MultilinearPoly::new(t_vec);
        proof {
            crate::sums::lemma_exp2_injective(g_poly.num_vars as nat, m as nat);
        }
        let domain_g = create_smooth_domain(l);
        let mut g_by_cosets: Vec<Vec<C>> = Vec::new();
        let mut idx: usize = 0;
        while idx < domain_g.len()
            invariant
                idx <= domain_g@.len(),
                l <= m,
                g_poly.wf(),
                g_poly.num_vars == m,
                g_by_cosets@.len() == idx,
                forall|t: int|
                    0 <= t < idx ==> (#[trigger] g_by_cosets@[t])@.len() == exp2(l as nat) && lvals(g_by_cosets@[t]@)
                        == seq_mod(
                        restrict_hi(g_poly.table(), pow_vals(domain_g@[t].val(), (m - l) as nat), l as nat),
                        q(),
                    ),
            decreases domain_g@.len() - idx,
        {
            let y = domain_g[idx];
            let pow_y = generate_power_vec(y, m - l, false);
            let coset = g_poly.restrict_msb(pow_y.as_slice());
            proof {
                assert(lvals(pow_y@) =~= pow_vals(y.val(), (m - l) as nat));
                assert((m - (m - l)) as nat == l as nat);
            }
            g_by_cosets.push(coset.coeffs);
            idx = idx + 1;
        }
        BulletProofParams { m, l, g_poly, c_poly, g_by_cosets, domain_g }
    }
}

/// Random generators (`rand_point` for each of the `n` positions).
fn random_points(n: usize) -> (r: Vec<Pt>)
    ensures
        r@.len() == n,
{
    let mut v: Vec<Pt> = Vec::new();
    let mut i: usize = 0;
    while i < n
        invariant
            i <= n,
            v@.len() == i,
        decreases n - i,
    {
        v.push(crate::group::pt_random());
        i = i + 1;
    }
    v
}

impl BulletProofParams<Pt> {
    /// Parameters with `2^m` random generators and cosets of size `2^l`.
    pub fn new(m: usize, l: usize) -> (r: Self)
        requires
            exp2(m as nat) <= usize::MAX,
            l <= m,
            l <= 32,
        ensures
            r.wf(),
            r.m == m,
            r.l == l,
    {
        let n = pow2_usize(m);
        let g_vec = random_points(n);
        Self::from_generators(g_vec, m, l)
    }
}

/// The statement: `commitment = Σ_b a[b] · c[b]` for the generators `c` of
/// `pp.c_poly`, and `a(alpha) = sigma`.
pub struct BulletProofInstance<'a, C> {
    pub pp: &'a BulletProofParams<C>,
    pub commitment: C,
    pub alpha: Vec<Fr>,
    pub sigma: Fr,
}

/// The witness: the table of `a`.
pub struct BulletProofWitness<'a, C> {
    pub pp: &'a BulletProofParams<C>,
    pub a_poly: MultilinearPoly<Fr>,
}

/// The round messages and the folded polynomials.
#[allow(non_snake_case)]
pub struct BulletProof<C> {
    pub cm_L: Vec<C>,
    pub cm_R: Vec<C>,
    pub lf_L: Vec<Fr>,
    pub lf_R: Vec<Fr>,
    pub g_folded_poly: MultilinearPoly<C>,
    pub a_folded_poly: MultilinearPoly<Fr>,
}

impl<C> BulletProof<C> {
    /// The number of group and field elements in the proof: four per round
    /// and the two folded tables.
    pub fn get_proof_size(&self) -> (r: usize)
        requires
            4 * self.cm_L@.len() + self.g_folded_poly.coeffs@.len() + self.a_folded_poly.coeffs@.len() <= usize::MAX,
        ensures
            r == 4 * self.cm_L@.len() + self.g_folded_poly.coeffs@.len() + self.a_folded_poly.coeffs@.len(),
    {
        4 * self.cm_L.len() + self.g_folded_poly.coeffs.len() + self.a_folded_poly.coeffs.len()
    }
}

/// The verifier of the argument, as a name for its role.
pub struct BulletProofVerifier;

/// The prover and verifier of the argument.
pub struct ProtoBulletProofGroup;


/// The sequence in reverse order.
pub open spec fn rev_seq(s: Seq<int>) -> Seq<int> {
    Seq::new(s.len(), |k: int| s[s.len() - 1 - k])
}

/// The witness table after folding its last variable with `1 - x` for each
/// challenge `x` in turn.
pub open spec fn bp_a_tab(a0: Seq<int>, xs: Seq<int>) -> Seq<int>
    decreases xs.len(),
{
    if xs.len() == 0 {
        a0
    } else {
        seq_mod(fold_hi(bp_a_tab(a0, xs.drop_last()), (1 - xs.last()) % q()), q())
    }
}

/// The table of `eq(α, ·)` after folding its last variable with each
/// challenge in turn.
pub open spec fn bp_e_tab(e0: Seq<int>, xs: Seq<int>) -> Seq<int>
    decreases xs.len(),
{
    if xs.len() == 0 {
        e0
    } else {
        seq_mod(fold_hi(bp_e_tab(e0, xs.drop_last()), xs.last()), q())
    }
}

/// `⟨a_lo, e_hi⟩`, the left cross term of the evaluation claim.
pub open spec fn bp_al(a: Seq<int>, e: Seq<int>) -> int {
    dot(a.take((a.len() / 2) as int), e.skip((e.len() / 2) as int)) % q()
}

/// `⟨a_hi, e_lo⟩`, the right cross term of the evaluation claim.
pub open spec fn bp_ar(a: Seq<int>, e: Seq<int>) -> int {
    dot(a.skip((a.len() / 2) as int), e.take((e.len() / 2) as int)) % q()
}

/// `⟨first half of block b of ck, a_hi⟩` for blocks of the length of `a`.
pub open spec fn bp_lfac(ck: Seq<int>, a: Seq<int>, b: int) -> int {
    let w = a.len() as int;
    let h = w / 2;
    dot(ck.subrange(b * w, b * w + h), a.subrange(h, w)) % q()
}

/// `⟨second half of block b of ck, a_lo⟩` for blocks of the length of `a`.
pub open spec fn bp_rfac(ck: Seq<int>, a: Seq<int>, b: int) -> int {
    let w = a.len() as int;
    let h = w / 2;
    dot(ck.subrange(b * w + h, b * w + w), a.subrange(0, h)) % q()
}

/// The left cross term of the commitment claim after the challenges `ch`:
/// `Σ_b eq(rev(ch), b) · bp_lfac(b)`.
pub open spec fn bp_cl(ck: Seq<int>, a: Seq<int>, ch: Seq<int>) -> int {
    dot(Seq::new(exp2(ch.len()), |b: int| bp_lfac(ck, a, b)), seq_mod(eq_table(rev_seq(ch)), q())) % q()
}

/// The right cross term of the commitment claim after the challenges `ch`.
pub open spec fn bp_cr(ck: Seq<int>, a: Seq<int>, ch: Seq<int>) -> int {
    dot(Seq::new(exp2(ch.len()), |b: int| bp_rfac(ck, a, b)), seq_mod(eq_table(rev_seq(ch)), q())) % q()
}

/// The transcript with one labelled message per encoded value appended.
pub open spec fn ser_msgs<T: ByteSerializable>(log: Seq<TranscriptEntry>, label: Seq<char>, vals: Seq<T>) -> Seq<
    TranscriptEntry,
> {
    log + Seq::new(vals.len(), |k: int| TranscriptEntry::Message(label, vals[k].ser()))
}

/// The transcript once the statement is bound.
pub open spec fn bp_init_log<C: ByteSerializable>(
    log0: Seq<TranscriptEntry>,
    m: usize,
    l: usize,
    commitment: C,
    alpha: Seq<Fr>,
    sigma: Fr,
) -> Seq<TranscriptEntry> {
    ser_msgs(
        log0.push(TranscriptEntry::Message("protocol"@, "bulletproof".spec_bytes())).push(
            TranscriptEntry::U64("m"@, m as u64),
        ).push(TranscriptEntry::U64("l"@, l as u64)).push(TranscriptEntry::Message("commitment"@, commitment.ser())),
        "alpha"@,
        alpha,
    ).push(TranscriptEntry::Message("sigma"@, sigma.ser()))
}

/// The four round messages appended.
pub open spec fn bp_round_log<C: ByteSerializable>(log: Seq<TranscriptEntry>, cl: C, cr: C, al: Fr, ar: Fr) -> Seq<
    TranscriptEntry,
> {
    log.push(TranscriptEntry::Message("cmL"@, cl.ser())).push(TranscriptEntry::Message("cmR"@, cr.ser())).push(
        TranscriptEntry::Message("lfL"@, al.ser()),
    ).push(TranscriptEntry::Message("lfR"@, ar.ser()))
}

/// The transcript after `i` rounds.
pub open spec fn bp_log<C: ByteSerializable>(
    init: Seq<TranscriptEntry>,
    cls: Seq<C>,
    crs: Seq<C>,
    als: Seq<Fr>,
    ars: Seq<Fr>,
    i: nat,
) -> Seq<TranscriptEntry>
    decreases i,
{
    if i == 0 {
        init
    } else {
        bp_round_log(bp_log(init, cls, crs, als, ars, (i - 1) as nat), cls[i - 1], crs[i - 1], als[i - 1], ars[i - 1]).push(
            TranscriptEntry::Challenge("x"@, 64),
        )
    }
}

/// The challenge of round `i`.
pub open spec fn bp_x<C: ByteSerializable>(
    init: Seq<TranscriptEntry>,
    cls: Seq<C>,
    crs: Seq<C>,
    als: Seq<Fr>,
    ars: Seq<Fr>,
    i: nat,
) -> int {
    challenge_scalar(
        merlin_challenge(
            bp_round_log(bp_log(init, cls, crs, als, ars, i), cls[i as int], crs[i as int], als[i as int], ars[i as int]),
            "x"@,
            64,
        ),
    )
}

/// The challenges of the first `n` rounds.
pub open spec fn bp_xs<C: ByteSerializable>(
    init: Seq<TranscriptEntry>,
    cls: Seq<C>,
    crs: Seq<C>,
    als: Seq<Fr>,
    ars: Seq<Fr>,
    n: nat,
) -> Seq<int> {
    Seq::new(n, |i: int| bp_x(init, cls, crs, als, ars, i as nat))
}

/// The transcript after `i` rounds depends on those rounds only.
proof fn lemma_bp_log_prefix<C: ByteSerializable>(
    init: Seq<TranscriptEntry>,
    c1: Seq<C>,
    c2: Seq<C>,
    d1: Seq<C>,
    d2: Seq<C>,
    a1: Seq<Fr>,
    a2: Seq<Fr>,
    b1: Seq<Fr>,
    b2: Seq<Fr>,
    i: nat,
)
    requires
        i <= c1.len() && i <= c2.len() && i <= d1.len() && i <= d2.len(),
        i <= a1.len() && i <= a2.len() && i <= b1.len() && i <= b2.len(),
        forall|k: int| 0 <= k < i ==> #[trigger] c1[k] == c2[k] && d1[k] == d2[k] && a1[k] == a2[k] && b1[k] == b2[k],
    ensures
        bp_log(init, c1, d1, a1, b1, i) == bp_log(init, c2, d2, a2, b2, i),
    decreases i,
{
    if i > 0 {
        lemma_bp_log_prefix(init, c1, c2, d1, d2, a1, a2, b1, b2, (i - 1) as nat);
        assert(c1[i - 1] == c2[i - 1]);
    }
}

/// The values in reverse order.
fn reversed(v: &Vec<Fr>) -> (r: Vec<Fr>)
    ensures
        lvals(r@) == rev_seq(lvals(v@)),
        r@.len() == v@.len(),
{
    let mut r: Vec<Fr> = Vec::new();
    let mut k: usize = 0;
    while k < v.len()
        invariant
            k <= v@.len(),
            r@.len() == k,
            forall|t: int| 0 <= t < k ==> #[trigger] r@[t] == v@[v@.len() - 1 - t],
        decreases v@.len() - k,
    {
        r.push(v[v.len() - 1 - k]);
        k = k + 1;
    }
    proof {
        assert(lvals(r@) =~= rev_seq(lvals(v@)));
    }
    r
}

/// The cross terms of one round.
#[verifier::spinoff_prover]
#[verifier::rlimit(40)]
fn bp_round<C: InnerProduct>(
    ck: &Vec<C>,
    a_poly: &MultilinearPoly<Fr>,
    eq_poly: &MultilinearPoly<Fr>,
    ch: &Vec<Fr>,
    m: usize,
) -> (r: (C, C, Fr, Fr))
    requires
        ck@.len() == exp2(m as nat),
        a_poly.wf(),
        eq_poly.wf(),
        a_poly.num_vars == eq_poly.num_vars,
        a_poly.num_vars >= 1,
        ch@.len() + a_poly.num_vars == m,
    ensures
        r.0.lin_val() == bp_cl(lvals(ck@), a_poly.table(), lvals(ch@)),
        r.1.lin_val() == bp_cr(lvals(ck@), a_poly.table(), lvals(ch@)),
        r.2.val() == bp_al(a_poly.table(), eq_poly.table()),
        r.3.val() == bp_ar(a_poly.table(), eq_poly.table()),
{
    let ghost ckv = lvals(ck@);
    let ghost av = a_poly.table();
    let cklen = ck.len();
    let ch_rev = reversed(ch);
    proof {
        lemma_exp2_adds(ch@.len() as nat, a_poly.num_vars as nat);
        lemma_exp2_pos(ch@.len() as nat);
        lemma_exp2_pos((a_poly.num_vars - 1) as nat);
        assert(exp2(a_poly.num_vars as nat) == 2 * exp2((a_poly.num_vars - 1) as nat));
        lemma_exp2_monotone(ch@.len() as nat, m as nat);
    }
    let eq_ch = MultilinearPoly::<Fr>::init_with_eq(ch_rev.as_slice());
    let w = a_poly.coeffs.len();
    let h = w / 2;
    let blocks = pow2_usize(ch.len());
    proof {
        assert(blocks * w == cklen) by (nonlinear_arith)
            requires
                blocks == exp2(ch@.len() as nat),
                w == exp2(a_poly.num_vars as nat),
                cklen == exp2(m as nat),
                exp2(m as nat) == exp2(ch@.len() as nat) * exp2(a_poly.num_vars as nat),
        ;
    }
    let mut l_factors: Vec<C> = Vec::new();
    let mut r_factors: Vec<C> = Vec::new();
    let mut b: usize = 0;
    while b < blocks
        invariant
            b <= blocks,
            blocks * w == ck@.len(),
            ck@.len() <= usize::MAX,
            w == a_poly.coeffs@.len(),
            w == 2 * h,
            ckv == lvals(ck@),
            av == a_poly.table(),
            l_factors@.len() == b,
            r_factors@.len() == b,
            forall|t: int| 0 <= t < b ==> #[trigger] l_factors@[t].lin_val() == bp_lfac(ckv, av, t),
            forall|t: int| 0 <= t < b ==> #[trigger] r_factors@[t].lin_val() == bp_rfac(ckv, av, t),
        decreases blocks - b,
    {
        proof {
            assert(b * w + w <= blocks * w) by (nonlinear_arith)
                requires
                    b < blocks,
            ;
        }
        let start_l = b * w;
        let end_l = start_l + h;
        let start_r = end_l;
        let end_r = start_r + h;
        let ck_l = vstd::slice::slice_subrange(ck.as_slice(), start_l, end_l);
        let ck_r = vstd::slice::slice_subrange(ck.as_slice(), start_r, end_r);
        let a_hi = vstd::slice::slice_subrange(a_poly.coeffs.as_slice(), h, w);
        let a_lo = vstd::slice::slice_subrange(a_poly.coeffs.as_slice(), 0, h);
        let lf = C::inner_product_msm(ck_l, a_hi);
        let rf = C::inner_product_msm(ck_r, a_lo);
        proof {
            assert(lvals(ck_l@) =~= ckv.subrange(b * w, b * w + h));
            assert(lvals(ck_r@) =~= ckv.subrange(b * w + h, b * w + w));
            assert(lvals(a_hi@) =~= av.subrange(h as int, w as int));
            assert(lvals(a_lo@) =~= av.subrange(0, h as int));
            assert(av.len() == w);
        }
        l_factors.push(lf);
        r_factors.push(rf);
        b = b + 1;
    }
    let cl = C::inner_product_msm(l_factors.as_slice(), eq_ch.coeffs.as_slice());
    let cr = C::inner_product_msm(r_factors.as_slice(), eq_ch.coeffs.as_slice());
    let a_lo = vstd::slice::slice_subrange(a_poly.coeffs.as_slice(), 0, h);
    let a_hi = vstd::slice::slice_subrange(a_poly.coeffs.as_slice(), h, w);
    let e_lo = vstd::slice::slice_subrange(eq_poly.coeffs.as_slice(), 0, h);
    let e_hi = vstd::slice::slice_subrange(eq_poly.coeffs.as_slice(), h, w);
    let al = Fr::inner_product(a_lo, e_hi);
    let ar = Fr::inner_product(a_hi, e_lo);
    proof {
        assert(lvals(l_factors@) =~= Seq::new(exp2(lvals(ch@).len()), |t: int| bp_lfac(ckv, av, t)));
        assert(lvals(r_factors@) =~= Seq::new(exp2(lvals(ch@).len()), |t: int| bp_rfac(ckv, av, t)));
        assert(lvals(a_lo@) =~= av.take((av.len() / 2) as int));
        assert(lvals(a_hi@) =~= av.skip((av.len() / 2) as int));
        assert(lvals(e_lo@) =~= eq_poly.table().take((eq_poly.table().len() / 2) as int));
        assert(lvals(e_hi@) =~= eq_poly.table().skip((eq_poly.table().len() / 2) as int));
    }
    (cl, cr, al, ar)
}

/// What the prover produces for the statement with the given parts and the
/// witness table `a0`, from the transcript `log0` to `log1`: round `i` holds
/// the cross terms of the witness and the eq table folded to the first `i`
/// challenges, each challenge is drawn after its round, and the folded
/// witness and the generators restricted to the reversed challenges close the
/// proof.
pub open spec fn bp_prove_post<C: InnerProduct + ByteSerializable>(
    pp: BulletProofParams<C>,
    commitment: C,
    alpha: Seq<Fr>,
    sigma: Fr,
    a0: Seq<int>,
    log0: Seq<TranscriptEntry>,
    r: BulletProof<C>,
    log1: Seq<TranscriptEntry>,
) -> bool {
    let m = pp.m;
    let l = pp.l;
    let init = bp_init_log(log0, m, l, commitment, alpha, sigma);
    let xs = bp_xs(init, r.cm_L@, r.cm_R@, r.lf_L@, r.lf_R@, l as nat);
    let e0 = seq_mod(eq_table(lvals(alpha)), q());
    let ck = pp.c_poly.table();
    &&& r.cm_L@.len() == l && r.cm_R@.len() == l && r.lf_L@.len() == l && r.lf_R@.len() == l
    &&& forall|i: int|
        0 <= i < l ==> #[trigger] r.lf_L@[i].val() == bp_al(bp_a_tab(a0, xs.take(i)), bp_e_tab(e0, xs.take(i)))
            && r.lf_R@[i].val() == bp_ar(bp_a_tab(a0, xs.take(i)), bp_e_tab(e0, xs.take(i))) && r.cm_L@[i].lin_val()
            == bp_cl(ck, bp_a_tab(a0, xs.take(i)), xs.take(i)) && r.cm_R@[i].lin_val() == bp_cr(
            ck,
            bp_a_tab(a0, xs.take(i)),
            xs.take(i),
        )
    &&& r.a_folded_poly.wf() && r.a_folded_poly.num_vars == m - l
    &&& r.a_folded_poly.table() == bp_a_tab(a0, xs)
    &&& r.g_folded_poly.wf() && r.g_folded_poly.num_vars == m - l
    &&& r.g_folded_poly.table() == seq_mod(restrict_hi(ck, rev_seq(xs), (m - l) as nat), q())
    &&& log1 == ser_msgs(
        ser_msgs(bp_log(init, r.cm_L@, r.cm_R@, r.lf_L@, r.lf_R@, l as nat), "g_poly"@, r.g_folded_poly.coeffs@),
        "a_poly"@,
        r.a_folded_poly.coeffs@,
    )
}

impl ProtoBulletProofGroup {
    /// The prover: `l` rounds of cross terms and folding, then the folded
    /// witness and the generators restricted to the reversed challenges.
    #[allow(non_snake_case)]
    pub fn prove<C: InnerProduct + ByteSerializable>(
        instance: &BulletProofInstance<'_, C>,
        witness: &BulletProofWitness<'_, C>,
        transcript: &mut TitanTranscript,
    ) -> (r: BulletProof<C>)
        requires
            instance.pp.wf(),
            witness.a_poly.wf(),
            witness.a_poly.num_vars == instance.pp.m,
            instance.alpha@.len() == instance.pp.m,
        ensures
            bp_prove_post(
                *instance.pp,
                instance.commitment,
                instance.alpha@,
                instance.sigma,
                witness.a_poly.table(),
                old(transcript)@,
                r,
                final(transcript)@,
            ),
    {
        let m = instance.pp.m;
        let l = instance.pp.l;
        let ghost log0 = transcript@;
        let ghost a0 = witness.a_poly.table();
        let ghost e0 = seq_mod(eq_table(lvals(instance.alpha@)), q());
        let ghost ckv = instance.pp.c_poly.table();
        let total = instance.pp.c_poly.coeffs.len();
        let mut a_poly = MultilinearPoly::new(vstd::slice::slice_to_vec(witness.a_poly.coeffs.as_slice()));
        proof {
            crate::sums::lemma_exp2_injective(a_poly.num_vars as nat, m as nat);
        }
        let mut eq_poly = MultilinearPoly::<Fr>::init_with_eq(instance.alpha.as_slice());
        let proto = "bulletproof".as_bytes();
        proof {
            reveal_strlit("bulletproof");
            vstd::string::is_ascii_spec_bytes("bulletproof");
        }
        transcript.append_message("protocol", proto);
        let ck_affine = C::to_affine(instance.pp.c_poly.coeffs.as_slice());
        transcript.append_u64("m", m as u64);
        transcript.append_u64("l", l as u64);
        append_to_transcript(transcript, "commitment", &instance.commitment);
        let ghost base = transcript@;
        let mut k: usize = 0;
        proof {
            assert(ser_msgs(base, "alpha"@, instance.alpha@.take(0)) =~= base);
        }
        while k < instance.alpha.len()
            invariant
                k <= instance.alpha@.len(),
                transcript@ == ser_msgs(base, "alpha"@, instance.alpha@.take(k as int)),
            decreases instance.alpha@.len() - k,
        {
            append_to_transcript(transcript, "alpha", &instance.alpha[k]);
            proof {
                assert(ser_msgs(base, "alpha"@, instance.alpha@.take(k + 1)) =~= ser_msgs(
                    base,
                    "alpha"@,
                    instance.alpha@.take(k as int),
                ).push(TranscriptEntry::Message("alpha"@, instance.alpha@[k as int].ser())));
            }
            k = k + 1;
        }
        proof {
            assert(instance.alpha@.take(instance.alpha@.len() as int) =~= instance.alpha@);
        }
        append_to_transcript(transcript, "sigma", &instance.sigma);
        let ghost init = transcript@;
        proof {
            assert(init == bp_init_log(log0, m, l, instance.commitment, instance.alpha@, instance.sigma));
        }
        let mut cm_L: Vec<C> = Vec::new();
        let mut cm_R: Vec<C> = Vec::new();
        let mut lf_L: Vec<Fr> = Vec::new();
        let mut lf_R: Vec<Fr> = Vec::new();
        let mut ch_vec: Vec<Fr> = Vec::new();
        let mut i: usize = 0;
        proof {
            assert(lvals(ch_vec@) =~= Seq::<int>::empty());
        }
        while i < l
            invariant
                i <= l,
                l <= m,
                ck_affine@ == instance.pp.c_poly.coeffs@,
                ck_affine@.len() == exp2(m as nat),
                ckv == lvals(ck_affine@),
                a_poly.wf(),
                eq_poly.wf(),
                a_poly.num_vars == m - i,
                eq_poly.num_vars == m - i,
                ch_vec@.len() == i,
                cm_L@.len() == i && cm_R@.len() == i && lf_L@.len() == i && lf_R@.len() == i,
                lvals(ch_vec@) == bp_xs(init, cm_L@, cm_R@, lf_L@, lf_R@, i as nat),
                a_poly.table() == bp_a_tab(a0, lvals(ch_vec@)),
                eq_poly.table() == bp_e_tab(e0, lvals(ch_vec@)),
                transcript@ == bp_log(init, cm_L@, cm_R@, lf_L@, lf_R@, i as nat),
                forall|j: int|
                    0 <= j < i ==> #[trigger] lf_L@[j].val() == bp_al(
                        bp_a_tab(a0, lvals(ch_vec@).take(j)),
                        bp_e_tab(e0, lvals(ch_vec@).take(j)),
                    ) && lf_R@[j].val() == bp_ar(bp_a_tab(a0, lvals(ch_vec@).take(j)), bp_e_tab(e0, lvals(ch_vec@).take(j)))
                        && cm_L@[j].lin_val() == bp_cl(ckv, bp_a_tab(a0, lvals(ch_vec@).take(j)), lvals(ch_vec@).take(j))
                        && cm_R@[j].lin_val() == bp_cr(ckv, bp_a_tab(a0, lvals(ch_vec@).take(j)), lvals(ch_vec@).take(j)),
            decreases l - i,
        {
            let (cl, cr, al, ar) = bp_round(&ck_affine, &a_poly, &eq_poly, &ch_vec, m);
            let ghost (c1, d1, a1, b1) = (cm_L@, cm_R@, lf_L@, lf_R@);
            let ghost ch_old = lvals(ch_vec@);
            let ghost a_before = a_poly.table();
            let ghost e_before = eq_poly.table();
            cm_L.push(cl);
            cm_R.push(cr);
            lf_L.push(al);
            lf_R.push(ar);
            append_to_transcript(transcript, "cmL", &cl);
            append_to_transcript(transcript, "cmR", &cr);
            append_to_transcript(transcript, "lfL", &al);
            append_to_transcript(transcript, "lfR", &ar);
            let x = get_challenge(transcript, "x");
            ch_vec.push(x);
            let omx = fr_one_minus(&x);
            a_poly.fold(omx);
            eq_poly.fold(x);
            proof {
                let ch_new = lvals(ch_vec@);
                assert(ch_new =~= ch_old.push(x.val()));
                assert(al.val() == bp_al(a_before, e_before));
                assert(cl.lin_val() == bp_cl(ckv, a_before, ch_old));
                lemma_bp_log_prefix(init, c1, cm_L@, d1, cm_R@, a1, lf_L@, b1, lf_R@, i as nat);
                assert(x.val() == bp_x(init, cm_L@, cm_R@, lf_L@, lf_R@, i as nat));
                assert forall|j: int| 0 <= j <= i implies #[trigger] ch_new[j] == bp_x(init, cm_L@, cm_R@, lf_L@, lf_R@, j as nat) by {
                    if j < i {
                        lemma_bp_log_prefix(init, c1, cm_L@, d1, cm_R@, a1, lf_L@, b1, lf_R@, j as nat);
                        assert(ch_old[j] == bp_x(init, c1, d1, a1, b1, j as nat));
                        assert(cm_L@[j] == c1[j] && cm_R@[j] == d1[j] && lf_L@[j] == a1[j] && lf_R@[j] == b1[j]);
                    }
                }
                assert(ch_new =~= bp_xs(init, cm_L@, cm_R@, lf_L@, lf_R@, (i + 1) as nat));
                assert(ch_new.drop_last() =~= ch_old);
                assert forall|j: int| 0 <= j <= i implies #[trigger] lf_L@[j].val() == bp_al(
                    bp_a_tab(a0, ch_new.take(j)),
                    bp_e_tab(e0, ch_new.take(j)),
                ) && lf_R@[j].val() == bp_ar(bp_a_tab(a0, ch_new.take(j)), bp_e_tab(e0, ch_new.take(j))) && cm_L@[j].lin_val()
                    == bp_cl(ckv, bp_a_tab(a0, ch_new.take(j)), ch_new.take(j)) && cm_R@[j].lin_val() == bp_cr(
                    ckv,
                    bp_a_tab(a0, ch_new.take(j)),
                    ch_new.take(j),
                ) by {
                    assert(ch_new.take(j) =~= ch_old.take(j));
                    if j == i {
                        assert(ch_old.take(j) =~= ch_old);
                    } else {
                        assert(a1[j] == lf_L@[j] && b1[j] == lf_R@[j] && c1[j] == cm_L@[j] && d1[j] == cm_R@[j]);
                    }
                }
            }
            i = i + 1;
        }
        let ch_rev = reversed(&ch_vec);
        let g_poly_reduced = instance.pp.c_poly.restrict_msb(ch_rev.as_slice());
        let ghost before_g = transcript@;
        let mut k: usize = 0;
        proof {
            assert(ser_msgs(before_g, "g_poly"@, g_poly_reduced.coeffs@.take(0)) =~= before_g);
        }
        while k < g_poly_reduced.coeffs.len()
            invariant
                k <= g_poly_reduced.coeffs@.len(),
                transcript@ == ser_msgs(before_g, "g_poly"@, g_poly_reduced.coeffs@.take(k as int)),
            decreases g_poly_reduced.coeffs@.len() - k,
        {
            append_to_transcript(transcript, "g_poly", &g_poly_reduced.coeffs[k]);
            proof {
                assert(ser_msgs(before_g, "g_poly"@, g_poly_reduced.coeffs@.take(k + 1)) =~= ser_msgs(
                    before_g,
                    "g_poly"@,
                    g_poly_reduced.coeffs@.take(k as int),
                ).push(TranscriptEntry::Message("g_poly"@, g_poly_reduced.coeffs@[k as int].ser())));
            }
            k = k + 1;
        }
        proof {
            assert(g_poly_reduced.coeffs@.take(g_poly_reduced.coeffs@.len() as int) =~= g_poly_reduced.coeffs@);
        }
        let ghost before_a = transcript@;
        let mut k: usize = 0;
        proof {
            assert(ser_msgs(before_a, "a_poly"@, a_poly.coeffs@.take(0)) =~= before_a);
        }
        while k < a_poly.coeffs.len()
            invariant
                k <= a_poly.coeffs@.len(),
                transcript@ == ser_msgs(before_a, "a_poly"@, a_poly.coeffs@.take(k as int)),
            decreases a_poly.coeffs@.len() - k,
        {
            append_to_transcript(transcript, "a_poly", &a_poly.coeffs[k]);
            proof {
                assert(ser_msgs(before_a, "a_poly"@, a_poly.coeffs@.take(k + 1)) =~= ser_msgs(
                    before_a,
                    "a_poly"@,
                    a_poly.coeffs@.take(k as int),
                ).push(TranscriptEntry::Message("a_poly"@, a_poly.coeffs@[k as int].ser())));
            }
            k = k + 1;
        }
        proof {
            assert(a_poly.coeffs@.take(a_poly.coeffs@.len() as int) =~= a_poly.coeffs@);
        }
        BulletProof { cm_L, cm_R, lf_L, lf_R, g_folded_poly: g_poly_reduced, a_folded_poly: a_poly }
    }
}


/// The number of coset queries the verifier makes.
pub const BP_NUM_QUERIES: usize = 35;

/// The commitment claim after `i` rounds: each round maps `P` to
/// `x(1-x)·P + (1-x)^2·cL + x^2·cR` with the round's challenge `x`.
pub open spec fn bp_p<C: Linear>(p0: int, cls: Seq<C>, crs: Seq<C>, xs: Seq<int>, i: nat) -> int
    decreases i,
{
    if i == 0 {
        p0
    } else {
        let p = bp_p(p0, cls, crs, xs, (i - 1) as nat);
        let x = xs[i - 1];
        let cl = cls[i - 1].lin_val();
        let cr = crs[i - 1].lin_val();
        (p * x * (1 - x) + cl * (1 - x) * (1 - x) + cr * x * x) % q()
    }
}

/// The evaluation claim after `i` rounds: each round maps `V` to
/// `x(1-x)·V + (1-x)^2·aR + x^2·aL` with the round's challenge `x`, which is
/// how `⟨a, e⟩` changes when `a` is folded with `1 - x` and `e` with `x`
/// (`aL = ⟨a_lo, e_hi⟩`, `aR = ⟨a_hi, e_lo⟩`).
pub open spec fn bp_v(v0: int, als: Seq<Fr>, ars: Seq<Fr>, xs: Seq<int>, i: nat) -> int
    decreases i,
{
    if i == 0 {
        v0
    } else {
        let v = bp_v(v0, als, ars, xs, (i - 1) as nat);
        let x = xs[i - 1];
        (v * x * (1 - x) + ars[i - 1].val() * (1 - x) * (1 - x) + als[i - 1].val() * x * x) % q()
    }
}

/// The claimed evaluation `sigma = a(alpha)`, folded through the rounds,
/// equals the folded witness against `eq(alpha, ·)` folded with the same
/// challenges.
pub open spec fn bp_value_ok<C>(proof: BulletProof<C>, l: nat, alpha: Seq<Fr>, sigma: Fr, xs: Seq<int>) -> bool {
    bp_v(sigma.val(), proof.lf_L@, proof.lf_R@, xs, l) == dot(
        lvals(proof.a_folded_poly.coeffs@),
        bp_e_tab(seq_mod(eq_table(lvals(alpha)), q()), xs),
    ) % q()
}

/// The transcript after `k` query challenges.
pub open spec fn bp_query_log(log: Seq<TranscriptEntry>, k: nat) -> Seq<TranscriptEntry> {
    log + Seq::new(k, |i: int| TranscriptEntry::Challenge("challenge_y"@, 8))
}

/// The `nq` query positions drawn from the transcript `log` for a domain of
/// `n` points: 8 challenge bytes read little-endian, modulo `n`.
pub open spec fn bp_queries(log: Seq<TranscriptEntry>, nq: nat, n: int) -> Seq<int> {
    Seq::new(nq, |k: int| (le_val(merlin_challenge(bp_query_log(log, k as nat), "challenge_y"@, 8)) as int) % n)
}

/// The table of `eq(rev(y, y^2, ..., y^(2^(w-1))), ·)`.
pub open spec fn bp_ytab(y: int, w: nat) -> Seq<int> {
    seq_mod(eq_table(rev_seq(pow_vals(y, w))), q())
}

/// The terms `r^t · ytab(y_t)[j]` for the first `k` queries.
pub open spec fn bp_yterms(domain: Seq<Fr>, ys: Seq<int>, r: int, w: nat, j: int, k: nat) -> Seq<int> {
    Seq::new(k, |t: int| pow(r, t as nat) * bp_ytab(domain[ys[t]].val(), w)[j])
}

/// The query leaves (the cosets at the query positions), one after another.
pub open spec fn bp_leaves<C: Linear>(cosets: Seq<Vec<C>>, ys: Seq<int>, k: nat) -> Seq<int>
    decreases k,
{
    if k == 0 {
        Seq::empty()
    } else {
        bp_leaves(cosets, ys, (k - 1) as nat) + lvals(cosets[ys[k - 1]]@)
    }
}

/// `-r^t · eq(ch, ·)` for each query `t < k`, one after another.
pub open spec fn bp_negs(e: Seq<int>, r: int, k: nat) -> Seq<int>
    decreases k,
{
    if k == 0 {
        Seq::empty()
    } else {
        bp_negs(e, r, (k - 1) as nat) + Seq::new(e.len(), |j: int| (0 - e[j] * pow(r, (k - 1) as nat)) % q())
    }
}

/// The scalars of the batched check: `Σ_t r^t · ytab(y_t) + r · a` against
/// the folded generators, then the negated scaled eq tables against the
/// leaves.
pub open spec fn bp_scalars(
    domain: Seq<Fr>,
    ys: Seq<int>,
    r: int,
    a: Seq<int>,
    e: Seq<int>,
    w: nat,
    nq: nat,
) -> Seq<int> {
    Seq::new(exp2(w), |j: int| (ssum(bp_yterms(domain, ys, r, w, j, nq)) + r * a[j]) % q()) + bp_negs(e, r, nq)
}

proof fn lemma_pow_succ(r: int, k: nat)
    ensures
        pow(r, k + 1) == r * pow(r, k),
        pow(r, 0) == 1,
{
    reveal(pow);
}

proof fn lemma_acc_step(a: int, b: int, p: int)
    ensures
        ((a % q()) + (b * (p % q())) % q()) % q() == (a + b * p) % q(),
{
    lemma_mul_mod_noop_right(b, p, q());
    vstd::arithmetic::div_mod::lemma_add_mod_noop(a, b * p, q());
}

/// The batched consistency and opening check.
fn bp_final_check<C: InnerProduct>(
    pp: &BulletProofParams<C>,
    g_f: &Vec<C>,
    a_f: &Vec<Fr>,
    ch: &Vec<Fr>,
    ys: &Vec<usize>,
    p: &C,
    r: &Fr,
) -> (ok: bool)
    requires
        pp.wf(),
        ch@.len() == pp.l,
        ys@.len() == BP_NUM_QUERIES,
        forall|k: int| 0 <= k < ys@.len() ==> #[trigger] ys@[k] < pp.domain_g@.len(),
        g_f@.len() == exp2((pp.m - pp.l) as nat),
        a_f@.len() == exp2((pp.m - pp.l) as nat),
        36 * exp2(pp.m as nat) <= usize::MAX,
    ensures
        ok == (dot(
            lvals(g_f@) + bp_leaves(pp.g_by_cosets@, ys@.map_values(|y: usize| y as int), BP_NUM_QUERIES as nat),
            bp_scalars(
                pp.domain_g@,
                ys@.map_values(|y: usize| y as int),
                r.val(),
                lvals(a_f@),
                seq_mod(eq_table(lvals(ch@)), q()),
                (pp.m - pp.l) as nat,
                BP_NUM_QUERIES as nat,
            ),
        ) % q() == (p.lin_val() * r.val()) % q()),
{
    let m = pp.m;
    let l = pp.l;
    let w = m - l;
    let ghost ysi = ys@.map_values(|y: usize| y as int);
    let ghost rv = r.val();
    let ghost wn = w as nat;
    proof {
        lemma_exp2_monotone(l as nat, m as nat);
        lemma_exp2_monotone(wn, m as nat);
        lemma_exp2_pos(wn);
        lemma_exp2_pos(l as nat);
        assert(pp.g_poly.coeffs@.len() == exp2(m as nat));
    }
    let eq_poly = MultilinearPoly::<Fr>::init_with_eq(ch.as_slice());
    let ghost e = eq_poly.table();
    let n_w = pow2_usize(w);
    let n_l = eq_poly.coeffs.len();
    let zero = crate::field::fr_zero();
    let mut acc: Vec<Fr> = Vec::new();
    let mut j: usize = 0;
    while j < n_w
        invariant
            j <= n_w,
            acc@.len() == j,
            zero.val() == 0,
            forall|t: int| 0 <= t < j ==> #[trigger] acc@[t].val() == 0,
        decreases n_w - j,
    {
        acc.push(zero);
        j = j + 1;
    }
    let mut leaves: Vec<C> = Vec::new();
    let mut negs: Vec<Fr> = Vec::new();
    let mut rp = fr_one();
    let mut k: usize = 0;
    proof {
        lemma_pow_succ(rv, 0);
        assert(lvals(leaves@) =~= bp_leaves(pp.g_by_cosets@, ysi, 0));
        assert(lvals(negs@) =~= bp_negs(e, rv, 0));
    }
    while k < BP_NUM_QUERIES
        invariant
            k <= BP_NUM_QUERIES,
            pp.wf(),
            w == pp.m - pp.l,
            wn == w,
            n_w == exp2(wn),
            n_l == exp2(pp.l as nat),
            n_l == e.len(),
            e == eq_poly.table(),
            eq_poly.wf(),
            36 * exp2(pp.m as nat) <= usize::MAX,
            exp2(wn) <= exp2(pp.m as nat),
            exp2(pp.l as nat) <= exp2(pp.m as nat),
            ys@.len() == BP_NUM_QUERIES,
            ysi == ys@.map_values(|y: usize| y as int),
            forall|t: int| 0 <= t < ys@.len() ==> #[trigger] ys@[t] < pp.domain_g@.len(),
            rv == r.val(),
            zero.val() == 0,
            rp.val() == pow(rv, k as nat) % q(),
            acc@.len() == n_w,
            forall|t: int| 0 <= t < n_w ==> #[trigger] acc@[t].val() == ssum(bp_yterms(pp.domain_g@, ysi, rv, wn, t, k as nat)) % q(),
            lvals(leaves@) == bp_leaves(pp.g_by_cosets@, ysi, k as nat),
            leaves@.len() == k * n_l,
            lvals(negs@) == bp_negs(e, rv, k as nat),
            negs@.len() == k * n_l,
        decreases BP_NUM_QUERIES - k,
    {
        let y = ys[k];
        proof {
            assert(ysi[k as int] == y as int);
            assert(k * n_l + n_l <= 35 * exp2(pp.m as nat)) by (nonlinear_arith)
                requires
                    k < 35,
                    n_l <= exp2(pp.m as nat),
            ;
        }
        let mut leaf = vstd::slice::slice_to_vec(pp.g_by_cosets[y].as_slice());
        let ghost leaves_old = leaves@;
        leaves.append(&mut leaf);
        proof {
            assert(lvals(leaves@) =~= lvals(leaves_old) + lvals(pp.g_by_cosets@[y as int]@));
        }
        let ghost negs_old = negs@;
        let mut jj: usize = 0;
        while jj < n_l
            invariant
                jj <= n_l,
                n_l == eq_poly.coeffs@.len(),
                n_l == e.len(),
                e == eq_poly.table(),
                rp.val() == pow(rv, k as nat) % q(),
                zero.val() == 0,
                negs@.len() == negs_old.len() + jj,
                negs@.len() <= 36 * exp2(pp.m as nat),
                negs_old.len() + n_l <= 36 * exp2(pp.m as nat),
                forall|t: int| 0 <= t < negs_old.len() ==> #[trigger] negs@[t] == negs_old[t],
                forall|t: int|
                    0 <= t < jj ==> #[trigger] negs@[negs_old.len() + t].val() == (0 - e[t] * pow(rv, k as nat)) % q(),
            decreases n_l - jj,
        {
            let sc = fr_mul(&eq_poly.coeffs[jj], &rp);
            let ng = crate::field::fr_sub(&zero, &sc);
            proof {
                assert(e[jj as int] == eq_poly.coeffs@[jj as int].val());
                lemma_mul_mod_noop_right(e[jj as int], pow(rv, k as nat), q());
                vstd::arithmetic::div_mod::lemma_sub_mod_noop(0, e[jj as int] * pow(rv, k as nat), q());
                lemma_small_mod(0, q() as nat);
            }
            negs.push(ng);
            jj = jj + 1;
        }
        proof {
            assert forall|i: int| negs_old.len() <= i < negs@.len() implies #[trigger] negs@[i].val() == (0 - e[i
                - negs_old.len()] * pow(rv, k as nat)) % q() by {
                let t = i - negs_old.len();
                assert(negs@[negs_old.len() + t] == negs@[i]);
            }
            assert(lvals(negs@) =~= lvals(negs_old) + Seq::new(
                e.len(),
                |t: int| (0 - e[t] * pow(rv, k as nat)) % q(),
            ));
        }
        let yv = generate_power_vec(pp.domain_g[y], w, true);
        let yt = MultilinearPoly::<Fr>::init_with_eq(yv.as_slice());
        proof {
            assert(lvals(yv@) =~= rev_seq(pow_vals(pp.domain_g@[y as int].val(), wn)));
            assert(yt.table() == bp_ytab(pp.domain_g@[y as int].val(), wn));
        }
        let ghost acc_old = acc@;
        let mut jj: usize = 0;
        while jj < n_w
            invariant
                jj <= n_w,
                n_w == yt.coeffs@.len(),
                acc@.len() == n_w,
                yt.table() == bp_ytab(pp.domain_g@[ysi[k as int]].val(), wn),
                rp.val() == pow(rv, k as nat) % q(),
                forall|t: int| jj <= t < n_w ==> #[trigger] acc@[t] == acc_old[t],
                forall|t: int|
                    0 <= t < n_w ==> #[trigger] acc_old[t].val() == ssum(bp_yterms(pp.domain_g@, ysi, rv, wn, t, k as nat))
                        % q(),
                forall|t: int|
                    0 <= t < jj ==> #[trigger] acc@[t].val() == ssum(bp_yterms(pp.domain_g@, ysi, rv, wn, t, (k + 1) as nat))
                        % q(),
            decreases n_w - jj,
        {
            let sc = fr_mul(&yt.coeffs[jj], &rp);
            let nv = crate::field::fr_add(&acc[jj], &sc);
            proof {
                let ts = bp_yterms(pp.domain_g@, ysi, rv, wn, jj as int, (k + 1) as nat);
                assert(ts.drop_last() =~= bp_yterms(pp.domain_g@, ysi, rv, wn, jj as int, k as nat));
                assert(ts.last() == pow(rv, k as nat) * yt.table()[jj as int]);
                lemma_acc_step(ssum(ts.drop_last()), yt.table()[jj as int], pow(rv, k as nat));
            }
            acc.set(jj, nv);
            jj = jj + 1;
        }
        let nrp = fr_mul(&rp, r);
        proof {
            lemma_pow_succ(rv, k as nat);
            lemma_mul_mod_noop_left(pow(rv, k as nat), rv, q());
            assert(bp_leaves(pp.g_by_cosets@, ysi, (k + 1) as nat) == bp_leaves(pp.g_by_cosets@, ysi, k as nat) + lvals(
                pp.g_by_cosets@[ysi[k as int]]@,
            ));
            assert(lvals(leaves@) == bp_leaves(pp.g_by_cosets@, ysi, (k + 1) as nat));
            assert(lvals(negs@) == bp_negs(e, rv, (k + 1) as nat));
            assert((k + 1) * n_l == k * n_l + n_l) by (nonlinear_arith);
        }
        rp = nrp;
        k = k + 1;
    }
    let mut generators = vstd::slice::slice_to_vec(g_f.as_slice());
    let ghost gen_old = generators@;
    generators.append(&mut leaves);
    let mut batched: Vec<Fr> = Vec::new();
    let mut j: usize = 0;
    while j < n_w
        invariant
            j <= n_w,
            n_w == exp2(wn),
            a_f@.len() == n_w,
            acc@.len() == n_w,
            rv == r.val(),
            batched@.len() == j,
            forall|t: int|
                0 <= t < n_w ==> #[trigger] acc@[t].val() == ssum(bp_yterms(pp.domain_g@, ysi, rv, wn, t, BP_NUM_QUERIES as nat))
                    % q(),
            forall|t: int|
                0 <= t < j ==> #[trigger] batched@[t].val() == (ssum(
                    bp_yterms(pp.domain_g@, ysi, rv, wn, t, BP_NUM_QUERIES as nat),
                ) + rv * a_f@[t].val()) % q(),
        decreases n_w - j,
    {
        let sc = fr_mul(&a_f[j], r);
        let nv = crate::field::fr_add(&acc[j], &sc);
        proof {
            lemma_acc_step(ssum(bp_yterms(pp.domain_g@, ysi, rv, wn, j as int, BP_NUM_QUERIES as nat)), a_f@[j as int].val(), rv);
            r.lemma_val_range();
            lemma_small_mod(rv as nat, q() as nat);
            assert(a_f@[j as int].val() * rv == rv * a_f@[j as int].val()) by (nonlinear_arith);
        }
        batched.push(nv);
        j = j + 1;
    }
    let ghost b_old = batched@;
    batched.append(&mut negs);
    let ghost sc_spec = bp_scalars(pp.domain_g@, ysi, rv, lvals(a_f@), e, wn, BP_NUM_QUERIES as nat);
    proof {
        assert(lvals(b_old) =~= Seq::new(
            exp2(wn),
            |t: int| (ssum(bp_yterms(pp.domain_g@, ysi, rv, wn, t, BP_NUM_QUERIES as nat)) + rv * lvals(a_f@)[t]) % q(),
        ));
        assert(lvals(batched@) =~= sc_spec);
        assert(lvals(generators@) =~= lvals(g_f@) + bp_leaves(pp.g_by_cosets@, ysi, BP_NUM_QUERIES as nat));
        assert(generators@.len() == batched@.len());
    }
    let lhs = C::inner_product_msm(generators.as_slice(), batched.as_slice());
    let rhs = p.lin_scale(r);
    lhs.lin_eq(&rhs)
}


/// The transcript once the round messages and both folded tables are in.
pub open spec fn bp_after_log<C: ByteSerializable>(
    proof: BulletProof<C>,
    pp: BulletProofParams<C>,
    commitment: C,
    alpha: Seq<Fr>,
    sigma: Fr,
    log0: Seq<TranscriptEntry>,
) -> Seq<TranscriptEntry> {
    let m = pp.m;
    let l = pp.l;
    let init = bp_init_log(log0, m, l, commitment, alpha, sigma);
    ser_msgs(
        ser_msgs(bp_log(init, proof.cm_L@, proof.cm_R@, proof.lf_L@, proof.lf_R@, l as nat), "g_poly"@, proof.g_folded_poly.coeffs@),
        "a_poly"@,
        proof.a_folded_poly.coeffs@,
    )
}

/// The round challenges the verifier draws.
pub open spec fn bp_verifier_xs<C: ByteSerializable>(
    proof: BulletProof<C>,
    pp: BulletProofParams<C>,
    commitment: C,
    alpha: Seq<Fr>,
    sigma: Fr,
    log0: Seq<TranscriptEntry>,
) -> Seq<int> {
    let m = pp.m;
    let l = pp.l;
    let init = bp_init_log(log0, m, l, commitment, alpha, sigma);
    bp_xs(init, proof.cm_L@, proof.cm_R@, proof.lf_L@, proof.lf_R@, l as nat)
}

/// The verifier's verdict for the batching scalar `r`: the evaluation claim
/// folded from `sigma` agrees with the folded witness, and the batched
/// multi-scalar multiplication equals `r · P` for the folded commitment
/// claim `P`.
pub open spec fn bp_verdict<C: InnerProduct + ByteSerializable>(
    proof: BulletProof<C>,
    pp: BulletProofParams<C>,
    commitment: C,
    alpha: Seq<Fr>,
    sigma: Fr,
    log0: Seq<TranscriptEntry>,
    r: int,
) -> bool {
    let m = pp.m;
    let l = pp.l;
    let xs = bp_verifier_xs(proof, pp, commitment, alpha, sigma, log0);
    let ys = bp_queries(bp_after_log(proof, pp, commitment, alpha, sigma, log0), BP_NUM_QUERIES as nat, pp.domain_g@.len() as int);
    let p = bp_p(commitment.lin_val(), proof.cm_L@, proof.cm_R@, xs, l as nat);
    &&& bp_value_ok(proof, l as nat, alpha, sigma, xs)
    &&& dot(
        lvals(proof.g_folded_poly.coeffs@) + bp_leaves(pp.g_by_cosets@, ys, BP_NUM_QUERIES as nat),
        bp_scalars(
            pp.domain_g@,
            ys,
            r,
            lvals(proof.a_folded_poly.coeffs@),
            seq_mod(eq_table(xs), q()),
            (m - l) as nat,
            BP_NUM_QUERIES as nat,
        ),
    ) % q() == (p * r) % q()
}

proof fn lemma_bp_p_step(p: int, x: int, cl: int, cr: int, omx: int)
    requires
        omx == (1 - x) % q(),
    ensures
        (((((p * x) % q()) * omx) % q() + (((cl * omx) % q()) * omx) % q()) % q() + (((cr * x) % q()) * x) % q()) % q()
            == (p * x * (1 - x) + cl * (1 - x) * (1 - x) + cr * x * x) % q(),
{
    let qq = q();
    lemma_mul_mod_noop_left(p * x, omx, qq);
    lemma_mul_mod_noop_right(p * x, 1 - x, qq);
    lemma_mul_mod_noop_right(cl, 1 - x, qq);
    lemma_mul_mod_noop_left(cl * omx, omx, qq);
    lemma_mul_mod_noop_left(cl * (1 - x), omx, qq);
    assert((cl * omx) * omx == omx * (cl * omx)) by (nonlinear_arith);
    lemma_mul_mod_noop_right(cl * (1 - x), 1 - x, qq);
    lemma_mul_mod_noop_left(cr * x, x, qq);
    let a = p * x * (1 - x);
    let b = cl * (1 - x) * (1 - x);
    let c = cr * x * x;
    assert((((cl * omx) % qq) * omx) % qq == b % qq) by {
        lemma_mul_mod_noop_left(cl * omx, omx, qq);
        lemma_mul_mod_noop_right(cl, 1 - x, qq);
        lemma_mul_mod_noop_left(cl * (1 - x), omx, qq);
        assert((cl * omx) % qq == (cl * (1 - x)) % qq);
        crate::sums::lemma_mul_mod_congruent(cl * omx, cl * (1 - x), omx, qq);
    }
    vstd::arithmetic::div_mod::lemma_add_mod_noop(a, b, qq);
    vstd::arithmetic::div_mod::lemma_add_mod_noop(a + b, c, qq);
    lemma_mod_twice(a + b, qq);
}

/// The evaluation claim folded with one challenge:
/// `x(1-x)·v + (1-x)^2·aR + x^2·aL`.
fn fold_claim(v: &Fr, x: &Fr, omx: &Fr, al: &Fr, ar: &Fr) -> (r: Fr)
    requires
        omx.val() == (1 - x.val()) % q(),
    ensures
        r.val() == (v.val() * x.val() * (1 - x.val()) + ar.val() * (1 - x.val()) * (1 - x.val()) + al.val() * x.val()
            * x.val()) % q(),
{
    let v1 = fr_mul(&fr_mul(v, x), omx);
    let v2 = fr_mul(&fr_mul(ar, omx), omx);
    let v3 = fr_mul(&fr_mul(al, x), x);
    proof {
        lemma_bp_p_step(v.val(), x.val(), ar.val(), al.val(), omx.val());
    }
    fr_add(&fr_add(&v1, &v2), &v3)
}

impl ProtoBulletProofGroup {
    /// The verifier for a given batching scalar `r`: it replays the
    /// transcript, folds the commitment claim with each challenge, draws the
    /// coset queries and makes the batched check.
    #[allow(non_snake_case)]
    pub fn verify_with_randomness<C: InnerProduct + ByteSerializable>(
        proof: &BulletProof<C>,
        instance: &BulletProofInstance<'_, C>,
        transcript: &mut TitanTranscript,
        r: &Fr,
    ) -> (ok: bool)
        requires
            instance.pp.wf(),
            proof.cm_L@.len() >= instance.pp.l,
            proof.cm_R@.len() >= instance.pp.l,
            proof.lf_L@.len() >= instance.pp.l,
            proof.lf_R@.len() >= instance.pp.l,
            proof.g_folded_poly.coeffs@.len() == exp2((instance.pp.m - instance.pp.l) as nat),
            proof.a_folded_poly.coeffs@.len() == exp2((instance.pp.m - instance.pp.l) as nat),
            36 * exp2(instance.pp.m as nat) <= usize::MAX,
            instance.alpha@.len() == instance.pp.m,
        ensures
            ok == bp_verdict(*proof, *instance.pp, instance.commitment, instance.alpha@, instance.sigma, old(transcript)@, r.val()),
            final(transcript)@ == bp_query_log(bp_after_log(*proof, *instance.pp, instance.commitment, instance.alpha@, instance.sigma, old(transcript)@), BP_NUM_QUERIES as nat),
    {
        let m = instance.pp.m;
        let l = instance.pp.l;
        let ghost log0 = transcript@;
        let proto = "bulletproof".as_bytes();
        proof {
            reveal_strlit("bulletproof");
            vstd::string::is_ascii_spec_bytes("bulletproof");
        }
        transcript.append_message("protocol", proto);
        transcript.append_u64("m", m as u64);
        transcript.append_u64("l", l as u64);
        append_to_transcript(transcript, "commitment", &instance.commitment);
        let ghost base = transcript@;
        let mut k: usize = 0;
        proof {
            assert(ser_msgs(base, "alpha"@, instance.alpha@.take(0)) =~= base);
        }
        while k < instance.alpha.len()
            invariant
                k <= instance.alpha@.len(),
                transcript@ == ser_msgs(base, "alpha"@, instance.alpha@.take(k as int)),
            decreases instance.alpha@.len() - k,
        {
            append_to_transcript(transcript, "alpha", &instance.alpha[k]);
            proof {
                assert(ser_msgs(base, "alpha"@, instance.alpha@.take(k + 1)) =~= ser_msgs(
                    base,
                    "alpha"@,
                    instance.alpha@.take(k as int),
                ).push(TranscriptEntry::Message("alpha"@, instance.alpha@[k as int].ser())));
            }
            k = k + 1;
        }
        proof {
            assert(instance.alpha@.take(instance.alpha@.len() as int) =~= instance.alpha@);
        }
        append_to_transcript(transcript, "sigma", &instance.sigma);
        let ghost init = transcript@;
        let ghost xs = bp_xs(init, proof.cm_L@, proof.cm_R@, proof.lf_L@, proof.lf_R@, l as nat);
        proof {
            assert(init == bp_init_log(log0, m, l, instance.commitment, instance.alpha@, instance.sigma));
            assert(xs == bp_verifier_xs(*proof, *instance.pp, instance.commitment, instance.alpha@, instance.sigma, log0));
        }
        let mut ch_vec: Vec<Fr> = Vec::new();
        let mut P: C = instance.commitment;
        let mut V: Fr = instance.sigma;
        let mut i: usize = 0;
        while i < l
            invariant
                i <= l,
                V.val() == bp_v(instance.sigma.val(), proof.lf_L@, proof.lf_R@, xs, i as nat),
                l == instance.pp.l,
                proof.cm_L@.len() >= l,
                proof.cm_R@.len() >= l,
                proof.lf_L@.len() >= l,
                proof.lf_R@.len() >= l,
                xs == bp_xs(init, proof.cm_L@, proof.cm_R@, proof.lf_L@, proof.lf_R@, l as nat),
                ch_vec@.len() == i,
                lvals(ch_vec@) == xs.take(i as int),
                P.lin_val() == bp_p(instance.commitment.lin_val(), proof.cm_L@, proof.cm_R@, xs, i as nat),
                transcript@ == bp_log(init, proof.cm_L@, proof.cm_R@, proof.lf_L@, proof.lf_R@, i as nat),
            decreases l - i,
        {
            let cl = proof.cm_L[i];
            let cr = proof.cm_R[i];
            let al = proof.lf_L[i];
            let ar = proof.lf_R[i];
            append_to_transcript(transcript, "cmL", &cl);
            append_to_transcript(transcript, "cmR", &cr);
            append_to_transcript(transcript, "lfL", &al);
            append_to_transcript(transcript, "lfR", &ar);
            let x = get_challenge(transcript, "x");
            let ghost ch_old = lvals(ch_vec@);
            ch_vec.push(x);
            let omx = fr_one_minus(&x);
            let t1 = P.lin_scale(&x).lin_scale(&omx);
            let t2 = cl.lin_scale(&omx).lin_scale(&omx);
            let t3 = cr.lin_scale(&x).lin_scale(&x);
            let np = t1.lin_add(&t2).lin_add(&t3);
            let nv = fold_claim(&V, &x, &omx, &al, &ar);
            proof {
                assert(x.val() == xs[i as int]);
                assert(lvals(ch_vec@) =~= xs.take(i + 1));
                lemma_bp_p_step(P.lin_val(), x.val(), cl.lin_val(), cr.lin_val(), omx.val());
            }
            P = np;
            V = nv;
            i = i + 1;
        }
        proof {
            assert(xs.take(l as int) =~= xs);
        }
        let mut e = MultilinearPoly::<Fr>::init_with_eq(instance.alpha.as_slice());
        let ghost e0 = seq_mod(eq_table(lvals(instance.alpha@)), q());
        let mut j: usize = 0;
        proof {
            assert(xs.take(0) =~= Seq::<int>::empty());
        }
        while j < l
            invariant
                j <= l,
                l == instance.pp.l,
                l <= m,
                ch_vec@.len() == l,
                lvals(ch_vec@) == xs,
                xs.len() == l,
                e.wf(),
                e.num_vars == m - j,
                e.table() == bp_e_tab(e0, xs.take(j as int)),
            decreases l - j,
        {
            proof {
                assert(xs.take(j + 1).drop_last() =~= xs.take(j as int));
                assert(lvals(ch_vec@)[j as int] == ch_vec@[j as int].val());
            }
            e.fold(ch_vec[j]);
            j = j + 1;
        }
        proof {
            assert(xs.take(l as int) =~= xs);
        }
        let lhs = linear_combination(proof.a_folded_poly.coeffs.as_slice(), e.coeffs.as_slice());
        let value_ok = fr_eq(&V, &lhs);
        let g_f = &proof.g_folded_poly.coeffs;
        let a_f = &proof.a_folded_poly.coeffs;
        let ghost before_g = transcript@;
        let mut k: usize = 0;
        proof {
            assert(ser_msgs(before_g, "g_poly"@, g_f@.take(0)) =~= before_g);
        }
        while k < g_f.len()
            invariant
                k <= g_f@.len(),
                transcript@ == ser_msgs(before_g, "g_poly"@, g_f@.take(k as int)),
            decreases g_f@.len() - k,
        {
            append_to_transcript(transcript, "g_poly", &g_f[k]);
            proof {
                assert(ser_msgs(before_g, "g_poly"@, g_f@.take(k + 1)) =~= ser_msgs(
                    before_g,
                    "g_poly"@,
                    g_f@.take(k as int),
                ).push(TranscriptEntry::Message("g_poly"@, g_f@[k as int].ser())));
            }
            k = k + 1;
        }
        proof {
            assert(g_f@.take(g_f@.len() as int) =~= g_f@);
        }
        let ghost before_a = transcript@;
        let mut k: usize = 0;
        proof {
            assert(ser_msgs(before_a, "a_poly"@, a_f@.take(0)) =~= before_a);
        }
        while k < a_f.len()
            invariant
                k <= a_f@.len(),
                transcript@ == ser_msgs(before_a, "a_poly"@, a_f@.take(k as int)),
            decreases a_f@.len() - k,
        {
            append_to_transcript(transcript, "a_poly", &a_f[k]);
            proof {
                assert(ser_msgs(before_a, "a_poly"@, a_f@.take(k + 1)) =~= ser_msgs(
                    before_a,
                    "a_poly"@,
                    a_f@.take(k as int),
                ).push(TranscriptEntry::Message("a_poly"@, a_f@[k as int].ser())));
            }
            k = k + 1;
        }
        proof {
            assert(a_f@.take(a_f@.len() as int) =~= a_f@);
        }
        let ghost after = transcript@;
        proof {
            assert(after == bp_after_log(*proof, *instance.pp, instance.commitment, instance.alpha@, instance.sigma, log0));
        }
        let dl = instance.pp.domain_g.len();
        proof {
            lemma_exp2_pos(l as nat);
        }
        let mut ys: Vec<usize> = Vec::new();
        let mut k: usize = 0;
        proof {
            assert(bp_query_log(after, 0) =~= after);
        }
        while k < BP_NUM_QUERIES
            invariant
                k <= BP_NUM_QUERIES,
                dl == instance.pp.domain_g@.len(),
                dl > 0,
                ys@.len() == k,
                transcript@ == bp_query_log(after, k as nat),
                forall|t: int| 0 <= t < k ==> #[trigger] ys@[t] < dl,
                forall|t: int|
                    0 <= t < k ==> #[trigger] ys@[t] as int == bp_queries(after, BP_NUM_QUERIES as nat, dl as int)[t],
            decreases BP_NUM_QUERIES - k,
        {
            let c = crate::transcript::get_challenge_u64(transcript, "challenge_y");
            let y = (c % (dl as u64)) as usize;
            ys.push(y);
            proof {
                assert(bp_query_log(after, (k + 1) as nat) =~= bp_query_log(after, k as nat).push(
                    TranscriptEntry::Challenge("challenge_y"@, 8),
                ));
            }
            k = k + 1;
        }
        proof {
            assert(ys@.map_values(|y: usize| y as int) =~= bp_queries(after, BP_NUM_QUERIES as nat, dl as int));
            assert(lvals(ch_vec@) =~= xs);
        }
        let batch_ok = bp_final_check(instance.pp, g_f, a_f, &ch_vec, &ys, &P, r);
        value_ok && batch_ok
    }

    /// The verifier: as `verify_with_randomness`, with the batching scalar
    /// drawn at random.
    pub fn verify<C: InnerProduct + ByteSerializable>(
        proof: &BulletProof<C>,
        instance: &BulletProofInstance<'_, C>,
        transcript: &mut TitanTranscript,
    ) -> (ok: bool)
        requires
            instance.pp.wf(),
            proof.cm_L@.len() >= instance.pp.l,
            proof.cm_R@.len() >= instance.pp.l,
            proof.lf_L@.len() >= instance.pp.l,
            proof.lf_R@.len() >= instance.pp.l,
            proof.g_folded_poly.coeffs@.len() == exp2((instance.pp.m - instance.pp.l) as nat),
            proof.a_folded_poly.coeffs@.len() == exp2((instance.pp.m - instance.pp.l) as nat),
            36 * exp2(instance.pp.m as nat) <= usize::MAX,
            instance.alpha@.len() == instance.pp.m,
        ensures
            exists|r: int| 0 <= r < q() && ok == bp_verdict(*proof, *instance.pp, instance.commitment, instance.alpha@, instance.sigma, old(transcript)@, r),
            final(transcript)@ == bp_query_log(bp_after_log(*proof, *instance.pp, instance.commitment, instance.alpha@, instance.sigma, old(transcript)@), BP_NUM_QUERIES as nat),
    {
        let r = crate::field::fr_random();
        proof {
            r.lemma_val_range();
        }
        Self::verify_with_randomness(proof, instance, transcript, &r)
    }
}


/// `(a0 x + a1 y)(e0 y + e1 x)` expanded.
proof fn lemma_four_products(a0: int, a1: int, e0: int, e1: int, x: int, y: int)
    ensures
        (a0 * x + a1 * y) * (e0 * y + e1 * x) == x * y * (a0 * e0 + a1 * e1) + y * y * (a1 * e0) + x * x * (a0 * e1),
{
    let (p, r) = (a0 * x, a1 * y);
    let (u, w) = (e0 * y, e1 * x);
    assert((p + r) * (u + w) == p * u + p * w + r * u + r * w) by (nonlinear_arith);
    assert(p * u == x * y * (a0 * e0)) by (nonlinear_arith)
        requires
            p == a0 * x,
            u == e0 * y,
    ;
    assert(p * w == x * x * (a0 * e1)) by (nonlinear_arith)
        requires
            p == a0 * x,
            w == e1 * x,
    ;
    assert(r * u == y * y * (a1 * e0)) by (nonlinear_arith)
        requires
            r == a1 * y,
            u == e0 * y,
    ;
    assert(r * w == x * y * (a1 * e1)) by (nonlinear_arith)
        requires
            r == a1 * y,
            w == e1 * x,
    ;
    assert(x * y * (a0 * e0) + x * y * (a1 * e1) == x * y * (a0 * e0 + a1 * e1)) by (nonlinear_arith);
}

/// Folding the witness with `1 - x` and the `eq` table with `x`:
/// `⟨a', e'⟩ = x(1-x)⟨a, e⟩ + (1-x)^2 ⟨a_hi, e_lo⟩ + x^2 ⟨a_lo, e_hi⟩`.
pub(crate) proof fn lemma_fold_dot(a: Seq<int>, e: Seq<int>, x: int)
    requires
        a.len() == e.len(),
        a.len() % 2 == 0,
    ensures
        ({
            let h = (a.len() / 2) as int;
            dot(fold_hi(a, 1 - x), fold_hi(e, x)) == x * (1 - x) * dot(a, e) + (1 - x) * (1 - x) * dot(
                a.skip(h),
                e.take(h),
            ) + x * x * dot(a.take(h), e.skip(h))
        }),
{
    let n = a.len() as int;
    let h = n / 2;
    let fa = fold_hi(a, 1 - x);
    let fe = fold_hi(e, x);
    let t = Seq::new(h as nat, |i: int| fa[i] * fe[i]);
    let p = Seq::new(h as nat, |i: int| a[i] * e[i]);
    let qq = Seq::new(h as nat, |i: int| a[i + h] * e[i + h]);
    let r = Seq::new(h as nat, |i: int| a[i + h] * e[i]);
    let s = Seq::new(h as nat, |i: int| a[i] * e[i + h]);
    let pq = Seq::new(h as nat, |i: int| p[i] + qq[i]);
    let c1 = x * (1 - x);
    let c2 = (1 - x) * (1 - x);
    let c3 = x * x;
    let u1 = Seq::new(h as nat, |i: int| c1 * pq[i]);
    let u2 = Seq::new(h as nat, |i: int| c2 * r[i]);
    let u3 = Seq::new(h as nat, |i: int| c3 * s[i]);
    let u12 = Seq::new(h as nat, |i: int| u1[i] + u2[i]);
    assert forall|i: int| 0 <= i < h implies #[trigger] t[i] == u12[i] + u3[i] by {
        let (a0, a1, e0, e1) = (a[i], a[i + h], e[i], e[i + h]);
        let y = 1 - x;
        assert(fa[i] == a0 * x + a1 * y);
        assert(fe[i] == e0 * y + e1 * x);
        lemma_four_products(a0, a1, e0, e1, x, y);
    }
    lemma_ssum_add(t, u12, u3);
    lemma_ssum_add(u12, u1, u2);
    lemma_ssum_scale(u1, pq, c1);
    lemma_ssum_scale(u2, r, c2);
    lemma_ssum_scale(u3, s, c3);
    lemma_ssum_add(pq, p, qq);
    let full = Seq::new(n as nat, |i: int| a[i] * e[i]);
    lemma_ssum_split(full, h);
    assert(full.take(h) =~= p);
    assert(full.skip(h) =~= qq);
    assert(Seq::new(min_len(fa.len() as int, fe.len() as int) as nat, |i: int| fa[i] * fe[i]) =~= t);
    assert(Seq::new(min_len(a.len() as int, e.len() as int) as nat, |i: int| a[i] * e[i]) =~= full);
    assert(Seq::new(min_len(a.skip(h).len() as int, e.take(h).len() as int) as nat, |i: int| a.skip(h)[i] * e.take(h)[i]) =~= r);
    assert(Seq::new(min_len(a.take(h).len() as int, e.skip(h).len() as int) as nat, |i: int| a.take(h)[i] * e.skip(h)[i]) =~= s);
}

/// The folded tables have `2^(m - i)` entries after `i` rounds.
pub(crate) proof fn lemma_bp_tabs_len(a0: Seq<int>, e0: Seq<int>, xs: Seq<int>, m: nat)
    requires
        a0.len() == exp2(m),
        e0.len() == exp2(m),
        xs.len() <= m,
    ensures
        bp_a_tab(a0, xs).len() == exp2((m - xs.len()) as nat),
        bp_e_tab(e0, xs).len() == exp2((m - xs.len()) as nat),
    decreases xs.len(),
{
    if xs.len() > 0 {
        lemma_bp_tabs_len(a0, e0, xs.drop_last(), m);
        let k = (m - xs.len()) as nat;
        assert(exp2(k + 1) == 2 * exp2(k));
        assert((m - xs.drop_last().len()) as nat == k + 1);
    }
}

/// Congruent parts give congruent combinations.
pub(crate) proof fn lemma_claim_congr(v: int, d: int, ar: int, r: int, al: int, s: int, x: int)
    requires
        v % q() == d % q(),
        ar % q() == r % q(),
        al % q() == s % q(),
    ensures
        (v * x * (1 - x) + ar * (1 - x) * (1 - x) + al * x * x) % q() == (x * (1 - x) * d + (1 - x) * (1 - x) * r + x
            * x * s) % q(),
{
    let qq = q();
    assert(v * x * (1 - x) == v * (x * (1 - x))) by (nonlinear_arith);
    assert(ar * (1 - x) * (1 - x) == ar * ((1 - x) * (1 - x))) by (nonlinear_arith);
    assert(al * x * x == al * (x * x)) by (nonlinear_arith);
    assert(x * (1 - x) * d == d * (x * (1 - x))) by (nonlinear_arith);
    assert((1 - x) * (1 - x) * r == r * ((1 - x) * (1 - x))) by (nonlinear_arith);
    assert(x * x * s == s * (x * x)) by (nonlinear_arith);
    crate::sums::lemma_mul_mod_congruent(v, d, x * (1 - x), qq);
    crate::sums::lemma_mul_mod_congruent(ar, r, (1 - x) * (1 - x), qq);
    crate::sums::lemma_mul_mod_congruent(al, s, x * x, qq);
    vstd::arithmetic::div_mod::lemma_add_mod_noop(v * (x * (1 - x)), ar * ((1 - x) * (1 - x)), qq);
    vstd::arithmetic::div_mod::lemma_add_mod_noop(d * (x * (1 - x)), r * ((1 - x) * (1 - x)), qq);
    vstd::arithmetic::div_mod::lemma_add_mod_noop(v * (x * (1 - x)) + ar * ((1 - x) * (1 - x)), al * (x * x), qq);
    vstd::arithmetic::div_mod::lemma_add_mod_noop(d * (x * (1 - x)) + r * ((1 - x) * (1 - x)), s * (x * x), qq);
}

/// The honest cross terms keep the evaluation claim: after `i` rounds the
/// claim folded from `⟨a0, e0⟩` is the folded witness against the folded
/// `eq` table, modulo `q`.
proof fn lemma_bp_claim_rounds(v0: int, a0: Seq<int>, e0: Seq<int>, als: Seq<Fr>, ars: Seq<Fr>, xs: Seq<int>, m: nat, i: nat)
    requires
        a0.len() == exp2(m),
        e0.len() == exp2(m),
        i <= xs.len() <= m,
        als.len() >= xs.len() && ars.len() >= xs.len(),
        v0 % q() == dot(a0, e0) % q(),
        forall|j: int|
            0 <= j < xs.len() ==> #[trigger] als[j].val() == bp_al(bp_a_tab(a0, xs.take(j)), bp_e_tab(e0, xs.take(j)))
                && ars[j].val() == bp_ar(bp_a_tab(a0, xs.take(j)), bp_e_tab(e0, xs.take(j))),
    ensures
        bp_v(v0, als, ars, xs, i) % q() == dot(bp_a_tab(a0, xs.take(i as int)), bp_e_tab(e0, xs.take(i as int))) % q(),
    decreases i,
{
    if i == 0 {
        assert(xs.take(0) =~= Seq::<int>::empty());
    } else {
        let j = (i - 1) as int;
        lemma_bp_claim_rounds(v0, a0, e0, als, ars, xs, m, (i - 1) as nat);
        let aa = bp_a_tab(a0, xs.take(j));
        let ee = bp_e_tab(e0, xs.take(j));
        let x = xs[j];
        lemma_bp_tabs_len(a0, e0, xs.take(j), m);
        let k = (m - j) as nat;
        assert(exp2(k) == 2 * exp2((k - 1) as nat));
        assert(xs.take(i as int).drop_last() =~= xs.take(j));
        assert(xs.take(i as int).last() == x);
        let h = (aa.len() / 2) as int;
        lemma_fold_dot(aa, ee, x);
        // the stored tables are the folds reduced modulo q, with 1 - x reduced too
        let fa = fold_hi(aa, (1 - x) % q());
        let fe = fold_hi(ee, x);
        lemma_folded_dot_mod(aa, ee, x);
        assert(bp_a_tab(a0, xs.take(i as int)) == seq_mod(fa, q()));
        assert(bp_e_tab(e0, xs.take(i as int)) == seq_mod(fe, q()));
        let vv = bp_v(v0, als, ars, xs, (i - 1) as nat);
        lemma_mod_twice(dot(aa.skip(h), ee.take(h)), q());
        lemma_mod_twice(dot(aa.take(h), ee.skip(h)), q());
        lemma_claim_congr(vv, dot(aa, ee), ars[j].val(), dot(aa.skip(h), ee.take(h)), als[j].val(), dot(aa.take(h), ee.skip(h)), x);
    }
}

/// Folding with `1 - x` reduced modulo `q` and reducing the folded tables
/// keeps their inner product modulo `q`.
pub(crate) proof fn lemma_folded_dot_mod(aa: Seq<int>, ee: Seq<int>, x: int)
    requires
        aa.len() == ee.len(),
        aa.len() % 2 == 0,
    ensures
        dot(seq_mod(fold_hi(aa, (1 - x) % q()), q()), seq_mod(fold_hi(ee, x), q())) % q() == dot(
            fold_hi(aa, 1 - x),
            fold_hi(ee, x),
        ) % q(),
{
    let h = (aa.len() / 2) as int;
    let fa = fold_hi(aa, (1 - x) % q());
    let fa2 = fold_hi(aa, 1 - x);
    let fe = fold_hi(ee, x);
    let t1 = Seq::new(min_len(seq_mod(fa, q()).len() as int, seq_mod(fe, q()).len() as int) as nat, |t: int| seq_mod(fa, q())[t] * seq_mod(fe, q())[t]);
    let t2 = Seq::new(min_len(fa2.len() as int, fe.len() as int) as nat, |t: int| fa2[t] * fe[t]);
    assert forall|t: int| 0 <= t < t1.len() implies #[trigger] t1[t] % q() == t2[t] % q() by {
        let (c0, c1) = (aa[t], aa[t + h]);
        crate::sums::lemma_mul_mod_congruent((1 - x) % q(), 1 - x, c1, q());
        assert(((1 - x) % q()) % q() == (1 - x) % q()) by {
            lemma_mod_twice(1 - x, q());
        }
        assert(c1 * ((1 - x) % q()) == ((1 - x) % q()) * c1) by (nonlinear_arith);
        assert(c1 * (1 - x) == (1 - x) * c1) by (nonlinear_arith);
        assert(1 - (1 - x) % q() == 1 - (1 - x) % q());
        // (1 - r) for r = (1-x) % q is congruent to x
        let r = (1 - x) % q();
        vstd::arithmetic::div_mod::lemma_sub_mod_noop(1, 1 - x, q());
        vstd::arithmetic::div_mod::lemma_sub_mod_noop(1, r, q());
        lemma_mod_twice(1 - x, q());
        crate::sums::lemma_mul_mod_congruent(1 - r, 1 - (1 - x), c0, q());
        assert(c0 * (1 - r) == (1 - r) * c0) by (nonlinear_arith);
        assert(c0 * (1 - (1 - x)) == (1 - (1 - x)) * c0) by (nonlinear_arith);
        vstd::arithmetic::div_mod::lemma_add_mod_noop(c0 * (1 - r), c1 * r, q());
        vstd::arithmetic::div_mod::lemma_add_mod_noop(c0 * (1 - (1 - x)), c1 * (1 - x), q());
        assert(fa[t] % q() == fa2[t] % q());
        lemma_mod_twice(fa[t], q());
        lemma_mod_twice(fe[t], q());
        crate::sums::lemma_mul_mod_congruent(seq_mod(fa, q())[t], fa2[t], seq_mod(fe, q())[t], q());
        crate::sums::lemma_mul_mod_congruent(seq_mod(fe, q())[t], fe[t], fa2[t], q());
        assert(seq_mod(fa, q())[t] * seq_mod(fe, q())[t] == seq_mod(fe, q())[t] * seq_mod(fa, q())[t]) by (nonlinear_arith);
        assert(fa2[t] * seq_mod(fe, q())[t] == seq_mod(fe, q())[t] * fa2[t]) by (nonlinear_arith);
        assert(fe[t] * fa2[t] == fa2[t] * fe[t]) by (nonlinear_arith);
    }
    lemma_ssum_mod(t1, t2, q());
}

/// The evaluation half of the argument's completeness: on the honest
/// prover's proof for `sigma = a(alpha)`, the evaluation claim folded from
/// `sigma` through the rounds agrees with the folded witness, as the
/// verifier checks.
pub proof fn law_bp_evaluation_complete<C: InnerProduct + ByteSerializable>(
    pp: BulletProofParams<C>,
    commitment: C,
    alpha: Seq<Fr>,
    sigma: Fr,
    a0: Seq<int>,
    log0: Seq<TranscriptEntry>,
    proof: BulletProof<C>,
    log1: Seq<TranscriptEntry>,
)
    requires
        bp_prove_post(pp, commitment, alpha, sigma, a0, log0, proof, log1),
        pp.l <= pp.m,
        alpha.len() == pp.m,
        a0.len() == exp2(pp.m as nat),
        sigma.val() == dot(a0, seq_mod(eq_table(lvals(alpha)), q())) % q(),
    ensures
        bp_value_ok(proof, pp.l as nat, alpha, sigma, bp_verifier_xs(proof, pp, commitment, alpha, sigma, log0)),
{
    let init = bp_init_log(log0, pp.m, pp.l, commitment, alpha, sigma);
    let xs = bp_xs(init, proof.cm_L@, proof.cm_R@, proof.lf_L@, proof.lf_R@, pp.l as nat);
    let e0 = seq_mod(eq_table(lvals(alpha)), q());
    assert(e0.len() == exp2(pp.m as nat));
    lemma_mod_twice(dot(a0, e0), q());
    lemma_bp_claim_rounds(sigma.val(), a0, e0, proof.lf_L@, proof.lf_R@, xs, pp.m as nat, pp.l as nat);
    assert(xs.take(pp.l as int) =~= xs);
    let v = bp_v(sigma.val(), proof.lf_L@, proof.lf_R@, xs, pp.l as nat);
    sigma.lemma_val_range();
    assert(0 <= v < q());
    lemma_small_mod(v as nat, q() as nat);
}

} // verus!
