//! The SNARK for R1CS over the polynomial commitment: the verifier replays
//! four field sum-checks (the R1CS relation, the matrix-vector products,
//! memory checking of the sparse index, and the reduction of two openings
//! to one point) and checks the commitment openings they end in.
use vstd::prelude::*;
use vstd::arithmetic::div_mod::{lemma_mul_mod_noop_left, lemma_mul_mod_noop_right, lemma_add_mod_noop, lemma_sub_mod_noop};
use crate::field::{q, Fr, fr_mul, fr_add, fr_sub, fr_one, fr_one_minus, fr_zero, fr_from_u64, fr_eq, fr_of_val, lemma_fr_of_val, le32};
use crate::traits::{lvals, ByteSerializable};
use crate::mle::eq_poly;
use crate::transcript::{TitanTranscript, TranscriptEntry, get_challenge, append_to_transcript, challenge_scalar, merlin_challenge};
use crate::field_sumcheck::{SumCheckProof, sc_log, sc_challenge, sc_prev_claim, sc_round_fails};
use crate::pcs::{
    AggregateEvalProof, TitanBatchEvalProof, TitanSetup, TitanPolyCommitment, gamma_sum, gamma_combination, agg_verdict,
    pcs_batch_verdict, pcs_batch_combined,
};
use crate::sumcheck::roots_view;
use crate::group::Pt;
use crate::r1cs::R1CS;
use crate::config::{TitanSnark, is_next_pow2, next_power_of_two};
use crate::sums::{exp2, lemma_exp2_pos, lemma_exp2_strict, lemma_exp2_monotone};
use crate::multilinear::{log2_exact, pow2_usize};
use crate::field_sumcheck::SubClaim;

verus! {

/// A proof of the SNARK: the four sum-checks with the values of the
/// polynomials they end in, the roots of the commitments made during the
/// proof, and the openings of the committed polynomials.
#[allow(non_snake_case)]
pub struct SpartanProof {
    pub sumcheck_proof_1: SumCheckProof,
    pub a_at_rx: Fr,
    pub b_at_rx: Fr,
    pub c_at_rx: Fr,
    pub sumcheck_proof_2: SumCheckProof,
    pub eA_at_ry: Fr,
    pub eB_at_ry: Fr,
    pub eC_at_ry: Fr,
    pub z_at_ry: Fr,
    pub comm_pqm_root: [u8; 32],
    pub comm_g_root: [u8; 32],
    pub comm_z_root: [u8; 32],
    pub sumcheck_proof_3: SumCheckProof,
    pub val_A_at_r3: Fr,
    pub val_B_at_r3: Fr,
    pub val_C_at_r3: Fr,
    pub p_at_r3: Fr,
    pub q_at_r3: Fr,
    pub g_at_r3: Fr,
    pub row_at_r3: Fr,
    pub col_at_r3: Fr,
    pub m_r_at_r3: Fr,
    pub m_c_at_r3: Fr,
    pub sumcheck_proof_4: SumCheckProof,
    pub z_at_r4: Fr,
    pub g_at_r4: Fr,
    pub agg_pqm_proof: AggregateEvalProof,
    pub batch_index_proof: TitanBatchEvalProof,
    pub batch_zg_proof: TitanBatchEvalProof,
}

/// `k` challenges with one label appended to the transcript.
pub open spec fn chal_log(log: Seq<TranscriptEntry>, label: Seq<char>, k: nat) -> Seq<TranscriptEntry> {
    log + Seq::new(k, |j: int| TranscriptEntry::Challenge(label, 64))
}

/// The value of a challenge drawn with the label.
pub open spec fn chal(log: Seq<TranscriptEntry>, label: Seq<char>) -> int {
    challenge_scalar(merlin_challenge(log, label, 64))
}

/// The values of `k` challenges drawn one after another with the label.
pub open spec fn chal_vals(log: Seq<TranscriptEntry>, label: Seq<char>, k: nat) -> Seq<int> {
    Seq::new(k, |j: int| chal(chal_log(log, label, j as nat), label))
}

/// Draws `k` challenges with the label.
pub(crate) fn draw_challenges(t: &mut TitanTranscript, label: &'static str, k: usize) -> (r: Vec<Fr>)
    ensures
        r@.len() == k,
        lvals(r@) == chal_vals(old(t)@, label@, k as nat),
        forall|j: int| 0 <= j < k ==> (#[trigger] r@[j]).enc() == le32(r@[j].val()),
        final(t)@ == chal_log(old(t)@, label@, k as nat),
{
    let ghost log0 = t@;
    let mut out: Vec<Fr> = Vec::new();
    let mut i: usize = 0;
    proof {
        assert(chal_log(log0, label@, 0) =~= log0);
    }
    while i < k
        invariant
            i <= k,
            out@.len() == i,
            t@ == chal_log(log0, label@, i as nat),
            forall|j: int| 0 <= j < i ==> (#[trigger] out@[j]).val() == chal(chal_log(log0, label@, j as nat), label@),
            forall|j: int| 0 <= j < i ==> (#[trigger] out@[j]).enc() == le32(out@[j].val()),
        decreases k - i,
    {
        let c = get_challenge(t, label);
        proof {
            assert(chal_log(log0, label@, (i + 1) as nat) =~= chal_log(log0, label@, i as nat).push(
                TranscriptEntry::Challenge(label@, 64),
            ));
        }
        out.push(c);
        i = i + 1;
    }
    proof {
        assert(lvals(out@) =~= chal_vals(log0, label@, k as nat));
    }
    out
}

/// `x · y` in the field, for values standing for `a` and `b`.
pub(crate) fn fmul(x: &Fr, y: &Fr, Ghost(a): Ghost<int>, Ghost(b): Ghost<int>) -> (r: Fr)
    requires
        x.val() == a % q(),
        y.val() == b % q(),
    ensures
        r.val() == (a * b) % q(),
{
    proof {
        lemma_mul_mod_noop_left(a, b % q(), q());
        lemma_mul_mod_noop_right(a, b, q());
    }
    fr_mul(x, y)
}

/// `x + y` in the field, for values standing for `a` and `b`.
pub(crate) fn fadd(x: &Fr, y: &Fr, Ghost(a): Ghost<int>, Ghost(b): Ghost<int>) -> (r: Fr)
    requires
        x.val() == a % q(),
        y.val() == b % q(),
    ensures
        r.val() == (a + b) % q(),
{
    proof {
        lemma_add_mod_noop(a, b, q());
    }
    fr_add(x, y)
}

/// `x - y` in the field, for values standing for `a` and `b`.
pub(crate) fn fsub(x: &Fr, y: &Fr, Ghost(a): Ghost<int>, Ghost(b): Ghost<int>) -> (r: Fr)
    requires
        x.val() == a % q(),
        y.val() == b % q(),
    ensures
        r.val() == (a - b) % q(),
{
    proof {
        lemma_sub_mod_noop(a, b, q());
    }
    fr_sub(x, y)
}

/// The value of an element stands for itself modulo `q`.
pub(crate) proof fn lemma_val_mod(x: Fr)
    ensures
        x.val() == x.val() % q(),
{
    x.lemma_val_range();
    vstd::arithmetic::div_mod::lemma_small_mod(x.val() as nat, q() as nat);
}

/// `eq(a, b)` over the common length of `a` and `b`.
pub open spec fn eq_zip(a: Seq<int>, b: Seq<int>) -> int {
    let k = if a.len() <= b.len() { a.len() } else { b.len() };
    eq_poly(a.take(k as int), b.take(k as int))
}

/// `eq(a, b) = Π_j (a_j b_j + (1 - a_j)(1 - b_j))` over the common length.
pub(crate) fn eq_eval(x: &[Fr], y: &[Fr]) -> (r: Fr)
    ensures
        r.val() == eq_zip(lvals(x@), lvals(y@)) % q(),
{
    let n = if x.len() <= y.len() { x.len() } else { y.len() };
    let ghost a = lvals(x@).take(n as int);
    let ghost b = lvals(y@).take(n as int);
    let mut acc = fr_one();
    let mut k: usize = n;
    proof {
        assert(a.skip(n as int) =~= Seq::<int>::empty());
        vstd::arithmetic::div_mod::lemma_small_mod(1, q() as nat);
    }
    while k > 0
        invariant
            k <= n,
            n <= x@.len(),
            n <= y@.len(),
            a == lvals(x@).take(n as int),
            b == lvals(y@).take(n as int),
            acc.val() == eq_poly(a.skip(k as int), b.skip(k as int)) % q(),
        decreases k,
    {
        let j = k - 1;
        let ghost xj = a[j as int];
        let ghost yj = b[j as int];
        proof {
            lemma_val_mod(x@[j as int]);
            lemma_val_mod(y@[j as int]);
        }
        let xy = fmul(&x[j], &y[j], Ghost(xj), Ghost(yj));
        let ox = fr_one_minus(&x[j]);
        let oy = fr_one_minus(&y[j]);
        let oxy = fmul(&ox, &oy, Ghost(1 - xj), Ghost(1 - yj));
        let fct = fadd(&xy, &oxy, Ghost(xj * yj), Ghost((1 - xj) * (1 - yj)));
        let ghost rest = eq_poly(a.skip(k as int), b.skip(k as int));
        proof {
            assert(a.skip(j as int).drop_first() =~= a.skip(k as int));
            assert(b.skip(j as int).drop_first() =~= b.skip(k as int));
            assert(eq_poly(a.skip(j as int), b.skip(j as int)) == (xj * yj + (1 - xj) * (1 - yj)) * rest);
        }
        acc = fmul(&fct, &acc, Ghost(xj * yj + (1 - xj) * (1 - yj)), Ghost(rest));
        k = j;
    }
    proof {
        assert(a.skip(0) =~= a);
        assert(b.skip(0) =~= b);
    }
    acc
}

/// The combination the third sum-check ends in at `r3`: the three matrix
/// values times `p · q`, the memory-checking identity weighted by
/// `eq(r3, eta)`, and `g`, combined with the powers of `delta`; `id(r3) =
/// Σ_j 2^j r3_j` and the denominators `d1..d4` are those of the identity.
#[allow(non_snake_case)]
pub open spec fn sn_lhs3(
    p: SpartanProof,
    r3: Seq<int>,
    rx: Seq<int>,
    ry: Seq<int>,
    eta: Seq<int>,
    alpha3: int,
    beta3: int,
    eps: int,
    delta: int,
) -> int {
    let id3 = gamma_sum(r3, 2);
    let d1 = alpha3 + beta3 * id3 + eq_zip(r3, rx);
    let d2 = alpha3 + beta3 * p.row_at_r3.val() + p.p_at_r3.val();
    let d3 = alpha3 + beta3 * id3 + eq_zip(r3, ry);
    let d4 = alpha3 + beta3 * p.col_at_r3.val() + p.q_at_r3.val();
    let pq = p.p_at_r3.val() * p.q_at_r3.val();
    let d1d2 = d1 * d2;
    let d3d4 = d3 * d4;
    let t = p.m_r_at_r3.val() * d2 * d3d4 - d1 * d3d4 + eps * p.m_c_at_r3.val() * d1d2 * d4 - eps * d1d2 * d3;
    let sc4a = eq_zip(r3, eta) * (t - p.g_at_r3.val() * d1d2 * d3d4);
    p.val_A_at_r3.val() * pq + delta * (p.val_B_at_r3.val() * pq) + (delta * delta) * (p.val_C_at_r3.val() * pq)
        + (delta * delta * delta) * sc4a + (delta * delta * delta * delta) * p.g_at_r3.val()
}

/// The value `sn_lhs3` in the field.
#[allow(non_snake_case)]
fn sn_lhs3_value(
    p: &SpartanProof,
    r3: &[Fr],
    rx: &[Fr],
    ry: &[Fr],
    eta: &[Fr],
    alpha3: &Fr,
    beta3: &Fr,
    eps: &Fr,
    delta: &Fr,
) -> (r: Fr)
    ensures
        r.val() == sn_lhs3(
            *p,
            lvals(r3@),
            lvals(rx@),
            lvals(ry@),
            lvals(eta@),
            alpha3.val(),
            beta3.val(),
            eps.val(),
            delta.val(),
        ) % q(),
{
    let ghost (A, B, E, D) = (alpha3.val(), beta3.val(), eps.val(), delta.val());
    let ghost (row, col, pv, qv) = (p.row_at_r3.val(), p.col_at_r3.val(), p.p_at_r3.val(), p.q_at_r3.val());
    let ghost (mr, mc, g) = (p.m_r_at_r3.val(), p.m_c_at_r3.val(), p.g_at_r3.val());
    let ghost (va, vb, vc) = (p.val_A_at_r3.val(), p.val_B_at_r3.val(), p.val_C_at_r3.val());
    proof {
        lemma_val_mod(*alpha3);
        lemma_val_mod(*beta3);
        lemma_val_mod(*eps);
        lemma_val_mod(*delta);
        lemma_val_mod(p.row_at_r3);
        lemma_val_mod(p.col_at_r3);
        lemma_val_mod(p.p_at_r3);
        lemma_val_mod(p.q_at_r3);
        lemma_val_mod(p.m_r_at_r3);
        lemma_val_mod(p.m_c_at_r3);
        lemma_val_mod(p.g_at_r3);
        lemma_val_mod(p.val_A_at_r3);
        lemma_val_mod(p.val_B_at_r3);
        lemma_val_mod(p.val_C_at_r3);
    }
    let two = fr_from_u64(2);
    let id3 = gamma_combination(r3, &two);
    let ghost ID = gamma_sum(lvals(r3@), 2);
    let e_rx = eq_eval(r3, rx);
    let e_ry = eq_eval(r3, ry);
    let e_eta = eq_eval(r3, eta);
    let ghost (ERX, ERY, EETA) = (eq_zip(lvals(r3@), lvals(rx@)), eq_zip(lvals(r3@), lvals(ry@)), eq_zip(lvals(r3@), lvals(eta@)));
    let b_id = fmul(beta3, &id3, Ghost(B), Ghost(ID));
    let d1a = fadd(alpha3, &b_id, Ghost(A), Ghost(B * ID));
    let d1 = fadd(&d1a, &e_rx, Ghost(A + B * ID), Ghost(ERX));
    let b_row = fmul(beta3, &p.row_at_r3, Ghost(B), Ghost(row));
    let d2a = fadd(alpha3, &b_row, Ghost(A), Ghost(B * row));
    let d2 = fadd(&d2a, &p.p_at_r3, Ghost(A + B * row), Ghost(pv));
    let d3 = fadd(&d1a, &e_ry, Ghost(A + B * ID), Ghost(ERY));
    let b_col = fmul(beta3, &p.col_at_r3, Ghost(B), Ghost(col));
    let d4a = fadd(alpha3, &b_col, Ghost(A), Ghost(B * col));
    let d4 = fadd(&d4a, &p.q_at_r3, Ghost(A + B * col), Ghost(qv));
    let ghost (D1, D2, D3, D4) = (A + B * ID + ERX, A + B * row + pv, A + B * ID + ERY, A + B * col + qv);
    let pq = fmul(&p.p_at_r3, &p.q_at_r3, Ghost(pv), Ghost(qv));
    let sc1 = fmul(&p.val_A_at_r3, &pq, Ghost(va), Ghost(pv * qv));
    let sc2 = fmul(&p.val_B_at_r3, &pq, Ghost(vb), Ghost(pv * qv));
    let sc3 = fmul(&p.val_C_at_r3, &pq, Ghost(vc), Ghost(pv * qv));
    let d1d2 = fmul(&d1, &d2, Ghost(D1), Ghost(D2));
    let d3d4 = fmul(&d3, &d4, Ghost(D3), Ghost(D4));
    let mr_d2 = fmul(&p.m_r_at_r3, &d2, Ghost(mr), Ghost(D2));
    let t1 = fmul(&mr_d2, &d3d4, Ghost(mr * D2), Ghost(D3 * D4));
    let t2 = fmul(&d1, &d3d4, Ghost(D1), Ghost(D3 * D4));
    let e_mc = fmul(eps, &p.m_c_at_r3, Ghost(E), Ghost(mc));
    let e_mc_d12 = fmul(&e_mc, &d1d2, Ghost(E * mc), Ghost(D1 * D2));
    let t3 = fmul(&e_mc_d12, &d4, Ghost(E * mc * (D1 * D2)), Ghost(D4));
    let e_d12 = fmul(eps, &d1d2, Ghost(E), Ghost(D1 * D2));
    let t4 = fmul(&e_d12, &d3, Ghost(E * (D1 * D2)), Ghost(D3));
    let ghost (T1, T2, T3, T4) = (mr * D2 * (D3 * D4), D1 * (D3 * D4), E * mc * (D1 * D2) * D4, E * (D1 * D2) * D3);
    let t12 = fsub(&t1, &t2, Ghost(T1), Ghost(T2));
    let t123 = fadd(&t12, &t3, Ghost(T1 - T2), Ghost(T3));
    let t = fsub(&t123, &t4, Ghost(T1 - T2 + T3), Ghost(T4));
    let ghost T = T1 - T2 + T3 - T4;
    let g_d12 = fmul(&p.g_at_r3, &d1d2, Ghost(g), Ghost(D1 * D2));
    let gd = fmul(&g_d12, &d3d4, Ghost(g * (D1 * D2)), Ghost(D3 * D4));
    let inner = fsub(&t, &gd, Ghost(T), Ghost(g * (D1 * D2) * (D3 * D4)));
    let sc4a = fmul(&e_eta, &inner, Ghost(EETA), Ghost(T - g * (D1 * D2) * (D3 * D4)));
    let ghost SC4A = EETA * (T - g * (D1 * D2) * (D3 * D4));
    let delta2 = fmul(delta, delta, Ghost(D), Ghost(D));
    let delta3 = fmul(&delta2, delta, Ghost(D * D), Ghost(D));
    let delta4 = fmul(&delta3, delta, Ghost(D * D * D), Ghost(D));
    let l2 = fmul(delta, &sc2, Ghost(D), Ghost(vb * (pv * qv)));
    let l3 = fmul(&delta2, &sc3, Ghost(D * D), Ghost(vc * (pv * qv)));
    let l4 = fmul(&delta3, &sc4a, Ghost(D * D * D), Ghost(SC4A));
    let l5 = fmul(&delta4, &p.g_at_r3, Ghost(D * D * D * D), Ghost(g));
    let s12 = fadd(&sc1, &l2, Ghost(va * (pv * qv)), Ghost(D * (vb * (pv * qv))));
    let s123 = fadd(&s12, &l3, Ghost(va * (pv * qv) + D * (vb * (pv * qv))), Ghost((D * D) * (vc * (pv * qv))));
    let s1234 = fadd(
        &s123,
        &l4,
        Ghost(va * (pv * qv) + D * (vb * (pv * qv)) + (D * D) * (vc * (pv * qv))),
        Ghost((D * D * D) * SC4A),
    );
    let r = fadd(
        &s1234,
        &l5,
        Ghost(va * (pv * qv) + D * (vb * (pv * qv)) + (D * D) * (vc * (pv * qv)) + (D * D * D) * SC4A),
        Ghost((D * D * D * D) * g),
    );
    r
}

/// The transcript the verifier starts from: the label "spartan" and the
/// numbers of variables.
pub open spec fn sn_init(nvx: nat, nvy: nat) -> Seq<TranscriptEntry> {
    seq![
        TranscriptEntry::Init("spartan"@),
        TranscriptEntry::U64("num_vars_x"@, nvx as u64),
        TranscriptEntry::U64("num_vars_y"@, nvy as u64),
    ]
}

/// Whether a sum-check with the given rounds passes every round check.
pub open spec fn sn_sc_ok(log: Seq<TranscriptEntry>, c: int, rounds: Seq<Seq<int>>, n: nat, d: nat) -> bool {
    &&& rounds.len() == n
    &&& forall|j: int| 0 <= j < n ==> !#[trigger] sc_round_fails(log, c, rounds, d, j)
}

/// The challenge point of a sum-check with the given rounds.
pub open spec fn sn_point(log: Seq<TranscriptEntry>, c: int, rounds: Seq<Seq<int>>, n: nat) -> Seq<int> {
    Seq::new(n, |j: int| sc_challenge(log, c, rounds, j as nat))
}

/// The transcript once `tau` is drawn.
pub open spec fn sn_log_a(nvx: nat, nvy: nat) -> Seq<TranscriptEntry> {
    chal_log(sn_init(nvx, nvy), "tau"@, nvx)
}

/// The point `tau` of the first sum-check.
pub open spec fn sn_tau(nvx: nat, nvy: nat) -> Seq<int> {
    chal_vals(sn_init(nvx, nvy), "tau"@, nvx)
}

/// The challenge point `r_x` of the first sum-check.
pub open spec fn sn_rx(p: SpartanProof, nvx: nat, nvy: nat) -> Seq<int> {
    sn_point(sn_log_a(nvx, nvy), 0, p.sumcheck_proof_1.rounds(), nvx)
}

/// The transcript once the values at `r_x` are in.
pub open spec fn sn_log_c(p: SpartanProof, nvx: nat, nvy: nat) -> Seq<TranscriptEntry> {
    sc_log(sn_log_a(nvx, nvy), 0, p.sumcheck_proof_1.rounds(), nvx).push(
        TranscriptEntry::Message("a_at_rx"@, p.a_at_rx.ser()),
    ).push(TranscriptEntry::Message("b_at_rx"@, p.b_at_rx.ser())).push(
        TranscriptEntry::Message("c_at_rx"@, p.c_at_rx.ser()),
    )
}

/// The combining scalar `beta` of the three matrices.
pub open spec fn sn_beta(p: SpartanProof, nvx: nat, nvy: nat) -> int {
    chal(sn_log_c(p, nvx, nvy), "beta"@)
}

/// The transcript the second sum-check starts from.
pub open spec fn sn_log_d(p: SpartanProof, nvx: nat, nvy: nat) -> Seq<TranscriptEntry> {
    sn_log_c(p, nvx, nvy).push(TranscriptEntry::Challenge("beta"@, 64))
}

/// The claim of the second sum-check: `a + beta b + beta^2 c` at `r_x`.
pub open spec fn sn_c2(p: SpartanProof, nvx: nat, nvy: nat) -> int {
    let beta = sn_beta(p, nvx, nvy);
    (p.a_at_rx.val() + beta * p.b_at_rx.val() + (beta * beta) * p.c_at_rx.val()) % q()
}

/// The challenge point `r_y` of the second sum-check.
pub open spec fn sn_ry(p: SpartanProof, nvx: nat, nvy: nat) -> Seq<int> {
    sn_point(sn_log_d(p, nvx, nvy), sn_c2(p, nvx, nvy), p.sumcheck_proof_2.rounds(), nvy)
}

/// The first two sum-checks pass and end in the claimed values:
/// `eq(r_x, tau) (a b - c)` and `(eA + beta eB + beta^2 eC) z` at `r_y`.
#[allow(non_snake_case)]
pub open spec fn sn_relation_ok(p: SpartanProof, nvx: nat, nvy: nat) -> bool {
    let log_a = sn_log_a(nvx, nvy);
    let r1 = p.sumcheck_proof_1.rounds();
    let log_d = sn_log_d(p, nvx, nvy);
    let c2 = sn_c2(p, nvx, nvy);
    let r2 = p.sumcheck_proof_2.rounds();
    let beta = sn_beta(p, nvx, nvy);
    let (a, b, c) = (p.a_at_rx.val(), p.b_at_rx.val(), p.c_at_rx.val());
    &&& sn_sc_ok(log_a, 0, r1, nvx, 3)
    &&& (eq_zip(sn_rx(p, nvx, nvy), sn_tau(nvx, nvy)) * (a * b - c)) % q() == sc_prev_claim(log_a, 0, r1, nvx)
    &&& sn_sc_ok(log_d, c2, r2, nvy, 2)
    &&& ((p.eA_at_ry.val() + beta * p.eB_at_ry.val() + (beta * beta) * p.eC_at_ry.val()) * p.z_at_ry.val()) % q()
        == sc_prev_claim(log_d, c2, r2, nvy)
}

/// The verifier's first two sum-checks, from the transcript `sn_init`.
#[allow(non_snake_case)]
fn sn_verify_relation(t: &mut TitanTranscript, nvx: usize, nvy: usize, p: &SpartanProof) -> (r: (bool, Vec<Fr>, Vec<Fr>))
    requires
        old(t)@ == sn_init(nvx as nat, nvy as nat),
    ensures
        r.0 == sn_relation_ok(*p, nvx as nat, nvy as nat),
        r.0 ==> {
            &&& final(t)@ == sc_log(
                sn_log_d(*p, nvx as nat, nvy as nat),
                sn_c2(*p, nvx as nat, nvy as nat),
                p.sumcheck_proof_2.rounds(),
                nvy as nat,
            )
            &&& lvals(r.1@) == sn_rx(*p, nvx as nat, nvy as nat)
            &&& lvals(r.2@) == sn_ry(*p, nvx as nat, nvy as nat)
        },
{
    let ghost (a, b, c) = (p.a_at_rx.val(), p.b_at_rx.val(), p.c_at_rx.val());
    proof {
        lemma_val_mod(p.a_at_rx);
        lemma_val_mod(p.b_at_rx);
        lemma_val_mod(p.c_at_rx);
        lemma_val_mod(p.eA_at_ry);
        lemma_val_mod(p.eB_at_ry);
        lemma_val_mod(p.eC_at_ry);
        lemma_val_mod(p.z_at_ry);
    }
    let tau = draw_challenges(t, "tau", nvx);
    proof {
        crate::field_sumcheck::lemma_lagrange_invertible(4);
        crate::field_sumcheck::lemma_lagrange_invertible(3);
    }
    let sc1 = match crate::field_sumcheck::verify(&p.sumcheck_proof_1, fr_zero(), nvx, 3, t) {
        Ok(sc) => sc,
        Err(_) => {
            return (false, Vec::new(), Vec::new());
        },
    };
    let e1 = eq_eval(sc1.point.as_slice(), tau.as_slice());
    let ab = fmul(&p.a_at_rx, &p.b_at_rx, Ghost(a), Ghost(b));
    let abc = fsub(&ab, &p.c_at_rx, Ghost(a * b), Ghost(c));
    let lhs1 = fmul(&e1, &abc, Ghost(eq_zip(sn_rx(*p, nvx as nat, nvy as nat), sn_tau(nvx as nat, nvy as nat))), Ghost(a * b - c));
    proof {
        assert(lvals(sc1.point@) =~= sn_rx(*p, nvx as nat, nvy as nat));
        sc1.expected_evaluation.lemma_val_range();
    }
    if !fr_eq(&lhs1, &sc1.expected_evaluation) {
        return (false, Vec::new(), Vec::new());
    }
    append_to_transcript(t, "a_at_rx", &p.a_at_rx);
    append_to_transcript(t, "b_at_rx", &p.b_at_rx);
    append_to_transcript(t, "c_at_rx", &p.c_at_rx);
    let beta = get_challenge(t, "beta");
    let ghost bv = beta.val();
    proof {
        lemma_val_mod(beta);
    }
    let beta2 = fmul(&beta, &beta, Ghost(bv), Ghost(bv));
    let bb = fmul(&beta, &p.b_at_rx, Ghost(bv), Ghost(b));
    let bbc = fmul(&beta2, &p.c_at_rx, Ghost(bv * bv), Ghost(c));
    let c2a = fadd(&p.a_at_rx, &bb, Ghost(a), Ghost(bv * b));
    let claimed2 = fadd(&c2a, &bbc, Ghost(a + bv * b), Ghost((bv * bv) * c));
    let sc2 = match crate::field_sumcheck::verify(&p.sumcheck_proof_2, claimed2, nvy, 2, t) {
        Ok(sc) => sc,
        Err(_) => {
            return (false, Vec::new(), Vec::new());
        },
    };
    let ghost (ea, eb, ec, z) = (p.eA_at_ry.val(), p.eB_at_ry.val(), p.eC_at_ry.val(), p.z_at_ry.val());
    let beb = fmul(&beta, &p.eB_at_ry, Ghost(bv), Ghost(eb));
    let bec = fmul(&beta2, &p.eC_at_ry, Ghost(bv * bv), Ghost(ec));
    let comb_a = fadd(&p.eA_at_ry, &beb, Ghost(ea), Ghost(bv * eb));
    let comb = fadd(&comb_a, &bec, Ghost(ea + bv * eb), Ghost((bv * bv) * ec));
    let lhs2 = fmul(&comb, &p.z_at_ry, Ghost(ea + bv * eb + (bv * bv) * ec), Ghost(z));
    proof {
        sc2.expected_evaluation.lemma_val_range();
        assert(lvals(sc2.point@) =~= sn_ry(*p, nvx as nat, nvy as nat));
    }
    if !fr_eq(&lhs2, &sc2.expected_evaluation) {
        return (false, Vec::new(), Vec::new());
    }
    (true, sc1.point, sc2.point)
}

/// The transcript once the root of the memory-checking polynomials is in.
pub open spec fn sn_log_e(p: SpartanProof, nvx: nat, nvy: nat) -> Seq<TranscriptEntry> {
    sc_log(sn_log_d(p, nvx, nvy), sn_c2(p, nvx, nvy), p.sumcheck_proof_2.rounds(), nvy).push(
        TranscriptEntry::Message("comm_p_q_m"@, p.comm_pqm_root@),
    )
}

/// The scalars `alpha` and `beta` of the memory-checking denominators.
pub open spec fn sn_alpha3(p: SpartanProof, nvx: nat, nvy: nat) -> int {
    chal(sn_log_e(p, nvx, nvy), "alpha"@)
}

/// See `sn_alpha3`.
pub open spec fn sn_beta3(p: SpartanProof, nvx: nat, nvy: nat) -> int {
    chal(sn_log_e(p, nvx, nvy).push(TranscriptEntry::Challenge("alpha"@, 64)), "beta_3"@)
}

/// The scalar `epsilon` that joins the row and column identities.
pub open spec fn sn_eps(p: SpartanProof, nvx: nat, nvy: nat) -> int {
    chal(
        sn_log_e(p, nvx, nvy).push(TranscriptEntry::Challenge("alpha"@, 64)).push(TranscriptEntry::Challenge("beta_3"@, 64)),
        "epsilon"@,
    )
}

/// The transcript once the root of `g` is in.
pub open spec fn sn_log_f(p: SpartanProof, nvx: nat, nvy: nat) -> Seq<TranscriptEntry> {
    sn_log_e(p, nvx, nvy).push(TranscriptEntry::Challenge("alpha"@, 64)).push(TranscriptEntry::Challenge("beta_3"@, 64)).push(
        TranscriptEntry::Challenge("epsilon"@, 64),
    ).push(TranscriptEntry::Message("comm_g"@, p.comm_g_root@))
}

/// The point `eta` of the memory-checking identity.
pub open spec fn sn_eta(p: SpartanProof, nvx: nat, nvy: nat) -> Seq<int> {
    chal_vals(sn_log_f(p, nvx, nvy), "eta"@, nvx)
}

/// The scalar `delta` that combines the five claims of the third sum-check.
pub open spec fn sn_delta(p: SpartanProof, nvx: nat, nvy: nat) -> int {
    chal(chal_log(sn_log_f(p, nvx, nvy), "eta"@, nvx), "delta"@)
}

/// The transcript the third sum-check starts from.
pub open spec fn sn_log_h(p: SpartanProof, nvx: nat, nvy: nat) -> Seq<TranscriptEntry> {
    chal_log(sn_log_f(p, nvx, nvy), "eta"@, nvx).push(TranscriptEntry::Challenge("delta"@, 64))
}

/// The claim of the third sum-check: `eA + delta eB + delta^2 eC` at `r_y`.
pub open spec fn sn_c3(p: SpartanProof, nvx: nat, nvy: nat) -> int {
    let d = sn_delta(p, nvx, nvy);
    (p.eA_at_ry.val() + d * p.eB_at_ry.val() + (d * d) * p.eC_at_ry.val()) % q()
}

/// The challenge point `r_3` of the third sum-check.
pub open spec fn sn_r3(p: SpartanProof, nvx: nat, nvy: nat) -> Seq<int> {
    sn_point(sn_log_h(p, nvx, nvy), sn_c3(p, nvx, nvy), p.sumcheck_proof_3.rounds(), nvx)
}

/// The transcript once the values at `r_3` and the root of `z` are in.
pub open spec fn sn_log_i(p: SpartanProof, nvx: nat, nvy: nat) -> Seq<TranscriptEntry> {
    sc_log(sn_log_h(p, nvx, nvy), sn_c3(p, nvx, nvy), p.sumcheck_proof_3.rounds(), nvx).push(
        TranscriptEntry::Message("val_A_at_r3"@, p.val_A_at_r3.ser()),
    ).push(TranscriptEntry::Message("val_B_at_r3"@, p.val_B_at_r3.ser())).push(
        TranscriptEntry::Message("val_C_at_r3"@, p.val_C_at_r3.ser()),
    ).push(TranscriptEntry::Message("p_at_r3"@, p.p_at_r3.ser())).push(
        TranscriptEntry::Message("q_at_r3"@, p.q_at_r3.ser()),
    ).push(TranscriptEntry::Message("g_at_r3"@, p.g_at_r3.ser())).push(
        TranscriptEntry::Message("row_at_r3"@, p.row_at_r3.ser()),
    ).push(TranscriptEntry::Message("col_at_r3"@, p.col_at_r3.ser())).push(
        TranscriptEntry::Message("m_r_at_r3"@, p.m_r_at_r3.ser()),
    ).push(TranscriptEntry::Message("m_c_at_r3"@, p.m_c_at_r3.ser())).push(
        TranscriptEntry::Message("comm_z"@, p.comm_z_root@),
    )
}

/// The scalar `rho` of the fourth sum-check.
pub open spec fn sn_rho(p: SpartanProof, nvx: nat, nvy: nat) -> int {
    chal(sn_log_i(p, nvx, nvy), "rho"@)
}

/// The transcript the fourth sum-check starts from.
pub open spec fn sn_log_j(p: SpartanProof, nvx: nat, nvy: nat) -> Seq<TranscriptEntry> {
    sn_log_i(p, nvx, nvy).push(TranscriptEntry::Challenge("rho"@, 64))
}

/// The claim of the fourth sum-check: `z(r_y) + rho g(r_3)`.
pub open spec fn sn_c4(p: SpartanProof, nvx: nat, nvy: nat) -> int {
    (p.z_at_ry.val() + sn_rho(p, nvx, nvy) * p.g_at_r3.val()) % q()
}

/// The challenge point `r_4` of the fourth sum-check.
pub open spec fn sn_r4(p: SpartanProof, nvx: nat, nvy: nat) -> Seq<int> {
    sn_point(sn_log_j(p, nvx, nvy), sn_c4(p, nvx, nvy), p.sumcheck_proof_4.rounds(), nvx)
}

/// The last two sum-checks pass and end in the claimed values: `sn_lhs3`
/// at `r_3`, and `z(r_4) eq(r_4, r_y) + rho g(r_4) eq(r_4, r_3)`.
pub open spec fn sn_memory_ok(p: SpartanProof, nvx: nat, nvy: nat) -> bool {
    let log_h = sn_log_h(p, nvx, nvy);
    let c3 = sn_c3(p, nvx, nvy);
    let r3s = p.sumcheck_proof_3.rounds();
    let log_j = sn_log_j(p, nvx, nvy);
    let c4 = sn_c4(p, nvx, nvy);
    let r4s = p.sumcheck_proof_4.rounds();
    let r3 = sn_r3(p, nvx, nvy);
    let r4 = sn_r4(p, nvx, nvy);
    let ry = sn_ry(p, nvx, nvy);
    let rho = sn_rho(p, nvx, nvy);
    &&& sn_sc_ok(log_h, c3, r3s, nvx, 6)
    &&& sn_lhs3(
        p,
        r3,
        sn_rx(p, nvx, nvy),
        ry,
        sn_eta(p, nvx, nvy),
        sn_alpha3(p, nvx, nvy),
        sn_beta3(p, nvx, nvy),
        sn_eps(p, nvx, nvy),
        sn_delta(p, nvx, nvy),
    ) % q() == sc_prev_claim(log_h, c3, r3s, nvx)
    &&& sn_sc_ok(log_j, c4, r4s, nvx, 2)
    &&& (p.z_at_r4.val() * eq_zip(r4, ry) + rho * p.g_at_r4.val() * eq_zip(r4, r3)) % q() == sc_prev_claim(
        log_j,
        c4,
        r4s,
        nvx,
    )
}

/// The verifier's last two sum-checks, from where the first two left the
/// transcript.
#[allow(non_snake_case)]
fn sn_verify_memory(
    t: &mut TitanTranscript,
    nvx: usize,
    nvy: usize,
    p: &SpartanProof,
    rx: &Vec<Fr>,
    ry: &Vec<Fr>,
) -> (r: (bool, Vec<Fr>, Vec<Fr>))
    requires
        old(t)@ == sc_log(
            sn_log_d(*p, nvx as nat, nvy as nat),
            sn_c2(*p, nvx as nat, nvy as nat),
            p.sumcheck_proof_2.rounds(),
            nvy as nat,
        ),
        lvals(rx@) == sn_rx(*p, nvx as nat, nvy as nat),
        lvals(ry@) == sn_ry(*p, nvx as nat, nvy as nat),
    ensures
        r.0 == sn_memory_ok(*p, nvx as nat, nvy as nat),
        r.0 ==> {
            &&& lvals(r.1@) == sn_r3(*p, nvx as nat, nvy as nat)
            &&& lvals(r.2@) == sn_r4(*p, nvx as nat, nvy as nat)
            &&& forall|j: int| 0 <= j < r.1@.len() ==> (#[trigger] r.1@[j]).enc() == le32(r.1@[j].val())
            &&& forall|j: int| 0 <= j < r.2@.len() ==> (#[trigger] r.2@[j]).enc() == le32(r.2@[j].val())
        },
{
    let ghost (nx, ny) = (nvx as nat, nvy as nat);
    proof {
        lemma_val_mod(p.eA_at_ry);
        lemma_val_mod(p.eB_at_ry);
        lemma_val_mod(p.eC_at_ry);
        lemma_val_mod(p.z_at_ry);
        lemma_val_mod(p.g_at_r3);
        lemma_val_mod(p.z_at_r4);
        lemma_val_mod(p.g_at_r4);
    }
    t.append_message("comm_p_q_m", p.comm_pqm_root.as_slice());
    let alpha3 = get_challenge(t, "alpha");
    let beta3 = get_challenge(t, "beta_3");
    let eps = get_challenge(t, "epsilon");
    t.append_message("comm_g", p.comm_g_root.as_slice());
    proof {
        assert(t@ == sn_log_f(*p, nx, ny));
    }
    let eta = draw_challenges(t, "eta", nvx);
    let delta = get_challenge(t, "delta");
    let ghost dv = delta.val();
    let ghost (ea, eb, ec) = (p.eA_at_ry.val(), p.eB_at_ry.val(), p.eC_at_ry.val());
    proof {
        lemma_val_mod(delta);
    }
    let delta2 = fmul(&delta, &delta, Ghost(dv), Ghost(dv));
    let deb = fmul(&delta, &p.eB_at_ry, Ghost(dv), Ghost(eb));
    let dec = fmul(&delta2, &p.eC_at_ry, Ghost(dv * dv), Ghost(ec));
    let c3a = fadd(&p.eA_at_ry, &deb, Ghost(ea), Ghost(dv * eb));
    let claimed3 = fadd(&c3a, &dec, Ghost(ea + dv * eb), Ghost((dv * dv) * ec));
    proof {
        crate::field_sumcheck::lemma_lagrange_invertible(7);
        crate::field_sumcheck::lemma_lagrange_invertible(3);
        assert(t@ == sn_log_h(*p, nx, ny));
    }
    let sc3 = match crate::field_sumcheck::verify(&p.sumcheck_proof_3, claimed3, nvx, 6, t) {
        Ok(sc) => sc,
        Err(_) => {
            return (false, Vec::new(), Vec::new());
        },
    };
    let lhs3 = sn_lhs3_value(
        p,
        sc3.point.as_slice(),
        rx.as_slice(),
        ry.as_slice(),
        eta.as_slice(),
        &alpha3,
        &beta3,
        &eps,
        &delta,
    );
    proof {
        sc3.expected_evaluation.lemma_val_range();
        assert(lvals(sc3.point@) =~= sn_r3(*p, nx, ny));
    }
    if !fr_eq(&lhs3, &sc3.expected_evaluation) {
        return (false, Vec::new(), Vec::new());
    }
    append_to_transcript(t, "val_A_at_r3", &p.val_A_at_r3);
    append_to_transcript(t, "val_B_at_r3", &p.val_B_at_r3);
    append_to_transcript(t, "val_C_at_r3", &p.val_C_at_r3);
    append_to_transcript(t, "p_at_r3", &p.p_at_r3);
    append_to_transcript(t, "q_at_r3", &p.q_at_r3);
    append_to_transcript(t, "g_at_r3", &p.g_at_r3);
    append_to_transcript(t, "row_at_r3", &p.row_at_r3);
    append_to_transcript(t, "col_at_r3", &p.col_at_r3);
    append_to_transcript(t, "m_r_at_r3", &p.m_r_at_r3);
    append_to_transcript(t, "m_c_at_r3", &p.m_c_at_r3);
    t.append_message("comm_z", p.comm_z_root.as_slice());
    proof {
        assert(t@ == sn_log_i(*p, nx, ny));
    }
    let rho = get_challenge(t, "rho");
    let ghost rv = rho.val();
    proof {
        lemma_val_mod(rho);
    }
    let rg = fmul(&rho, &p.g_at_r3, Ghost(rv), Ghost(p.g_at_r3.val()));
    let claimed4 = fadd(&p.z_at_ry, &rg, Ghost(p.z_at_ry.val()), Ghost(rv * p.g_at_r3.val()));
    let sc4 = match crate::field_sumcheck::verify(&p.sumcheck_proof_4, claimed4, nvx, 2, t) {
        Ok(sc) => sc,
        Err(_) => {
            return (false, Vec::new(), Vec::new());
        },
    };
    let ghost r3v = lvals(sc3.point@);
    let ghost r4v = lvals(sc4.point@);
    let e1 = eq_eval(sc4.point.as_slice(), ry.as_slice());
    let e2 = eq_eval(sc4.point.as_slice(), sc3.point.as_slice());
    let ze = fmul(&p.z_at_r4, &e1, Ghost(p.z_at_r4.val()), Ghost(eq_zip(r4v, lvals(ry@))));
    let rg4 = fmul(&rho, &p.g_at_r4, Ghost(rv), Ghost(p.g_at_r4.val()));
    let rge = fmul(&rg4, &e2, Ghost(rv * p.g_at_r4.val()), Ghost(eq_zip(r4v, r3v)));
    let lhs4 = fadd(&ze, &rge, Ghost(p.z_at_r4.val() * eq_zip(r4v, lvals(ry@))), Ghost(rv * p.g_at_r4.val() * eq_zip(r4v, r3v)));
    proof {
        sc4.expected_evaluation.lemma_val_range();
        assert(r4v =~= sn_r4(*p, nx, ny));
    }
    if !fr_eq(&lhs4, &sc4.expected_evaluation) {
        return (false, Vec::new(), Vec::new());
    }
    (true, sc3.point, sc4.point)
}

/// The number of variables of a table of `n` entries padded to a power of
/// two.
pub open spec fn sn_nvars(n: nat) -> nat {
    choose|k: nat| is_next_pow2(exp2(k), n)
}

/// The power of two that `n` rounds up to is unique.
pub(crate) proof fn lemma_next_pow2_unique(k1: nat, k2: nat, n: nat)
    requires
        is_next_pow2(exp2(k1), n),
        is_next_pow2(exp2(k2), n),
    ensures
        k1 == k2,
{
    if k1 < k2 {
        lemma_exp2_monotone(k1 + 1, k2);
        lemma_exp2_pos(k1);
        assert(exp2(k1 + 1) == 2 * exp2(k1));
    } else if k2 < k1 {
        lemma_exp2_monotone(k2 + 1, k1);
        lemma_exp2_pos(k2);
        assert(exp2(k2 + 1) == 2 * exp2(k2));
    }
}

/// The number of variables of `n` entries padded to a power of two.
pub(crate) fn nvars(n: usize) -> (k: usize)
    requires
        n <= usize::MAX / 2 + 1,
    ensures
        k == sn_nvars(n as nat),
        exp2(k as nat) <= usize::MAX,
        is_next_pow2(exp2(k as nat), n as nat),
{
    let p2 = next_power_of_two(n);
    let k = log2_exact(p2);
    proof {
        assert(is_next_pow2(exp2(k as nat), n as nat));
        let c = sn_nvars(n as nat);
        lemma_next_pow2_unique(c, k as nat, n as nat);
    }
    k
}

/// The batching scalars of the three commitment openings the verifier
/// checks.
pub struct SnarkVerifierCoins {
    pub agg_r: Fr,
    pub agg_gamma: Fr,
    pub agg_r_bp: Fr,
    pub index_rs: Vec<Fr>,
    pub index_delta: Fr,
    pub index_r_bp: Fr,
    pub zg_rs: Vec<Fr>,
    pub zg_delta: Fr,
    pub zg_r_bp: Fr,
}

/// The values at `r_3` claimed for the five index polynomials.
pub open spec fn sn_index_sigmas(p: SpartanProof) -> Seq<Fr> {
    seq![p.row_at_r3, p.col_at_r3, p.val_A_at_r3, p.val_B_at_r3, p.val_C_at_r3]
}

/// The values at `r_4` claimed for `z` and `g`.
pub open spec fn sn_zg_sigmas(p: SpartanProof) -> Seq<Fr> {
    seq![p.z_at_r4, p.g_at_r4]
}

/// A point of challenge values as field elements.
pub open spec fn sn_frs(v: Seq<int>) -> Seq<Fr> {
    Seq::new(v.len(), |j: int| fr_of_val(v[j]))
}

/// The sizes of the openings fit the machine's integers as their verifiers
/// need.
pub open spec fn sn_sizes_ok(pp_single: TitanSetup, pp_trusted: TitanSetup, pp_agg: TitanSetup, p: SpartanProof) -> bool {
    &&& p.agg_pqm_proof.eval_proof.partial_eval_proof.leaves@.len() * exp2(pp_agg.l1 as nat) <= usize::MAX
    &&& p.batch_index_proof.partial_eval_proof.leaf_indices@.len() * exp2(pp_trusted.l1 as nat) <= usize::MAX
    &&& p.batch_zg_proof.partial_eval_proof.leaf_indices@.len() * exp2(pp_single.l1 as nat) <= usize::MAX
}

/// The checks of the verifier before the openings: the four sum-checks pass
/// and end in the claimed values, and the sizes of the openings fit.
pub open spec fn sn_pre_ok(m: nat, n: nat, pp_single: TitanSetup, pp_trusted: TitanSetup, pp_agg: TitanSetup, p: SpartanProof) -> bool {
    &&& sn_relation_ok(p, sn_nvars(m), sn_nvars(n))
    &&& sn_memory_ok(p, sn_nvars(m), sn_nvars(n))
    &&& sn_sizes_ok(pp_single, pp_trusted, pp_agg, p)
}

/// The verdict on the three openings of a proof for an instance with `m`
/// constraints and `n` variables, the index polynomials committed to by
/// `index_roots`, the verdicts on the authentication paths, the batching
/// scalars `coins`, and the combinations `ci, si` and `cz, sz` the two
/// batched openings hand to their inner-product arguments: the aggregate
/// opening of `p, q, m_r, m_c` at `r_3` holds and agrees with the claimed
/// values, the index polynomials open at `r_3` to the claimed values, and
/// `z, g` open at `r_4` to the claimed values.
pub open spec fn sn_openings_ok(
    m: nat,
    n: nat,
    index_roots: Seq<Seq<u8>>,
    pp_single: TitanSetup,
    pp_trusted: TitanSetup,
    pp_agg: TitanSetup,
    p: SpartanProof,
    agg_merkle_ok: bool,
    index_merkle_ok: bool,
    zg_merkle_ok: bool,
    coins: SnarkVerifierCoins,
    ci: Pt,
    si: Fr,
    cz: Pt,
    sz: Fr,
) -> bool {
    let nvx = sn_nvars(m);
    let nvy = sn_nvars(n);
    let r3 = sn_frs(sn_r3(p, nvx, nvy));
    let r4 = sn_frs(sn_r4(p, nvx, nvy));
    let ev = p.agg_pqm_proof.evaluations@;
    &&& agg_verdict(
        pp_agg,
        p.comm_pqm_root@,
        r3,
        nvx + 2,
        4,
        p.agg_pqm_proof,
        agg_merkle_ok,
        coins.agg_r.val(),
        coins.agg_gamma.val(),
        coins.agg_r_bp.val(),
    )
    &&& ev.len() >= 4
    &&& ev[0].val() == p.p_at_r3.val() && ev[1].val() == p.q_at_r3.val() && ev[2].val() == p.m_r_at_r3.val()
        && ev[3].val() == p.m_c_at_r3.val()
    &&& pcs_batch_verdict(
        pp_trusted,
        index_roots,
        r3,
        p.batch_index_proof,
        index_merkle_ok,
        lvals(coins.index_rs@),
        coins.index_delta.val(),
        coins.index_r_bp.val(),
        ci,
        si,
    )
    &&& pcs_batch_verdict(
        pp_single,
        seq![p.comm_z_root@, p.comm_g_root@],
        r4,
        p.batch_zg_proof,
        zg_merkle_ok,
        lvals(coins.zg_rs@),
        coins.zg_delta.val(),
        coins.zg_r_bp.val(),
        cz,
        sz,
    )
}

/// The combinations the two batched openings of a proof hand to their
/// inner-product arguments.
pub open spec fn sn_combined(
    m: nat,
    n: nat,
    index_roots: Seq<Seq<u8>>,
    pp_single: TitanSetup,
    pp_trusted: TitanSetup,
    p: SpartanProof,
    ci: Pt,
    si: Fr,
    cz: Pt,
    sz: Fr,
) -> bool {
    let nvx = sn_nvars(m);
    let nvy = sn_nvars(n);
    &&& pcs_batch_combined(
        pp_trusted,
        index_roots,
        sn_frs(sn_r3(p, nvx, nvy)),
        sn_index_sigmas(p),
        p.batch_index_proof,
        ci,
        si,
    )
    &&& pcs_batch_combined(
        pp_single,
        seq![p.comm_z_root@, p.comm_g_root@],
        sn_frs(sn_r4(p, nvx, nvy)),
        sn_zg_sigmas(p),
        p.batch_zg_proof,
        cz,
        sz,
    )
}

/// What the parameters of the three commitments must be for an instance
/// with `m` constraints: single polynomials and the index in as many
/// variables as the padded constraints, the aggregate of four polynomials in
/// two more.
pub open spec fn sn_params_ok(m: nat, pp_single: TitanSetup, pp_trusted: TitanSetup, pp_agg: TitanSetup) -> bool {
    &&& pp_trusted.m == sn_nvars(m)
    &&& pp_single.m == pp_trusted.m
    &&& pp_agg.m == pp_trusted.m + 2
    &&& pp_single.wf() && pp_trusted.wf() && pp_agg.wf()
    &&& pp_single.l1 <= pp_single.m1 && pp_trusted.l1 <= pp_trusted.m1 && pp_agg.l1 <= pp_agg.m1
    &&& pp_single.domain_g1@.len() > 0 && pp_trusted.domain_g1@.len() > 0 && pp_agg.domain_g1@.len() > 0
    &&& 36 * exp2((pp_single.m - pp_single.m1) as nat) <= usize::MAX
    &&& 36 * exp2((pp_trusted.m - pp_trusted.m1) as nat) <= usize::MAX
    &&& 36 * exp2((pp_agg.m - pp_agg.m1) as nat) <= usize::MAX
}

/// `n · 2^l` fits in a `usize`.
fn fits(n: usize, l: usize) -> (r: bool)
    requires
        exp2(l as nat) <= usize::MAX,
    ensures
        r == (n * exp2(l as nat) <= usize::MAX),
{
    let p = pow2_usize(l);
    n.checked_mul(p).is_some()
}

/// The verifier's checks of the three openings at the points `r3` and `r4`
/// of the sum-checks.
#[verifier::rlimit(40)]
fn sn_verify_openings(
    nvx: usize,
    nvy: usize,
    index_roots: &Vec<Vec<u8>>,
    pp_single: &TitanSetup,
    pp_trusted: &TitanSetup,
    pp_agg: &TitanSetup,
    proof: &SpartanProof,
    agg_merkle_ok: bool,
    index_merkle_ok: bool,
    zg_merkle_ok: bool,
    coins: &SnarkVerifierCoins,
    r3: &Vec<Fr>,
    r4: &Vec<Fr>,
    Ghost(m): Ghost<nat>,
    Ghost(n): Ghost<nat>,
) -> (ok: bool)
    requires
        index_roots@.len() == 5,
        forall|i: int| 0 <= i < 5 ==> (#[trigger] index_roots@[i])@.len() <= u32::MAX,
        pp_trusted.m == nvx,
        pp_single.m == nvx,
        pp_agg.m == nvx + 2,
        pp_single.wf() && pp_trusted.wf() && pp_agg.wf(),
        pp_single.l1 <= pp_single.m1 && pp_trusted.l1 <= pp_trusted.m1 && pp_agg.l1 <= pp_agg.m1,
        pp_single.domain_g1@.len() > 0 && pp_trusted.domain_g1@.len() > 0 && pp_agg.domain_g1@.len() > 0,
        36 * exp2((pp_single.m - pp_single.m1) as nat) <= usize::MAX,
        36 * exp2((pp_trusted.m - pp_trusted.m1) as nat) <= usize::MAX,
        36 * exp2((pp_agg.m - pp_agg.m1) as nat) <= usize::MAX,
        sn_sizes_ok(*pp_single, *pp_trusted, *pp_agg, *proof),
        coins.index_rs@.len() == 5,
        coins.zg_rs@.len() == 2,
        r3@ == sn_frs(sn_r3(*proof, nvx as nat, nvy as nat)),
        r4@ == sn_frs(sn_r4(*proof, nvx as nat, nvy as nat)),
        r3@.len() == nvx,
        r4@.len() == nvx,
        nvx == sn_nvars(m),
        nvy == sn_nvars(n),
    ensures
        exists|ci: Pt, si: Fr, cz: Pt, sz: Fr|
            sn_combined(m, n, roots_view(index_roots@), *pp_single, *pp_trusted, *proof, ci, si, cz, sz) && ok
                == sn_openings_ok(
                m,
                n,
                roots_view(index_roots@),
                *pp_single,
                *pp_trusted,
                *pp_agg,
                *proof,
                agg_merkle_ok,
                index_merkle_ok,
                zg_merkle_ok,
                *coins,
                ci,
                si,
                cz,
                sz,
            ),
{
        let pqm_root = vstd::slice::slice_to_vec(proof.comm_pqm_root.as_slice());
        let agg_ok = TitanPolyCommitment::aggregate_verify_with_randomness(
            pp_agg,
            &pqm_root,
            r3,
            nvx + 2,
            4,
            &proof.agg_pqm_proof,
            agg_merkle_ok,
            &coins.agg_r,
            &coins.agg_gamma,
            &coins.agg_r_bp,
        );
        let ev = &proof.agg_pqm_proof.evaluations;
        let evals_ok = ev.len() >= 4 && fr_eq(&ev[0], &proof.p_at_r3) && fr_eq(&ev[1], &proof.q_at_r3) && fr_eq(
            &ev[2],
            &proof.m_r_at_r3,
        ) && fr_eq(&ev[3], &proof.m_c_at_r3);
        let mut index_sigmas: Vec<Fr> = Vec::new();
        index_sigmas.push(proof.row_at_r3);
        index_sigmas.push(proof.col_at_r3);
        index_sigmas.push(proof.val_A_at_r3);
        index_sigmas.push(proof.val_B_at_r3);
        index_sigmas.push(proof.val_C_at_r3);
        proof {
            assert(index_sigmas@ =~= sn_index_sigmas(*proof));
        }
        let index_ok = TitanPolyCommitment::batch_verify_with_randomness(
            pp_trusted,
            index_roots,
            r3,
            &index_sigmas,
            &proof.batch_index_proof,
            index_merkle_ok,
            &coins.index_rs,
            &coins.index_delta,
            &coins.index_r_bp,
        );
        let mut zg_roots: Vec<Vec<u8>> = Vec::new();
        zg_roots.push(vstd::slice::slice_to_vec(proof.comm_z_root.as_slice()));
        zg_roots.push(vstd::slice::slice_to_vec(proof.comm_g_root.as_slice()));
        let mut zg_sigmas: Vec<Fr> = Vec::new();
        zg_sigmas.push(proof.z_at_r4);
        zg_sigmas.push(proof.g_at_r4);
        proof {
            assert(roots_view(zg_roots@) =~= seq![proof.comm_z_root@, proof.comm_g_root@]);
            assert(zg_sigmas@ =~= sn_zg_sigmas(*proof));
        }
        let zg_ok = TitanPolyCommitment::batch_verify_with_randomness(
            pp_single,
            &zg_roots,
            r4,
            &zg_sigmas,
            &proof.batch_zg_proof,
            zg_merkle_ok,
            &coins.zg_rs,
            &coins.zg_delta,
            &coins.zg_r_bp,
        );
        proof {
            let (ci, si) = choose|c: Pt, sg: Fr|
                pcs_batch_combined(*pp_trusted, roots_view(index_roots@), r3@, index_sigmas@, proof.batch_index_proof, c, sg)
                    && index_ok == pcs_batch_verdict(
                    *pp_trusted,
                    roots_view(index_roots@),
                    r3@,
                    proof.batch_index_proof,
                    index_merkle_ok,
                    lvals(coins.index_rs@),
                    coins.index_delta.val(),
                    coins.index_r_bp.val(),
                    c,
                    sg,
                );
            let (cz, sz) = choose|c: Pt, sg: Fr|
                pcs_batch_combined(*pp_single, roots_view(zg_roots@), r4@, zg_sigmas@, proof.batch_zg_proof, c, sg)
                    && zg_ok == pcs_batch_verdict(
                    *pp_single,
                    roots_view(zg_roots@),
                    r4@,
                    proof.batch_zg_proof,
                    zg_merkle_ok,
                    lvals(coins.zg_rs@),
                    coins.zg_delta.val(),
                    coins.zg_r_bp.val(),
                    c,
                    sg,
                );
            assert(sn_combined(m, n, roots_view(index_roots@), *pp_single, *pp_trusted, *proof, ci, si, cz, sz));
            assert((agg_ok && evals_ok && index_ok && zg_ok) == sn_openings_ok(
                m,
                n,
                roots_view(index_roots@),
                *pp_single,
                *pp_trusted,
                *pp_agg,
                *proof,
                agg_merkle_ok,
                index_merkle_ok,
                zg_merkle_ok,
                *coins,
                ci,
                si,
                cz,
                sz,
            ));
        }
        agg_ok && evals_ok && index_ok && zg_ok
}

impl TitanSnark {
    /// The verifier for given batching scalars: the four sum-checks on a
    /// transcript labelled "spartan", then the three openings; the
    /// `*_merkle_ok` are the verdicts on their authentication paths.
    pub fn verify_with_randomness(
        instance: &R1CS,
        index_roots: &Vec<Vec<u8>>,
        pp_single: &TitanSetup,
        pp_trusted: &TitanSetup,
        pp_agg: &TitanSetup,
        proof: &SpartanProof,
        agg_merkle_ok: bool,
        index_merkle_ok: bool,
        zg_merkle_ok: bool,
        coins: &SnarkVerifierCoins,
    ) -> (ok: bool)
        requires
            instance.m <= usize::MAX / 2 + 1,
            instance.n <= usize::MAX / 2 + 1,
            index_roots@.len() == 5,
            forall|i: int| 0 <= i < 5 ==> (#[trigger] index_roots@[i])@.len() <= u32::MAX,
            sn_params_ok(instance.m as nat, *pp_single, *pp_trusted, *pp_agg),
            coins.index_rs@.len() == 5,
            coins.zg_rs@.len() == 2,
        ensures
            !sn_pre_ok(instance.m as nat, instance.n as nat, *pp_single, *pp_trusted, *pp_agg, *proof) ==> !ok,
            sn_pre_ok(instance.m as nat, instance.n as nat, *pp_single, *pp_trusted, *pp_agg, *proof) ==> exists|
                ci: Pt,
                si: Fr,
                cz: Pt,
                sz: Fr,
            |
                sn_combined(
                    instance.m as nat,
                    instance.n as nat,
                    roots_view(index_roots@),
                    *pp_single,
                    *pp_trusted,
                    *proof,
                    ci,
                    si,
                    cz,
                    sz,
                ) && ok == sn_openings_ok(
                    instance.m as nat,
                    instance.n as nat,
                    roots_view(index_roots@),
                    *pp_single,
                    *pp_trusted,
                    *pp_agg,
                    *proof,
                    agg_merkle_ok,
                    index_merkle_ok,
                    zg_merkle_ok,
                    *coins,
                    ci,
                    si,
                    cz,
                    sz,
                ),
    {
        let nvx = nvars(instance.m);
        let nvy = nvars(instance.n);
        let ghost (nx, ny) = (nvx as nat, nvy as nat);
        let mut t = TitanTranscript::new("spartan");
        t.append_u64("num_vars_x", nvx as u64);
        t.append_u64("num_vars_y", nvy as u64);
        proof {
            assert(t@ =~= sn_init(nx, ny));
        }
        let (ok1, rx, ry) = sn_verify_relation(&mut t, nvx, nvy, proof);
        if !ok1 {
            return false;
        }
        let (ok2, r3, r4) = sn_verify_memory(&mut t, nvx, nvy, proof, &rx, &ry);
        if !ok2 {
            return false;
        }
        proof {
            lemma_exp2_monotone(pp_agg.l1 as nat, pp_agg.m as nat);
            lemma_exp2_monotone(pp_trusted.l1 as nat, pp_trusted.m as nat);
            lemma_exp2_monotone(pp_single.l1 as nat, pp_single.m as nat);
        }
        let sizes_ok = fits(proof.agg_pqm_proof.eval_proof.partial_eval_proof.leaves.len(), pp_agg.l1) && fits(
            proof.batch_index_proof.partial_eval_proof.leaf_indices.len(),
            pp_trusted.l1,
        ) && fits(proof.batch_zg_proof.partial_eval_proof.leaf_indices.len(), pp_single.l1);
        if !sizes_ok {
            return false;
        }
        proof {
            assert forall|j: int| 0 <= j < r3@.len() implies #[trigger] r3@[j] == sn_frs(sn_r3(*proof, nx, ny))[j] by {
                lemma_fr_of_val(r3@[j]);
                assert(lvals(r3@)[j] == r3@[j].val());
            }
            assert(r3@ =~= sn_frs(sn_r3(*proof, nx, ny)));
            assert forall|j: int| 0 <= j < r4@.len() implies #[trigger] r4@[j] == sn_frs(sn_r4(*proof, nx, ny))[j] by {
                lemma_fr_of_val(r4@[j]);
                assert(lvals(r4@)[j] == r4@[j].val());
            }
            assert(r4@ =~= sn_frs(sn_r4(*proof, nx, ny)));
        }
        sn_verify_openings(
            nvx,
            nvy,
            index_roots,
            pp_single,
            pp_trusted,
            pp_agg,
            proof,
            agg_merkle_ok,
            index_merkle_ok,
            zg_merkle_ok,
            coins,
            &r3,
            &r4,
            Ghost(instance.m as nat),
            Ghost(instance.n as nat),
        )
    }
}

impl TitanSnark {
    /// The verifier: as `verify_with_randomness`, with the batching scalars
    /// drawn at random.
    pub fn verify(
        instance: &R1CS,
        index_roots: &Vec<Vec<u8>>,
        pp_single: &TitanSetup,
        pp_trusted: &TitanSetup,
        pp_agg: &TitanSetup,
        proof: &SpartanProof,
        agg_merkle_ok: bool,
        index_merkle_ok: bool,
        zg_merkle_ok: bool,
    ) -> (ok: bool)
        requires
            instance.m <= usize::MAX / 2 + 1,
            instance.n <= usize::MAX / 2 + 1,
            index_roots@.len() == 5,
            forall|i: int| 0 <= i < 5 ==> (#[trigger] index_roots@[i])@.len() <= u32::MAX,
            sn_params_ok(instance.m as nat, *pp_single, *pp_trusted, *pp_agg),
        ensures
            !sn_pre_ok(instance.m as nat, instance.n as nat, *pp_single, *pp_trusted, *pp_agg, *proof) ==> !ok,
            sn_pre_ok(instance.m as nat, instance.n as nat, *pp_single, *pp_trusted, *pp_agg, *proof) ==> exists|
                coins: SnarkVerifierCoins,
                ci: Pt,
                si: Fr,
                cz: Pt,
                sz: Fr,
            |
                coins.index_rs@.len() == 5 && coins.zg_rs@.len() == 2 && sn_combined(
                    instance.m as nat,
                    instance.n as nat,
                    roots_view(index_roots@),
                    *pp_single,
                    *pp_trusted,
                    *proof,
                    ci,
                    si,
                    cz,
                    sz,
                ) && ok == sn_openings_ok(
                    instance.m as nat,
                    instance.n as nat,
                    roots_view(index_roots@),
                    *pp_single,
                    *pp_trusted,
                    *pp_agg,
                    *proof,
                    agg_merkle_ok,
                    index_merkle_ok,
                    zg_merkle_ok,
                    coins,
                    ci,
                    si,
                    cz,
                    sz,
                ),
    {
        let mut index_rs: Vec<Fr> = Vec::new();
        let mut i: usize = 0;
        while i < 5
            invariant
                i <= 5,
                index_rs@.len() == i,
            decreases 5 - i,
        {
            index_rs.push(crate::field::fr_random());
            i = i + 1;
        }
        let mut zg_rs: Vec<Fr> = Vec::new();
        zg_rs.push(crate::field::fr_random());
        zg_rs.push(crate::field::fr_random());
        let coins = SnarkVerifierCoins {
            agg_r: crate::field::fr_random(),
            agg_gamma: crate::field::fr_random(),
            agg_r_bp: crate::field::fr_random(),
            index_rs,
            index_delta: crate::field::fr_random(),
            index_r_bp: crate::field::fr_random(),
            zg_rs,
            zg_delta: crate::field::fr_random(),
            zg_r_bp: crate::field::fr_random(),
        };
        Self::verify_with_randomness(
            instance,
            index_roots,
            pp_single,
            pp_trusted,
            pp_agg,
            proof,
            agg_merkle_ok,
            index_merkle_ok,
            zg_merkle_ok,
            &coins,
        )
    }
}

/// The size of the evaluation proof inside an aggregate opening, in bytes,
/// as `TitanEvalProof::get_proof_size` counts it.
pub open spec fn eval_proof_bytes(e: crate::pcs::TitanEvalProof, merkle_nodes: nat) -> int {
    32 + 32 * (merkle_nodes + 3 * e.partial_eval_proof.round_messages@.len() + crate::sumcheck::leaf_total(
        e.partial_eval_proof.leaves@,
    ) + e.partial_eval_proof.g_poly.coeffs@.len()) + 32 * (4 * e.bullet_proof.cm_L@.len()
        + e.bullet_proof.g_folded_poly.coeffs@.len() + e.bullet_proof.a_folded_poly.coeffs@.len())
}

/// The number of elements of a batched opening, as
/// `TitanBatchEvalProof::get_prooof_size` counts it.
pub open spec fn batch_proof_elems(b: TitanBatchEvalProof, merkle_nodes: nat) -> int {
    (merkle_nodes + 3 * b.partial_eval_proof.round_messages@.len() + b.partial_eval_proof.g_poly.coeffs@.len() + (4
        * b.bullet_proof.cm_L@.len() + b.bullet_proof.g_folded_poly.coeffs@.len()
        + b.bullet_proof.a_folded_poly.coeffs@.len())) as int
}

/// The size of a proof as `get_proof_size` counts it.
pub open spec fn sn_proof_size(p: SpartanProof, agg_merkle_nodes: nat, zg_merkle_nodes: nat) -> int {
    p.sumcheck_proof_1.total_size() + 3 + p.sumcheck_proof_2.total_size() + 7 + p.sumcheck_proof_3.total_size() + 10
        + p.sumcheck_proof_4.total_size() + 2 + eval_proof_bytes(p.agg_pqm_proof.eval_proof, agg_merkle_nodes)
        + batch_proof_elems(p.batch_zg_proof, zg_merkle_nodes) + p.batch_index_proof.partial_eval_proof.g_poly.coeffs@.len()
}

impl SpartanProof {
    /// The size of the proof, given the numbers of Merkle nodes the
    /// authentication paths of the aggregate opening and of the opening of
    /// `z, g` transmit: the four sum-checks with their values, the evaluation
    /// proof of the aggregate opening, the opening of `z, g`, and the
    /// restricted polynomial of the index opening.
    pub fn get_proof_size(&self, agg_merkle_nodes: usize, zg_merkle_nodes: usize) -> (r: usize)
        requires
            self.sumcheck_proof_1.total_size() + self.sumcheck_proof_2.total_size() + self.sumcheck_proof_3.total_size()
                + self.sumcheck_proof_4.total_size() + 22 + eval_proof_bytes(self.agg_pqm_proof.eval_proof, agg_merkle_nodes as nat)
                + batch_proof_elems(self.batch_zg_proof, zg_merkle_nodes as nat)
                + self.batch_index_proof.partial_eval_proof.g_poly.coeffs@.len() <= usize::MAX,
        ensures
            r == sn_proof_size(*self, agg_merkle_nodes as nat, zg_merkle_nodes as nat),
    {
        proof {
            self.sumcheck_proof_1.lemma_total_size_nonneg();
            self.sumcheck_proof_2.lemma_total_size_nonneg();
            self.sumcheck_proof_3.lemma_total_size_nonneg();
            self.sumcheck_proof_4.lemma_total_size_nonneg();
            let lv = self.agg_pqm_proof.eval_proof.partial_eval_proof.leaves@;
            crate::sumcheck::lemma_leaf_total_prefix(lv, lv.len() as int);
            assert(lv.take(lv.len() as int) =~= lv);
        }
        let mut size: usize = self.sumcheck_proof_1.get_proof_size();
        size = size + 3;
        size = size + self.sumcheck_proof_2.get_proof_size();
        size = size + 7;
        size = size + self.sumcheck_proof_3.get_proof_size();
        size = size + 10;
        size = size + self.sumcheck_proof_4.get_proof_size();
        size = size + 2;
        size = size + self.agg_pqm_proof.eval_proof.get_proof_size(agg_merkle_nodes);
        size = size + self.batch_zg_proof.get_prooof_size(zg_merkle_nodes);
        size = size + self.batch_index_proof.get_honest_oracle_proof_size();
        size
    }
}

/// Replacing the first sum-check of a proof changes its size by the
/// difference of the two sum-checks' sizes.
pub proof fn law_proof_size_first_sumcheck(p: SpartanProof, s: SumCheckProof, a: nat, z: nat)
    ensures
        sn_proof_size(SpartanProof { sumcheck_proof_1: s, ..p }, a, z) == sn_proof_size(p, a, z) - p.sumcheck_proof_1.total_size()
            + s.total_size(),
{
}

/// Replacing the second sum-check of a proof changes its size by the
/// difference of the two sum-checks' sizes.
pub proof fn law_proof_size_second_sumcheck(p: SpartanProof, s: SumCheckProof, a: nat, z: nat)
    ensures
        sn_proof_size(SpartanProof { sumcheck_proof_2: s, ..p }, a, z) == sn_proof_size(p, a, z) - p.sumcheck_proof_2.total_size()
            + s.total_size(),
{
}

/// Replacing the third sum-check of a proof changes its size by the
/// difference of the two sum-checks' sizes.
pub proof fn law_proof_size_third_sumcheck(p: SpartanProof, s: SumCheckProof, a: nat, z: nat)
    ensures
        sn_proof_size(SpartanProof { sumcheck_proof_3: s, ..p }, a, z) == sn_proof_size(p, a, z) - p.sumcheck_proof_3.total_size()
            + s.total_size(),
{
}

/// Replacing the fourth sum-check of a proof changes its size by the
/// difference of the two sum-checks' sizes.
pub proof fn law_proof_size_fourth_sumcheck(p: SpartanProof, s: SumCheckProof, a: nat, z: nat)
    ensures
        sn_proof_size(SpartanProof { sumcheck_proof_4: s, ..p }, a, z) == sn_proof_size(p, a, z) - p.sumcheck_proof_4.total_size()
            + s.total_size(),
{
}

/// Replacing the evaluation proof of the aggregate opening changes the
/// size by the difference of the two evaluation proofs' sizes.
pub proof fn law_proof_size_aggregate_opening(p: SpartanProof, e: crate::pcs::TitanEvalProof, a: nat, z: nat)
    ensures
        sn_proof_size(SpartanProof { agg_pqm_proof: AggregateEvalProof { eval_proof: e, ..p.agg_pqm_proof }, ..p }, a, z)
            == sn_proof_size(p, a, z) - eval_proof_bytes(p.agg_pqm_proof.eval_proof, a) + eval_proof_bytes(e, a),
{
}

/// Replacing the opening of `z, g` changes the size by the difference of
/// the two openings' sizes.
pub proof fn law_proof_size_zg_opening(p: SpartanProof, b: TitanBatchEvalProof, a: nat, z: nat)
    ensures
        sn_proof_size(SpartanProof { batch_zg_proof: b, ..p }, a, z) == sn_proof_size(p, a, z) - batch_proof_elems(
            p.batch_zg_proof,
            z,
        ) + batch_proof_elems(b, z),
{
}

/// Of the index opening only its restricted polynomial counts: replacing
/// the opening changes the size by the difference of the two polynomials'
/// lengths.
pub proof fn law_proof_size_index_opening(p: SpartanProof, b: TitanBatchEvalProof, a: nat, z: nat)
    ensures
        sn_proof_size(SpartanProof { batch_index_proof: b, ..p }, a, z) == sn_proof_size(p, a, z)
            - p.batch_index_proof.partial_eval_proof.g_poly.coeffs@.len() + b.partial_eval_proof.g_poly.coeffs@.len(),
{
}

/// Each Merkle node of the aggregate opening adds 32 to the size, each of
/// the opening of `z, g` adds one.
pub proof fn law_proof_size_per_merkle_node(p: SpartanProof, a: nat, z: nat)
    ensures
        sn_proof_size(p, a + 1, z) == sn_proof_size(p, a, z) + 32,
        sn_proof_size(p, a, z + 1) == sn_proof_size(p, a, z) + 1,
{
}

/// Beyond its four sum-checks and its three openings, a proof counts the
/// 22 values claimed after the sum-checks: 3 after the first, 7 after the
/// second, 10 after the third and 2 after the fourth.
pub proof fn law_proof_size_claimed_values(p: SpartanProof, a: nat, z: nat)
    ensures
        sn_proof_size(p, a, z) - (p.sumcheck_proof_1.total_size() + p.sumcheck_proof_2.total_size()
            + p.sumcheck_proof_3.total_size() + p.sumcheck_proof_4.total_size()) - eval_proof_bytes(
            p.agg_pqm_proof.eval_proof,
            a,
        ) - batch_proof_elems(p.batch_zg_proof, z) - p.batch_index_proof.partial_eval_proof.g_poly.coeffs@.len() == 3 + 7
            + 10 + 2,
{
}

} // verus!
