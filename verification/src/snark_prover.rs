//! The prover of the SNARK, in four steps between which the caller commits
//! to a polynomial with a Merkle tree and hands back its root: the first two
//! sum-checks, then memory checking, then the reduction to one point, then
//! the openings.
use vstd::prelude::*;
use crate::field::{q, Fr};
use crate::traits::lvals;
use crate::field_sumcheck::CombineFn;
use crate::snark::{
    fmul, fadd, fsub, lemma_val_mod, draw_challenges, nvars, sn_nvars, sn_init, sn_log_a, sn_tau, chal, chal_log,
};
use crate::field::{fr_zero, fr_eq};
use crate::field_sumcheck::{SumCheckProof, ProductCombine, sc_prove_post, sc_log, cube_sum, column};
use crate::r1cs::{R1CS, SparseMatrix, row_sum, col_sum, entries_fit, constraint_holds};
use crate::multilinear::{MultilinearPoly, pow2_usize};
use crate::mle::{mle, eq_table, seq_mod};
use crate::sums::{exp2, ssum, lemma_exp2_pos, lemma_exp2_monotone, lemma_ssum_mod};
use crate::transcript::{TitanTranscript, TranscriptEntry, get_challenge, append_to_transcript};
use crate::traits::ByteSerializable;
use crate::config::{TitanSnark, TitanSnarkConfig, TitanSetupConfig};
use crate::pcs::{TitanSetup, TitanPolyCommitment};

verus! {

/// `G(e, a, b, c) = e · (a · b - c)`: the R1CS relation weighted by `eq`.
pub struct R1csCombine;

impl CombineFn for R1csCombine {
    open spec fn accepts(&self, n: nat) -> bool {
        n >= 4
    }

    open spec fn spec_combine(&self, vals: Seq<int>) -> int {
        vals[0] * (vals[1] * vals[2] - vals[3])
    }

    fn combine(&self, vals: &[Fr]) -> (r: Fr) {
        let ghost v = lvals(vals@);
        proof {
            lemma_val_mod(vals@[0]);
            lemma_val_mod(vals@[1]);
            lemma_val_mod(vals@[2]);
            lemma_val_mod(vals@[3]);
        }
        let ab = fmul(&vals[1], &vals[2], Ghost(v[1]), Ghost(v[2]));
        let abc = fsub(&ab, &vals[3], Ghost(v[1] * v[2]), Ghost(v[3]));
        fmul(&vals[0], &abc, Ghost(v[0]), Ghost(v[1] * v[2] - v[3]))
    }
}

/// `G(z, e_y, g, e_3) = z · e_y + rho · g · e_3`: two openings reduced to
/// one point.
pub struct ReduceCombine {
    pub rho: Fr,
}

impl CombineFn for ReduceCombine {
    open spec fn accepts(&self, n: nat) -> bool {
        n >= 4
    }

    open spec fn spec_combine(&self, vals: Seq<int>) -> int {
        vals[0] * vals[1] + self.rho.val() * vals[2] * vals[3]
    }

    fn combine(&self, vals: &[Fr]) -> (r: Fr) {
        let ghost v = lvals(vals@);
        let ghost rho = self.rho.val();
        proof {
            lemma_val_mod(vals@[0]);
            lemma_val_mod(vals@[1]);
            lemma_val_mod(vals@[2]);
            lemma_val_mod(vals@[3]);
            lemma_val_mod(self.rho);
        }
        let zy = fmul(&vals[0], &vals[1], Ghost(v[0]), Ghost(v[1]));
        let rg = fmul(&self.rho, &vals[2], Ghost(rho), Ghost(v[2]));
        let rge = fmul(&rg, &vals[3], Ghost(rho * v[2]), Ghost(v[3]));
        fadd(&zy, &rge, Ghost(v[0] * v[1]), Ghost(rho * v[2] * v[3]))
    }
}

/// The combination of the third sum-check over
/// `val_A, val_B, val_C, p, q, eq_eta, g, d1, d2, d3, d4, m_r, m_c`: the
/// three matrix values times `p · q`, the memory-checking identity weighted
/// by `eq_eta`, and `g`, combined with the powers of `delta`.
pub struct MemoryCombine {
    pub eps: Fr,
    pub delta: Fr,
}

/// The memory-checking combination on values.
pub open spec fn memory_combine(v: Seq<int>, eps: int, delta: int) -> int {
    let pq = v[3] * v[4];
    let d1d2 = v[7] * v[8];
    let d3d4 = v[9] * v[10];
    let t = v[11] * v[8] * d3d4 - v[7] * d3d4 + eps * v[12] * d1d2 * v[10] - eps * d1d2 * v[9];
    let sc4a = v[5] * (t - v[6] * d1d2 * d3d4);
    v[0] * pq + delta * (v[1] * pq) + (delta * delta) * (v[2] * pq) + (delta * delta * delta) * sc4a + (delta * delta
        * delta * delta) * v[6]
}

impl CombineFn for MemoryCombine {
    open spec fn accepts(&self, n: nat) -> bool {
        n >= 13
    }

    open spec fn spec_combine(&self, vals: Seq<int>) -> int {
        memory_combine(vals, self.eps.val(), self.delta.val())
    }

    #[verifier::rlimit(40)]
    fn combine(&self, vals: &[Fr]) -> (r: Fr) {
        let ghost v = lvals(vals@);
        let ghost (E, D) = (self.eps.val(), self.delta.val());
        proof {
            assert forall|i: int| 0 <= i < 13 implies (#[trigger] vals@[i]).val() == v[i] % q() by {
                lemma_val_mod(vals@[i]);
            }
            lemma_val_mod(self.eps);
            lemma_val_mod(self.delta);
        }
        let pq = fmul(&vals[3], &vals[4], Ghost(v[3]), Ghost(v[4]));
        let ghost PQ = v[3] * v[4];
        let sc1 = fmul(&vals[0], &pq, Ghost(v[0]), Ghost(PQ));
        let sc2 = fmul(&vals[1], &pq, Ghost(v[1]), Ghost(PQ));
        let sc3 = fmul(&vals[2], &pq, Ghost(v[2]), Ghost(PQ));
        let d1d2 = fmul(&vals[7], &vals[8], Ghost(v[7]), Ghost(v[8]));
        let d3d4 = fmul(&vals[9], &vals[10], Ghost(v[9]), Ghost(v[10]));
        let ghost (D12, D34) = (v[7] * v[8], v[9] * v[10]);
        let mr_d2 = fmul(&vals[11], &vals[8], Ghost(v[11]), Ghost(v[8]));
        let t1 = fmul(&mr_d2, &d3d4, Ghost(v[11] * v[8]), Ghost(D34));
        let t2 = fmul(&vals[7], &d3d4, Ghost(v[7]), Ghost(D34));
        let e_mc = fmul(&self.eps, &vals[12], Ghost(E), Ghost(v[12]));
        let e_mc_d12 = fmul(&e_mc, &d1d2, Ghost(E * v[12]), Ghost(D12));
        let t3 = fmul(&e_mc_d12, &vals[10], Ghost(E * v[12] * D12), Ghost(v[10]));
        let e_d12 = fmul(&self.eps, &d1d2, Ghost(E), Ghost(D12));
        let t4 = fmul(&e_d12, &vals[9], Ghost(E * D12), Ghost(v[9]));
        let ghost (T1, T2, T3, T4) = (v[11] * v[8] * D34, v[7] * D34, E * v[12] * D12 * v[10], E * D12 * v[9]);
        let t12 = fsub(&t1, &t2, Ghost(T1), Ghost(T2));
        let t123 = fadd(&t12, &t3, Ghost(T1 - T2), Ghost(T3));
        let t = fsub(&t123, &t4, Ghost(T1 - T2 + T3), Ghost(T4));
        let ghost T = T1 - T2 + T3 - T4;
        let g_d12 = fmul(&vals[6], &d1d2, Ghost(v[6]), Ghost(D12));
        let gd = fmul(&g_d12, &d3d4, Ghost(v[6] * D12), Ghost(D34));
        let inner = fsub(&t, &gd, Ghost(T), Ghost(v[6] * D12 * D34));
        let sc4a = fmul(&vals[5], &inner, Ghost(v[5]), Ghost(T - v[6] * D12 * D34));
        let ghost SC4A = v[5] * (T - v[6] * D12 * D34);
        let delta2 = fmul(&self.delta, &self.delta, Ghost(D), Ghost(D));
        let delta3 = fmul(&delta2, &self.delta, Ghost(D * D), Ghost(D));
        let delta4 = fmul(&delta3, &self.delta, Ghost(D * D * D), Ghost(D));
        let l2 = fmul(&self.delta, &sc2, Ghost(D), Ghost(v[1] * PQ));
        let l3 = fmul(&delta2, &sc3, Ghost(D * D), Ghost(v[2] * PQ));
        let l4 = fmul(&delta3, &sc4a, Ghost(D * D * D), Ghost(SC4A));
        let l5 = fmul(&delta4, &vals[6], Ghost(D * D * D * D), Ghost(v[6]));
        let s12 = fadd(&sc1, &l2, Ghost(v[0] * PQ), Ghost(D * (v[1] * PQ)));
        let s123 = fadd(&s12, &l3, Ghost(v[0] * PQ + D * (v[1] * PQ)), Ghost((D * D) * (v[2] * PQ)));
        let s1234 = fadd(
            &s123,
            &l4,
            Ghost(v[0] * PQ + D * (v[1] * PQ) + (D * D) * (v[2] * PQ)),
            Ghost((D * D * D) * SC4A),
        );
        fadd(
            &s1234,
            &l5,
            Ghost(v[0] * PQ + D * (v[1] * PQ) + (D * D) * (v[2] * PQ) + (D * D * D) * SC4A),
            Ghost((D * D * D * D) * v[6]),
        )
    }
}

/// The products `M · z` of the rows, zero past the first `m`, over `size`
/// entries.
pub open spec fn padded_rows(mat: SparseMatrix, z: Seq<int>, m: nat, size: nat) -> Seq<int> {
    Seq::new(size, |i: int| if i < m { row_sum(mat.entries@, z, i) % q() } else { 0 })
}

/// The products `M^T · e` of the columns, over `n` entries.
pub open spec fn col_products(mat: SparseMatrix, e: Seq<int>, n: nat) -> Seq<int> {
    Seq::new(n, |j: int| col_sum(mat.entries@, e, j) % q())
}

/// The shapes the prover needs: the matrices have `m` rows and `n` columns
/// with their entries inside, the witness has `n` entries, and `n` is a
/// power of two.
pub open spec fn sn_instance_ok(instance: R1CS, witness: Seq<Fr>) -> bool {
    &&& witness.len() == instance.n
    &&& instance.a.rows == instance.m && instance.b.rows == instance.m && instance.c.rows == instance.m
    &&& instance.a.cols == instance.n && instance.b.cols == instance.n && instance.c.cols == instance.n
    &&& entries_fit(instance.a, instance.n as nat) && entries_fit(instance.b, instance.n as nat) && entries_fit(instance.c, instance.n as nat)
    &&& exists|k: nat| instance.n == exp2(k)
    &&& instance.m <= usize::MAX / 2 + 1
    &&& instance.n <= usize::MAX / 2 + 1
}

/// What the prover holds after the first two sum-checks.
#[allow(non_snake_case)]
pub struct RelationPhase {
    pub transcript: TitanTranscript,
    pub nvx: usize,
    pub nvy: usize,
    pub sumcheck_proof_1: SumCheckProof,
    pub a_at_rx: Fr,
    pub b_at_rx: Fr,
    pub c_at_rx: Fr,
    pub sumcheck_proof_2: SumCheckProof,
    pub eA_at_ry: Fr,
    pub eB_at_ry: Fr,
    pub eC_at_ry: Fr,
    pub z_at_ry: Fr,
    pub rx: Vec<Fr>,
    pub ry: Vec<Fr>,
    pub z_poly: MultilinearPoly<Fr>,
}

/// The tables of the first sum-check: `eq(tau, ·)`, `A z`, `B z`, `C z`.
pub open spec fn sn_tabs1(instance: R1CS, witness: Seq<Fr>) -> Seq<Seq<int>> {
    let nvx = sn_nvars(instance.m as nat);
    let nvy = sn_nvars(instance.n as nat);
    let z = lvals(witness);
    seq![
        seq_mod(eq_table(sn_tau(nvx, nvy)), q()),
        padded_rows(instance.a, z, instance.m as nat, exp2(nvx)),
        padded_rows(instance.b, z, instance.m as nat, exp2(nvx)),
        padded_rows(instance.c, z, instance.m as nat, exp2(nvx)),
    ]
}

/// The table of the second sum-check: `(A^T + beta B^T + beta^2 C^T) eq(r_x, ·)`.
#[allow(non_snake_case)]
pub open spec fn sn_comb2(instance: R1CS, rx: Seq<int>, beta: int) -> Seq<int> {
    let e = seq_mod(eq_table(rx), q());
    let n = instance.n as nat;
    let eA = col_products(instance.a, e, n);
    let eB = col_products(instance.b, e, n);
    let eC = col_products(instance.c, e, n);
    Seq::new(n, |j: int| (eA[j] + beta * eB[j] + (beta * beta) * eC[j]) % q())
}

/// What the first step of the prover holds, for an instance and a witness
/// that satisfies it: the first sum-check of `eq(tau, x) (Az(x) Bz(x) -
/// Cz(x))` with claim zero on the transcript of the verifier, the values of
/// `Az, Bz, Cz` at its point `r_x`, `beta` drawn after them, the second
/// sum-check of `(A^T + beta B^T + beta^2 C^T) eq(r_x, ·) · z`, and the values
/// of `A^T eq(r_x, ·)`, ..., `z` at its point `r_y`.
#[allow(non_snake_case)]
pub open spec fn relation_post(instance: R1CS, witness: Seq<Fr>, r: RelationPhase) -> bool {
    let nvx = sn_nvars(instance.m as nat);
    let nvy = sn_nvars(instance.n as nat);
    let z = lvals(witness);
    let tabs1 = sn_tabs1(instance, witness);
    let log_a = sn_log_a(nvx, nvy);
    let rx = lvals(r.rx@);
    let ry = lvals(r.ry@);
    let log_b = sc_log(log_a, 0, r.sumcheck_proof_1.rounds(), nvx);
    let log_c = log_b.push(TranscriptEntry::Message("a_at_rx"@, r.a_at_rx.ser())).push(
        TranscriptEntry::Message("b_at_rx"@, r.b_at_rx.ser()),
    ).push(TranscriptEntry::Message("c_at_rx"@, r.c_at_rx.ser()));
    let beta = chal(log_c, "beta"@);
    let log_d = log_c.push(TranscriptEntry::Challenge("beta"@, 64));
    let e = seq_mod(eq_table(rx), q());
    let tabs2 = seq![sn_comb2(instance, rx, beta), z];
    &&& r.nvx == nvx && r.nvy == nvy
    &&& cube_sum(R1csCombine, tabs1, exp2(nvx)) % q() == 0
    &&& sc_prove_post(R1csCombine, tabs1, nvx, 3, log_a, r.sumcheck_proof_1, r.rx@, log_b)
    &&& r.a_at_rx.val() == mle(tabs1[1], rx) % q()
    &&& r.b_at_rx.val() == mle(tabs1[2], rx) % q()
    &&& r.c_at_rx.val() == mle(tabs1[3], rx) % q()
    &&& sc_prove_post(ProductCombine, tabs2, nvy, 2, log_d, r.sumcheck_proof_2, r.ry@, r.transcript@)
    &&& r.eA_at_ry.val() == mle(col_products(instance.a, e, instance.n as nat), ry) % q()
    &&& r.eB_at_ry.val() == mle(col_products(instance.b, e, instance.n as nat), ry) % q()
    &&& r.eC_at_ry.val() == mle(col_products(instance.c, e, instance.n as nat), ry) % q()
    &&& r.z_at_ry.val() == mle(z, ry) % q()
    &&& r.z_poly.wf() && r.z_poly.num_vars == nvy && r.z_poly.table() == z
}

/// `M · z` padded with zeros to `size` entries.
fn padded_product(mat: &SparseMatrix, witness: &Vec<Fr>, m: usize, size: usize) -> (r: Vec<Fr>)
    requires
        mat.rows == m,
        m <= size,
        entries_fit(*mat, witness@.len()),
    ensures
        lvals(r@) == padded_rows(*mat, lvals(witness@), m as nat, size as nat),
        r@.len() == size,
{
    let v = mat.mult_vec(witness.as_slice());
    let mut out: Vec<Fr> = Vec::new();
    let zero = fr_zero();
    let mut i: usize = 0;
    while i < size
        invariant
            i <= size,
            m <= size,
            v@.len() == m,
            zero.val() == 0,
            forall|t: int| 0 <= t < m ==> #[trigger] v@[t].val() == row_sum(mat.entries@, lvals(witness@), t) % q(),
            out@.len() == i,
            forall|t: int| 0 <= t < i ==> (#[trigger] out@[t]).val() == (if t < m {
                row_sum(mat.entries@, lvals(witness@), t) % q()
            } else {
                0
            }),
        decreases size - i,
    {
        if i < m {
            out.push(v[i]);
        } else {
            out.push(zero);
        }
        i = i + 1;
    }
    proof {
        assert(lvals(out@) =~= padded_rows(*mat, lvals(witness@), m as nat, size as nat));
    }
    out
}

/// `M^T · e`.
fn col_product(mat: &SparseMatrix, e: &Vec<Fr>) -> (r: Vec<Fr>)
    requires
        forall|k: int| 0 <= k < mat.entries@.len() ==> (#[trigger] mat.entries@[k]).1 < mat.cols && mat.entries@[k].0
            < e@.len(),
    ensures
        lvals(r@) == col_products(*mat, lvals(e@), mat.cols as nat),
        r@.len() == mat.cols,
{
    let r = mat.mult_vec_transpose(e.as_slice());
    proof {
        assert(lvals(r@) =~= col_products(*mat, lvals(e@), mat.cols as nat));
    }
    r
}

/// For a satisfied instance every term of the first sum-check is zero, so
/// its sum is.
proof fn lemma_relation_sum_zero(instance: R1CS, witness: Seq<Fr>, size: nat)
    requires
        instance.satisfied(),
        instance.witness@ == witness,
        instance.m <= size,
    ensures
        ({
            let z = lvals(witness);
            let tabs = seq![
                seq_mod(eq_table(sn_tau(sn_nvars(instance.m as nat), sn_nvars(instance.n as nat))), q()),
                padded_rows(instance.a, z, instance.m as nat, size),
                padded_rows(instance.b, z, instance.m as nat, size),
                padded_rows(instance.c, z, instance.m as nat, size),
            ];
            cube_sum(R1csCombine, tabs, size) % q() == 0
        }),
{
    let z = lvals(witness);
    let tabs = seq![
        seq_mod(eq_table(sn_tau(sn_nvars(instance.m as nat), sn_nvars(instance.n as nat))), q()),
        padded_rows(instance.a, z, instance.m as nat, size),
        padded_rows(instance.b, z, instance.m as nat, size),
        padded_rows(instance.c, z, instance.m as nat, size),
    ];
    let terms = Seq::new(size, |b: int| R1csCombine.spec_combine(column(tabs, b)));
    let zeros = Seq::new(size, |b: int| 0int);
    assert forall|b: int| 0 <= b < size implies #[trigger] terms[b] % q() == zeros[b] % q() by {
        let col = column(tabs, b);
        let (e, x, y, w) = (col[0], col[1], col[2], col[3]);
        assert(terms[b] == e * (x * y - w));
        if b < instance.m {
            assert(constraint_holds(instance.a.entries@, instance.b.entries@, instance.c.entries@, z, b));
            let (ra, rb, rc) = (row_sum(instance.a.entries@, z, b), row_sum(instance.b.entries@, z, b), row_sum(instance.c.entries@, z, b));
            assert(x == ra % q() && y == rb % q() && w == rc % q());
            vstd::arithmetic::div_mod::lemma_mul_mod_noop(ra, rb, q());
            assert((x * y) % q() == rc % q());
            vstd::arithmetic::div_mod::lemma_mod_twice(rc, q());
            assert(w % q() == w);
            vstd::arithmetic::div_mod::lemma_sub_mod_noop(x * y, w, q());
            assert((x * y - w) % q() == 0);
            crate::sums::lemma_mul_mod_congruent(x * y - w, 0, e, q());
            assert((x * y - w) * e == e * (x * y - w)) by (nonlinear_arith);
            assert(terms[b] % q() == 0);
        } else {
            assert(x == 0 && y == 0 && w == 0);
            assert(x * y - w == 0) by (nonlinear_arith)
                requires
                    x == 0,
                    w == 0,
            ;
            assert(e * (x * y - w) == 0) by (nonlinear_arith)
                requires
                    x * y - w == 0,
            ;
        }
    }
    lemma_ssum_mod(terms, zeros, q());
    crate::sums::lemma_ssum_zero(zeros);
}

/// A copy of a polynomial.
pub(crate) fn copy_poly(p: &MultilinearPoly<Fr>) -> (r: MultilinearPoly<Fr>)
    ensures
        r.coeffs@ == p.coeffs@,
        r.num_vars == p.num_vars,
{
    MultilinearPoly { coeffs: vstd::slice::slice_to_vec(p.coeffs.as_slice()), num_vars: p.num_vars }
}

/// A configuration `setup` takes.
pub open spec fn config_ok(c: TitanSetupConfig) -> bool {
    &&& c.m1 <= c.m
    &&& c.l2 <= c.m - c.m1
    &&& c.l2 <= 32
    &&& c.domain_g1_size <= 32
    &&& exp2(c.m as nat) <= usize::MAX
}

/// The parameters follow the configuration.
pub open spec fn setup_follows(c: TitanSetupConfig, pp: TitanSetup) -> bool {
    &&& pp.wf()
    &&& pp.m == c.m && pp.m1 == c.m1 && pp.l1 == c.l1 && pp.num_queries == c.num_queries
    &&& pp.bp_setup.l == c.l2
    &&& pp.domain_g1@.len() == exp2(c.domain_g1_size as nat)
}

impl TitanSnark {
    /// The parameters of the three commitments of the SNARK: single
    /// polynomials, the index, and the aggregate of four polynomials.
    pub fn setup(config: &TitanSnarkConfig) -> (r: Vec<TitanSetup>)
        requires
            config_ok(config.single_oracle_config),
            config_ok(config.trusted_oracle_config),
            config_ok(config.aggregate_oracle_config),
        ensures
            r@.len() == 3,
            setup_follows(config.single_oracle_config, r@[0]),
            setup_follows(config.trusted_oracle_config, r@[1]),
            setup_follows(config.aggregate_oracle_config, r@[2]),
    {
        let mut r: Vec<TitanSetup> = Vec::new();
        r.push(TitanPolyCommitment::setup(&config.single_oracle_config));
        r.push(TitanPolyCommitment::setup(&config.trusted_oracle_config));
        r.push(TitanPolyCommitment::setup(&config.aggregate_oracle_config));
        r
    }
}

impl TitanSnark {
    /// The prover's first step: the first two sum-checks on a transcript
    /// labelled "spartan", for an instance with a witness that satisfies it.
    #[allow(non_snake_case)]
    pub fn prove_relation(instance: &R1CS, witness: &Vec<Fr>) -> (r: RelationPhase)
        requires
            sn_instance_ok(*instance, witness@),
            instance.witness@ == witness@,
            instance.satisfied(),
        ensures
            relation_post(*instance, witness@, r),
    {
        let nvx = nvars(instance.m);
        let nvy = nvars(instance.n);
        let ghost (nx, ny) = (nvx as nat, nvy as nat);
        let ghost z = lvals(witness@);
        let m_padded = pow2_usize(nvx);
        let n = instance.n;
        proof {
            let k = choose|k: nat| instance.n == exp2(k);
            assert(crate::config::is_next_pow2(exp2(k), instance.n as nat)) by {
                lemma_exp2_pos(k);
                if k > 0 {
                    assert(exp2(k) == 2 * exp2((k - 1) as nat));
                }
            }
            crate::snark::lemma_next_pow2_unique(k, ny, instance.n as nat);
        }
        let az = padded_product(&instance.a, witness, instance.m, m_padded);
        let bz = padded_product(&instance.b, witness, instance.m, m_padded);
        let cz = padded_product(&instance.c, witness, instance.m, m_padded);
        proof {
            assert(az@.len() == exp2(nx));
            assert(bz@.len() == exp2(nx));
            assert(cz@.len() == exp2(nx));
        }
        let a_poly = MultilinearPoly::new(az);
        let b_poly = MultilinearPoly::new(bz);
        let c_poly = MultilinearPoly::new(cz);
        proof {
            crate::sums::lemma_exp2_injective(a_poly.num_vars as nat, nx);
            crate::sums::lemma_exp2_injective(b_poly.num_vars as nat, nx);
            crate::sums::lemma_exp2_injective(c_poly.num_vars as nat, nx);
        }
        let mut t = TitanTranscript::new("spartan");
        t.append_u64("num_vars_x", nvx as u64);
        t.append_u64("num_vars_y", nvy as u64);
        proof {
            assert(t@ =~= sn_init(nx, ny));
        }
        let tau = draw_challenges(&mut t, "tau", nvx);
        let eq_tau = MultilinearPoly::<Fr>::init_with_eq(tau.as_slice());
        let mut polys1: Vec<MultilinearPoly<Fr>> = Vec::new();
        polys1.push(eq_tau);
        polys1.push(copy_poly(&a_poly));
        polys1.push(copy_poly(&b_poly));
        polys1.push(copy_poly(&c_poly));
        proof {
            assert(crate::field_sumcheck::tables_of(polys1@) =~= sn_tabs1(*instance, witness@));
            lemma_relation_sum_zero(*instance, witness@, exp2(nx));
        }
        let (sumcheck_proof_1, rx) = crate::field_sumcheck::prove(polys1, &R1csCombine, 3, &mut t);
        let a_at_rx = a_poly.evaluate(rx.as_slice());
        let b_at_rx = b_poly.evaluate(rx.as_slice());
        let c_at_rx = c_poly.evaluate(rx.as_slice());
        append_to_transcript(&mut t, "a_at_rx", &a_at_rx);
        append_to_transcript(&mut t, "b_at_rx", &b_at_rx);
        append_to_transcript(&mut t, "c_at_rx", &c_at_rx);
        let beta = get_challenge(&mut t, "beta");
        let ghost bv = beta.val();
        proof {
            lemma_val_mod(beta);
        }
        let beta2 = fmul(&beta, &beta, Ghost(bv), Ghost(bv));
        let eq_rx = MultilinearPoly::<Fr>::init_with_eq(rx.as_slice());
        let eA = col_product(&instance.a, &eq_rx.coeffs);
        let eB = col_product(&instance.b, &eq_rx.coeffs);
        let eC = col_product(&instance.c, &eq_rx.coeffs);
        let ghost e = seq_mod(eq_table(lvals(rx@)), q());
        let ghost comb = sn_comb2(*instance, lvals(rx@), bv);
        let mut combined: Vec<Fr> = Vec::new();
        let mut j: usize = 0;
        while j < n
            invariant
                j <= n,
                n == instance.n,
                eA@.len() == n && eB@.len() == n && eC@.len() == n,
                lvals(eA@) == col_products(instance.a, e, n as nat),
                lvals(eB@) == col_products(instance.b, e, n as nat),
                lvals(eC@) == col_products(instance.c, e, n as nat),
                beta.val() == bv,
                beta2.val() == (bv * bv) % q(),
                bv == bv % q(),
                comb == sn_comb2(*instance, lvals(rx@), bv),
                e == seq_mod(eq_table(lvals(rx@)), q()),
                combined@.len() == j,
                forall|t: int| 0 <= t < j ==> (#[trigger] combined@[t]).val() == comb[t],
            decreases n - j,
        {
            let ghost (xa, xb, xc) = (lvals(eA@)[j as int], lvals(eB@)[j as int], lvals(eC@)[j as int]);
            proof {
                lemma_val_mod(eA@[j as int]);
                lemma_val_mod(eB@[j as int]);
                lemma_val_mod(eC@[j as int]);
            }
            let bb = fmul(&beta, &eB[j], Ghost(bv), Ghost(xb));
            let bc = fmul(&beta2, &eC[j], Ghost(bv * bv), Ghost(xc));
            let s1 = fadd(&eA[j], &bb, Ghost(xa), Ghost(bv * xb));
            let v = fadd(&s1, &bc, Ghost(xa + bv * xb), Ghost((bv * bv) * xc));
            combined.push(v);
            j = j + 1;
        }
        proof {
            assert(lvals(combined@) =~= comb);
            assert(combined@.len() == exp2(ny));
            assert(witness@.len() == exp2(ny));
        }
        let comb_poly = MultilinearPoly::new(combined);
        let z_poly = MultilinearPoly::new(vstd::slice::slice_to_vec(witness.as_slice()));
        proof {
            crate::sums::lemma_exp2_injective(comb_poly.num_vars as nat, ny);
            crate::sums::lemma_exp2_injective(z_poly.num_vars as nat, ny);
        }
        let mut polys2: Vec<MultilinearPoly<Fr>> = Vec::new();
        polys2.push(comb_poly);
        polys2.push(copy_poly(&z_poly));
        proof {
            assert(polys2@[0].table() == comb);
            assert(polys2@[1].table() == z);
            assert(crate::field_sumcheck::tables_of(polys2@) =~= seq![comb, z]);
        }
        let (sumcheck_proof_2, ry) = crate::field_sumcheck::prove(polys2, &ProductCombine, 2, &mut t);
        proof {
            assert(eA@.len() == exp2(ny));
        }
        let eA_poly = MultilinearPoly::new(eA);
        let eB_poly = MultilinearPoly::new(eB);
        let eC_poly = MultilinearPoly::new(eC);
        proof {
            crate::sums::lemma_exp2_injective(eA_poly.num_vars as nat, ny);
            crate::sums::lemma_exp2_injective(eB_poly.num_vars as nat, ny);
            crate::sums::lemma_exp2_injective(eC_poly.num_vars as nat, ny);
        }
        let eA_at_ry = eA_poly.evaluate(ry.as_slice());
        let eB_at_ry = eB_poly.evaluate(ry.as_slice());
        let eC_at_ry = eC_poly.evaluate(ry.as_slice());
        let z_at_ry = z_poly.evaluate(ry.as_slice());
        RelationPhase {
            transcript: t,
            nvx,
            nvy,
            sumcheck_proof_1,
            a_at_rx,
            b_at_rx,
            c_at_rx,
            sumcheck_proof_2,
            eA_at_ry,
            eB_at_ry,
            eC_at_ry,
            z_at_ry,
            rx,
            ry,
            z_poly,
        }
    }
}

} // verus!
