//! Parameters of the commitment scheme and of the SNARK built on it, with
//! the proof size they lead to.
use vstd::prelude::*;
use crate::sums::{exp2, lemma_exp2_pos};
use crate::multilinear::pow2_usize;
use crate::r1cs::{SparseMatrix, R1CS};
use crate::field::{Fr, fr_zero, fr_from_u64};
use crate::multilinear::MultilinearPoly;
use crate::traits::lvals;

verus! {

/// The parameters of one commitment: a polynomial in `m` variables split
/// into a group polynomial in `m1` variables, folded `l1` times, and a
/// generator part of `m - m1` variables folded `l2` times.
#[derive(Clone, Copy, Debug)]
pub struct TitanSetupConfig {
    pub m: usize,
    pub m1: usize,
    pub l1: usize,
    pub domain_g1_size: usize,
    pub num_queries: usize,
    pub l2: usize,
    pub domain_g2_size: usize,
    pub num_merkle_nodes: usize,
}

/// The number of 32-byte elements of a proof under the parameters: three
/// messages per group round, the queried cosets, the folded group
/// polynomial, the folded generators, four messages per generator round and
/// the Merkle nodes.
pub open spec fn proof_elements(c: TitanSetupConfig) -> int {
    3 * c.l1 + c.num_queries * exp2(c.l1 as nat) + exp2((c.m1 - c.l1) as nat) + exp2(((c.m - c.m1) - c.l2) as nat)
        + 4 * c.l2 + c.num_merkle_nodes
}

impl TitanSetupConfig {
    /// The size of a proof in bytes.
    pub fn estimate_metrics(&self) -> (r: usize)
        requires
            self.m1 <= self.m,
            self.l1 <= self.m1,
            self.l2 <= self.m - self.m1,
            exp2(self.l1 as nat) <= usize::MAX,
            32 * proof_elements(*self) <= usize::MAX,
        ensures
            r == 32 * proof_elements(*self),
    {
        let m2 = self.m - self.m1;
        proof {
            lemma_exp2_pos(self.l1 as nat);
            lemma_exp2_pos((self.m1 - self.l1) as nat);
            lemma_exp2_pos((m2 - self.l2) as nat);
            assert(self.num_queries * exp2(self.l1 as nat) >= 0) by (nonlinear_arith);
        }
        let coset_size = pow2_usize(self.l1);
        let folded_size = pow2_usize(self.m1 - self.l1);
        let mut proof_elems: usize = 0;
        proof_elems = proof_elems + 3 * self.l1;
        proof_elems = proof_elems + self.num_queries * coset_size;
        proof_elems = proof_elems + folded_size;
        proof_elems = proof_elems + pow2_usize(m2 - self.l2);
        proof_elems = proof_elems + 4 * self.l2;
        proof_elems = proof_elems + self.num_merkle_nodes;
        32 * proof_elems
    }
}

/// Each Merkle node the authentication paths transmit adds one 32-byte
/// element to the estimated proof size; nothing else changes.
pub proof fn law_proof_size_per_merkle_node(c: TitanSetupConfig)
    requires
        c.num_merkle_nodes < usize::MAX,
    ensures
        32 * proof_elements(TitanSetupConfig { num_merkle_nodes: (c.num_merkle_nodes + 1) as usize, ..c }) == 32
            * proof_elements(c) + 32,
{
}

/// Each further query opens one more coset of `2^l1` elements: the
/// estimated proof size grows by `32 · 2^l1` bytes.
pub proof fn law_proof_size_per_query(c: TitanSetupConfig)
    requires
        c.num_queries < usize::MAX,
    ensures
        32 * proof_elements(TitanSetupConfig { num_queries: (c.num_queries + 1) as usize, ..c }) == 32 * proof_elements(c)
            + 32 * exp2(c.l1 as nat),
{
    let c2 = TitanSetupConfig { num_queries: (c.num_queries + 1) as usize, ..c };
    assert(c2.num_queries * exp2(c.l1 as nat) == c.num_queries * exp2(c.l1 as nat) + exp2(c.l1 as nat)) by (nonlinear_arith)
        requires
            c2.num_queries == c.num_queries + 1,
    ;
}

/// One more round of folding the group polynomial adds its three messages,
/// doubles each opened coset and halves the folded group polynomial: with
/// `w = m1 - l1 - 1` variables left after it, the proof has
/// `3 + num_queries · 2^l1 - 2^w` elements more.
pub proof fn law_proof_size_per_group_round(c: TitanSetupConfig)
    requires
        c.l1 < c.m1,
    ensures
        proof_elements(TitanSetupConfig { l1: (c.l1 + 1) as usize, ..c }) == proof_elements(c) + 3 + c.num_queries * exp2(
            c.l1 as nat,
        ) - exp2((c.m1 - c.l1 - 1) as nat),
{
    let w = (c.m1 - c.l1 - 1) as nat;
    assert((c.m1 - c.l1) as nat == w + 1);
    assert(exp2(w + 1) == 2 * exp2(w));
    assert(exp2((c.l1 + 1) as nat) == 2 * exp2(c.l1 as nat));
    assert(c.num_queries * (2 * exp2(c.l1 as nat)) == 2 * (c.num_queries * exp2(c.l1 as nat))) by (nonlinear_arith);
}

/// With both polynomials folded all the way down, the proof holds the three
/// messages of each group round, the opened cosets, the single values of
/// the two folded polynomials, the four messages of each generator round and
/// the Merkle nodes.
pub proof fn law_proof_size_fully_folded(c: TitanSetupConfig)
    requires
        c.l1 == c.m1,
        c.m1 <= c.m,
        c.l2 == c.m - c.m1,
    ensures
        proof_elements(c) == 3 * c.l1 + c.num_queries * exp2(c.l1 as nat) + 2 + 4 * c.l2 + c.num_merkle_nodes,
{
    assert(exp2(0) == 1);
    assert((c.m1 - c.l1) as nat == 0);
    assert(((c.m - c.m1) - c.l2) as nat == 0);
}

/// The sizes of the evaluation domains do not enter the proof size.
pub proof fn law_proof_size_ignores_domains(c: TitanSetupConfig, d1: usize, d2: usize)
    ensures
        proof_elements(TitanSetupConfig { domain_g1_size: d1, domain_g2_size: d2, ..c }) == proof_elements(c),
{
}

/// One more round of folding the generators adds its four messages and
/// halves the folded generator table: with `w = m - m1 - l2 - 1` variables
/// left after it, the proof has `4 - 2^w` elements more.
pub proof fn law_proof_size_per_generator_round(c: TitanSetupConfig)
    requires
        c.m1 <= c.m,
        c.l2 < c.m - c.m1,
    ensures
        proof_elements(TitanSetupConfig { l2: (c.l2 + 1) as usize, ..c }) == proof_elements(c) + 4 - exp2(
            ((c.m - c.m1) - c.l2 - 1) as nat,
        ),
{
    let w = ((c.m - c.m1) - c.l2 - 1) as nat;
    assert(((c.m - c.m1) - c.l2) as nat == w + 1);
    assert(exp2(w + 1) == 2 * exp2(w));
}

/// The parameters used for polynomials in `m` variables, for each `m` the
/// scheme is tuned for.
pub fn titan_config_for_m(m: usize) -> (r: TitanSetupConfig)
    requires
        m == 18 || m == 20 || m == 22 || m == 24 || m == 26,
    ensures
        r.m == m,
        r.num_queries == 70,
        r.num_merkle_nodes == 0,
        m == 18 ==> r.m1 == 8 && r.l1 == 1 && r.domain_g1_size == 11 && r.l2 == 5 && r.domain_g2_size == 9,
        m == 20 ==> r.m1 == 8 && r.l1 == 1 && r.domain_g1_size == 11 && r.l2 == 6 && r.domain_g2_size == 11,
        m == 22 ==> r.m1 == 9 && r.l1 == 2 && r.domain_g1_size == 11 && r.l2 == 6 && r.domain_g2_size == 12,
        m == 24 ==> r.m1 == 10 && r.l1 == 2 && r.domain_g1_size == 12 && r.l2 == 7 && r.domain_g2_size == 12,
        m == 26 ==> r.m1 == 11 && r.l1 == 3 && r.domain_g1_size == 12 && r.l2 == 8 && r.domain_g2_size == 12,
{
    let (m1, l1, g1, l2, g2): (usize, usize, usize, usize, usize) = if m == 18 {
        (8, 1, 11, 5, 9)
    } else if m == 20 {
        (8, 1, 11, 6, 11)
    } else if m == 22 {
        (9, 2, 11, 6, 12)
    } else if m == 24 {
        (10, 2, 12, 7, 12)
    } else {
        (11, 3, 12, 8, 12)
    };
    TitanSetupConfig {
        m,
        m1,
        l1,
        domain_g1_size: g1,
        num_queries: 70,
        l2,
        domain_g2_size: g2,
        num_merkle_nodes: 0,
    }
}

/// The commitment parameters of the SNARK: for single polynomials, for the
/// oracles of the index, and for aggregated openings.
pub struct TitanSnarkConfig {
    pub single_oracle_config: TitanSetupConfig,
    pub trusted_oracle_config: TitanSetupConfig,
    pub aggregate_oracle_config: TitanSetupConfig,
}

/// The statement of the SNARK: the three matrices of an R1CS instance.
pub struct TitanSnarkInstance {
    pub a_matrix: SparseMatrix,
    pub b_matrix: SparseMatrix,
    pub c_matrix: SparseMatrix,
}

/// The SNARK over the commitment scheme.
pub struct TitanSnark;

/// The sum-check over committed group polynomials.
pub struct ProtoSumCheckGroup;


/// The sparse encoding of an R1CS instance: at position `p` the row and the
/// column of the `p`-th entry of `A`, then `B`, then `C`, with its value in
/// the table of its matrix and zero in the other two; zero past the entries.
#[allow(non_snake_case)]
pub struct TitanIndexPolys {
    pub row_poly: MultilinearPoly<Fr>,
    pub col_poly: MultilinearPoly<Fr>,
    pub val_A_poly: MultilinearPoly<Fr>,
    pub val_B_poly: MultilinearPoly<Fr>,
    pub val_C_poly: MultilinearPoly<Fr>,
}

/// The entry at position `p` of the concatenated entries of the three
/// matrices.
pub open spec fn index_entry(
    a: Seq<(usize, usize, Fr)>,
    b: Seq<(usize, usize, Fr)>,
    c: Seq<(usize, usize, Fr)>,
    p: int,
) -> (usize, usize, Fr) {
    if p < a.len() {
        a[p]
    } else if p < a.len() + b.len() {
        b[p - a.len()]
    } else {
        c[p - a.len() - b.len()]
    }
}

/// Whether `r` is the smallest power of two that is at least `n` (one for
/// zero).
pub open spec fn is_next_pow2(r: nat, n: nat) -> bool {
    &&& exists|k: nat| r == exp2(k)
    &&& r >= n
    &&& (r == 1 || r / 2 < n)
}

/// The smallest power of two at least `n`.
pub(crate) fn next_power_of_two(n: usize) -> (r: usize)
    requires
        n <= usize::MAX / 2 + 1,
    ensures
        is_next_pow2(r as nat, n as nat),
{
    let mut p: usize = 1;
    let ghost mut k: nat = 0;
    proof {
        assert(exp2(0) == 1);
    }
    while p < n
        invariant
            p == exp2(k),
            p >= 1,
            p == 1 || p / 2 < n,
            n <= usize::MAX / 2 + 1,
        decreases usize::MAX - p,
    {
        proof {
            assert(2 * exp2(k) == exp2(k + 1));
            k = k + 1;
        }
        p = p * 2;
    }
    p
}

impl TitanSnark {
    /// The sparse encoding of the instance as five tables padded with zeros
    /// to the power of two `max_nonzeros` rounds up to.
    pub fn index(instance: &R1CS, max_nonzeros: usize) -> (r: TitanIndexPolys)
        requires
            instance.a.entries@.len() + instance.b.entries@.len() + instance.c.entries@.len() <= max_nonzeros,
            max_nonzeros <= usize::MAX / 2 + 1,
        ensures
            ({
                let (a, b, c) = (instance.a.entries@, instance.b.entries@, instance.c.entries@);
                let total = a.len() + b.len() + c.len();
                let n = r.row_poly.coeffs@.len();
                &&& is_next_pow2(n, max_nonzeros as nat)
                &&& r.row_poly.wf() && r.col_poly.wf() && r.val_A_poly.wf() && r.val_B_poly.wf() && r.val_C_poly.wf()
                &&& r.row_poly.coeffs@.len() == n && r.col_poly.coeffs@.len() == n
                &&& r.val_A_poly.coeffs@.len() == n && r.val_B_poly.coeffs@.len() == n && r.val_C_poly.coeffs@.len() == n
                &&& forall|p: int|
                    0 <= p < n ==> #[trigger] r.row_poly.coeffs@[p].val() == (if p < total {
                        index_entry(a, b, c, p).0 as int
                    } else {
                        0
                    })
                &&& forall|p: int|
                    0 <= p < n ==> #[trigger] r.col_poly.coeffs@[p].val() == (if p < total {
                        index_entry(a, b, c, p).1 as int
                    } else {
                        0
                    })
                &&& forall|p: int|
                    0 <= p < n ==> #[trigger] r.val_A_poly.coeffs@[p].val() == (if p < a.len() {
                        a[p].2.val()
                    } else {
                        0
                    })
                &&& forall|p: int|
                    0 <= p < n ==> #[trigger] r.val_B_poly.coeffs@[p].val() == (if a.len() <= p < a.len() + b.len() {
                        b[p - a.len()].2.val()
                    } else {
                        0
                    })
                &&& forall|p: int|
                    0 <= p < n ==> #[trigger] r.val_C_poly.coeffs@[p].val() == (if a.len() + b.len() <= p < total {
                        c[p - a.len() - b.len()].2.val()
                    } else {
                        0
                    })
            }),
    {
        let ghost (a, b, c) = (instance.a.entries@, instance.b.entries@, instance.c.entries@);
        let na = instance.a.entries.len();
        let nb = instance.b.entries.len();
        let nc = instance.c.entries.len();
        let total = na + nb + nc;
        let n = next_power_of_two(max_nonzeros);
        let zero = fr_zero();
        let mut row: Vec<Fr> = Vec::new();
        let mut col: Vec<Fr> = Vec::new();
        let mut va: Vec<Fr> = Vec::new();
        let mut vb: Vec<Fr> = Vec::new();
        let mut vc: Vec<Fr> = Vec::new();
        let mut p: usize = 0;
        while p < n
            invariant
                p <= n,
                n >= max_nonzeros,
                total <= max_nonzeros,
                na == a.len(),
                nb == b.len(),
                nc == c.len(),
                total == na + nb + nc,
                a == instance.a.entries@,
                b == instance.b.entries@,
                c == instance.c.entries@,
                zero.val() == 0,
                row@.len() == p && col@.len() == p && va@.len() == p && vb@.len() == p && vc@.len() == p,
                forall|t: int|
                    0 <= t < p ==> #[trigger] row@[t].val() == (if t < total {
                        index_entry(a, b, c, t).0 as int
                    } else {
                        0
                    }),
                forall|t: int|
                    0 <= t < p ==> #[trigger] col@[t].val() == (if t < total {
                        index_entry(a, b, c, t).1 as int
                    } else {
                        0
                    }),
                forall|t: int| 0 <= t < p ==> #[trigger] va@[t].val() == (if t < na { a[t].2.val() } else { 0 }),
                forall|t: int|
                    0 <= t < p ==> #[trigger] vb@[t].val() == (if na <= t < na + nb {
                        b[t - na].2.val()
                    } else {
                        0
                    }),
                forall|t: int|
                    0 <= t < p ==> #[trigger] vc@[t].val() == (if na + nb <= t < total {
                        c[t - na - nb].2.val()
                    } else {
                        0
                    }),
            decreases n - p,
        {
            if p < na {
                let e = instance.a.entries[p];
                row.push(fr_from_u64(e.0 as u64));
                col.push(fr_from_u64(e.1 as u64));
                va.push(e.2);
                vb.push(zero);
                vc.push(zero);
            } else if p < na + nb {
                let e = instance.b.entries[p - na];
                row.push(fr_from_u64(e.0 as u64));
                col.push(fr_from_u64(e.1 as u64));
                va.push(zero);
                vb.push(e.2);
                vc.push(zero);
            } else if p < total {
                let e = instance.c.entries[p - na - nb];
                row.push(fr_from_u64(e.0 as u64));
                col.push(fr_from_u64(e.1 as u64));
                va.push(zero);
                vb.push(zero);
                vc.push(e.2);
            } else {
                row.push(zero);
                col.push(zero);
                va.push(zero);
                vb.push(zero);
                vc.push(zero);
            }
            p = p + 1;
        }
        TitanIndexPolys {
            row_poly: MultilinearPoly::new(row),
            col_poly: MultilinearPoly::new(col),
            val_A_poly: MultilinearPoly::new(va),
            val_B_poly: MultilinearPoly::new(vb),
            val_C_poly: MultilinearPoly::new(vc),
        }
    }
}

} // verus!
