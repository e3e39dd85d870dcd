//! Rank-one constraint systems `(A·z) ∘ (B·z) = C·z` with sparse matrices,
//! and a generator of random satisfiable instances.
use vstd::prelude::*;
use vstd::arithmetic::div_mod::{lemma_add_mod_noop, lemma_mod_twice, lemma_small_mod, lemma_mul_mod_noop};
use rand::Rng;
use crate::field::{q, Fr, fr_zero, fr_one, fr_add, fr_mul, fr_eq, fr_random};
use crate::traits::lvals;
use crate::sums::{ssum, exp2, lemma_ssum_push, lemma_ssum_zero, lemma_ssum_add, lemma_exp2_pos, lemma_exp2_monotone};

verus! {

/// A sparse matrix as a list of `(row, col, value)` entries.
#[derive(Debug, Clone)]
pub struct SparseMatrix {
    pub rows: usize,
    pub cols: usize,
    pub entries: Vec<(usize, usize, Fr)>,
}

/// `Σ_k value_k · v[col_k]` over the entries in row `i`.
pub open spec fn row_sum(e: Seq<(usize, usize, Fr)>, v: Seq<int>, i: int) -> int {
    ssum(row_terms(e, v, i))
}

/// The products of the entries in row `i` with `v`, and zero for the others.
pub open spec fn row_terms(e: Seq<(usize, usize, Fr)>, v: Seq<int>, i: int) -> Seq<int> {
    Seq::new(e.len(), |k: int| if e[k].0 == i { e[k].2.val() * v[e[k].1 as int] } else { 0 })
}

/// `Σ_k value_k · v[row_k]` over the entries in column `j`.
pub open spec fn col_sum(e: Seq<(usize, usize, Fr)>, v: Seq<int>, j: int) -> int {
    ssum(col_terms(e, v, j))
}

/// The products of the entries in column `j` with `v`, and zero for the others.
pub open spec fn col_terms(e: Seq<(usize, usize, Fr)>, v: Seq<int>, j: int) -> Seq<int> {
    Seq::new(e.len(), |k: int| if e[k].1 == j { e[k].2.val() * v[e[k].0 as int] } else { 0 })
}

/// Adding an entry adds its product to its own row's sum only.
pub proof fn lemma_row_sum_push(e: Seq<(usize, usize, Fr)>, x: (usize, usize, Fr), v: Seq<int>, i: int)
    ensures
        row_sum(e.push(x), v, i) == row_sum(e, v, i) + if x.0 == i { x.2.val() * v[x.1 as int] } else { 0 },
{
    let s = row_terms(e.push(x), v, i);
    assert(s.drop_last() =~= row_terms(e, v, i));
    assert(e.push(x)[e.len() as int] == x);
    assert(s.len() > 0);
    assert(ssum(s) == ssum(s.drop_last()) + s.last());
}

proof fn lemma_col_sum_push(e: Seq<(usize, usize, Fr)>, x: (usize, usize, Fr), v: Seq<int>, j: int)
    ensures
        col_sum(e.push(x), v, j) == col_sum(e, v, j) + if x.1 == j { x.2.val() * v[x.0 as int] } else { 0 },
{
    let s = col_terms(e.push(x), v, j);
    assert(s.drop_last() =~= col_terms(e, v, j));
    assert(e.push(x)[e.len() as int] == x);
    assert(s.len() > 0);
    assert(ssum(s) == ssum(s.drop_last()) + s.last());
}

/// A sum with one non-zero term at `i` is that term.
proof fn lemma_ssum_point(n: nat, i: int, c: int)
    requires
        0 <= i < n,
    ensures
        ssum(Seq::new(n, |r: int| if r == i { c } else { 0 })) == c,
    decreases n,
{
    let s = Seq::new(n, |r: int| if r == i { c } else { 0 });
    let s1 = Seq::new((n - 1) as nat, |r: int| if r == i { c } else { 0 });
    assert(s.drop_last() =~= s1);
    if i < n - 1 {
        lemma_ssum_point((n - 1) as nat, i, c);
    } else {
        lemma_ssum_zero(s1);
    }
}

/// Multiplying by `M^T` is the transpose of multiplying by `M`: for entries
/// inside `rows × cols`, `Σ_r (M w)_r · u_r = Σ_c w_c · (M^T u)_c`.
pub proof fn law_mult_vec_transpose(e: Seq<(usize, usize, Fr)>, w: Seq<int>, u: Seq<int>, rows: nat, cols: nat)
    requires
        forall|k: int| 0 <= k < e.len() ==> (#[trigger] e[k]).0 < rows && e[k].1 < cols,
        w.len() == cols,
        u.len() == rows,
    ensures
        ssum(Seq::new(rows, |r: int| row_sum(e, w, r) * u[r])) == ssum(Seq::new(cols, |c: int| w[c] * col_sum(e, u, c))),
    decreases e.len(),
{
    let lhs = Seq::new(rows, |r: int| row_sum(e, w, r) * u[r]);
    let rhs = Seq::new(cols, |c: int| w[c] * col_sum(e, u, c));
    if e.len() == 0 {
        assert forall|r: int| 0 <= r < rows implies #[trigger] lhs[r] == 0 by {
            assert(row_terms(e, w, r).len() == 0);
        }
        assert forall|c: int| 0 <= c < cols implies #[trigger] rhs[c] == 0 by {
            assert(col_terms(e, u, c).len() == 0);
        }
        lemma_ssum_zero(lhs);
        lemma_ssum_zero(rhs);
    } else {
        let e1 = e.drop_last();
        let x = e.last();
        assert(e =~= e1.push(x));
        law_mult_vec_transpose(e1, w, u, rows, cols);
        let (xr, xc, v) = (x.0 as int, x.1 as int, x.2.val());
        assert(e[e.len() - 1] == x);
        let t = v * w[xc] * u[xr];
        let l1 = Seq::new(rows, |r: int| row_sum(e1, w, r) * u[r]);
        let lp = Seq::new(rows, |r: int| if r == xr { t } else { 0 });
        assert forall|r: int| 0 <= r < rows implies #[trigger] lhs[r] == l1[r] + lp[r] by {
            lemma_row_sum_push(e1, x, w, r);
            let a = row_sum(e1, w, r);
            if xr == r {
                assert((a + v * w[xc]) * u[r] == a * u[r] + v * w[xc] * u[r]) by (nonlinear_arith);
            }
        }
        let r1 = Seq::new(cols, |c: int| w[c] * col_sum(e1, u, c));
        let rp = Seq::new(cols, |c: int| if c == xc { t } else { 0 });
        assert forall|c: int| 0 <= c < cols implies #[trigger] rhs[c] == r1[c] + rp[c] by {
            lemma_col_sum_push(e1, x, u, c);
            let b = col_sum(e1, u, c);
            if xc == c {
                assert(w[c] * (b + v * u[xr]) == w[c] * b + v * w[c] * u[xr]) by (nonlinear_arith);
            }
        }
        lemma_ssum_add(lhs, l1, lp);
        lemma_ssum_add(rhs, r1, rp);
        lemma_ssum_point(rows, xr, t);
        lemma_ssum_point(cols, xc, t);
    }
}

/// A vector of `n` zeros.
fn zeros(n: usize) -> (r: Vec<Fr>)
    ensures
        r@.len() == n,
        forall|i: int| 0 <= i < n ==> #[trigger] r@[i].val() == 0,
{
    let z = fr_zero();
    let mut r: Vec<Fr> = Vec::new();
    let mut i: usize = 0;
    while i < n
        invariant
            i <= n,
            z.val() == 0,
            r@.len() == i,
            forall|t: int| 0 <= t < i ==> #[trigger] r@[t].val() == 0,
        decreases n - i,
    {
        r.push(z);
        i = i + 1;
    }
    r
}

impl SparseMatrix {
    /// `M · vec`.
    pub fn mult_vec(&self, vec: &[Fr]) -> (r: Vec<Fr>)
        requires
            forall|k: int| 0 <= k < self.entries@.len() ==> (#[trigger] self.entries@[k]).0 < self.rows && self.entries@[k].1
                < vec@.len(),
        ensures
            r@.len() == self.rows,
            forall|i: int| 0 <= i < self.rows ==> #[trigger] r@[i].val() == row_sum(self.entries@, lvals(vec@), i) % q(),
    {
        let ghost e = self.entries@;
        let ghost v = lvals(vec@);
        let mut result = zeros(self.rows);
        let mut k: usize = 0;
        proof {
            assert forall|i: int| 0 <= i < self.rows implies #[trigger] result@[i].val() == row_sum(e.take(0), v, i) % q() by {
                assert(row_terms(e.take(0), v, i).len() == 0);
            }
        }
        while k < self.entries.len()
            invariant
                k <= e.len(),
                e == self.entries@,
                v == lvals(vec@),
                forall|t: int| 0 <= t < e.len() ==> (#[trigger] e[t]).0 < self.rows && e[t].1 < vec@.len(),
                result@.len() == self.rows,
                forall|i: int| 0 <= i < self.rows ==> #[trigger] result@[i].val() == row_sum(e.take(k as int), v, i) % q(),
            decreases e.len() - k,
        {
            let (row, col, val) = self.entries[k];
            let p = fr_mul(&val, &vec[col]);
            let cur = result[row];
            let nv = fr_add(&cur, &p);
            let ghost old_res = result@;
            result.set(row, nv);
            proof {
                assert(e.take(k + 1) =~= e.take(k as int).push(e[k as int]));
                assert forall|i: int| 0 <= i < self.rows implies #[trigger] result@[i].val() == row_sum(e.take(k + 1), v, i) % q() by {
                    lemma_row_sum_push(e.take(k as int), e[k as int], v, i);
                    if i == row {
                        lemma_add_mod_noop(row_sum(e.take(k as int), v, i), val.val() * v[col as int], q());
                        lemma_mod_twice(row_sum(e.take(k as int), v, i), q());
                        lemma_mod_twice(val.val() * v[col as int], q());
                    } else {
                        assert(result@[i] == old_res[i]);
                    }
                }
            }
            k = k + 1;
        }
        proof {
            assert(e.take(e.len() as int) =~= e);
        }
        result
    }

    /// `Mᵀ · vec`.
    pub fn mult_vec_transpose(&self, vec: &[Fr]) -> (r: Vec<Fr>)
        requires
            forall|k: int| 0 <= k < self.entries@.len() ==> (#[trigger] self.entries@[k]).1 < self.cols && self.entries@[k].0
                < vec@.len(),
        ensures
            r@.len() == self.cols,
            forall|j: int| 0 <= j < self.cols ==> #[trigger] r@[j].val() == col_sum(self.entries@, lvals(vec@), j) % q(),
    {
        let ghost e = self.entries@;
        let ghost v = lvals(vec@);
        let mut result = zeros(self.cols);
        let mut k: usize = 0;
        proof {
            assert forall|j: int| 0 <= j < self.cols implies #[trigger] result@[j].val() == col_sum(e.take(0), v, j) % q() by {
                assert(col_terms(e.take(0), v, j).len() == 0);
            }
        }
        while k < self.entries.len()
            invariant
                k <= e.len(),
                e == self.entries@,
                v == lvals(vec@),
                forall|t: int| 0 <= t < e.len() ==> (#[trigger] e[t]).1 < self.cols && e[t].0 < vec@.len(),
                result@.len() == self.cols,
                forall|j: int| 0 <= j < self.cols ==> #[trigger] result@[j].val() == col_sum(e.take(k as int), v, j) % q(),
            decreases e.len() - k,
        {
            let (row, col, val) = self.entries[k];
            let p = fr_mul(&val, &vec[row]);
            let cur = result[col];
            let nv = fr_add(&cur, &p);
            let ghost old_res = result@;
            result.set(col, nv);
            proof {
                assert(e.take(k + 1) =~= e.take(k as int).push(e[k as int]));
                assert forall|j: int| 0 <= j < self.cols implies #[trigger] result@[j].val() == col_sum(e.take(k + 1), v, j) % q() by {
                    lemma_col_sum_push(e.take(k as int), e[k as int], v, j);
                    if j == col {
                        lemma_add_mod_noop(col_sum(e.take(k as int), v, j), val.val() * v[row as int], q());
                        lemma_mod_twice(col_sum(e.take(k as int), v, j), q());
                        lemma_mod_twice(val.val() * v[row as int], q());
                    } else {
                        assert(result@[j] == old_res[j]);
                    }
                }
            }
            k = k + 1;
        }
        proof {
            assert(e.take(e.len() as int) =~= e);
        }
        result
    }
}

/// An R1CS instance `(A·z) ∘ (B·z) = C·z` with `m` constraints over a witness
/// `z` of size `n`.
#[derive(Debug)]
pub struct R1CS {
    pub m: usize,
    pub n: usize,
    pub a: SparseMatrix,
    pub b: SparseMatrix,
    pub c: SparseMatrix,
    pub witness: Vec<Fr>,
}

/// Constraint `i` holds: `(A·z)_i · (B·z)_i = (C·z)_i` modulo `q`.
pub open spec fn constraint_holds(
    a: Seq<(usize, usize, Fr)>,
    b: Seq<(usize, usize, Fr)>,
    c: Seq<(usize, usize, Fr)>,
    z: Seq<int>,
    i: int,
) -> bool {
    (row_sum(a, z, i) * row_sum(b, z, i)) % q() == row_sum(c, z, i) % q()
}

/// Every entry of the matrix lies in its bounds and within the witness.
pub open spec fn entries_fit(mat: SparseMatrix, zlen: nat) -> bool {
    forall|k: int|
        0 <= k < mat.entries@.len() ==> (#[trigger] mat.entries@[k]).0 < mat.rows && mat.entries@[k].1 < zlen
}

impl R1CS {
    /// All `m` constraints hold for the witness.
    pub open spec fn satisfied(&self) -> bool {
        forall|i: int|
            0 <= i < self.m ==> #[trigger] constraint_holds(
                self.a.entries@,
                self.b.entries@,
                self.c.entries@,
                lvals(self.witness@),
                i,
            )
    }
}

/// Whether the witness satisfies every constraint.
pub fn verify_r1cs(r1cs: &R1CS) -> (r: bool)
    requires
        entries_fit(r1cs.a, r1cs.witness@.len()),
        entries_fit(r1cs.b, r1cs.witness@.len()),
        entries_fit(r1cs.c, r1cs.witness@.len()),
        r1cs.m <= r1cs.a.rows,
        r1cs.m <= r1cs.b.rows,
        r1cs.m <= r1cs.c.rows,
    ensures
        r == r1cs.satisfied(),
{
    let a_z = r1cs.a.mult_vec(r1cs.witness.as_slice());
    let b_z = r1cs.b.mult_vec(r1cs.witness.as_slice());
    let c_z = r1cs.c.mult_vec(r1cs.witness.as_slice());
    let ghost z = lvals(r1cs.witness@);
    let mut all_satisfied = true;
    let mut i: usize = 0;
    while i < r1cs.m
        invariant
            i <= r1cs.m,
            r1cs.m <= a_z@.len(),
            r1cs.m <= b_z@.len(),
            r1cs.m <= c_z@.len(),
            z == lvals(r1cs.witness@),
            forall|t: int| 0 <= t < r1cs.m ==> #[trigger] a_z@[t].val() == row_sum(r1cs.a.entries@, z, t) % q(),
            forall|t: int| 0 <= t < r1cs.m ==> #[trigger] b_z@[t].val() == row_sum(r1cs.b.entries@, z, t) % q(),
            forall|t: int| 0 <= t < r1cs.m ==> #[trigger] c_z@[t].val() == row_sum(r1cs.c.entries@, z, t) % q(),
            all_satisfied == (forall|t: int|
                0 <= t < i ==> #[trigger] constraint_holds(r1cs.a.entries@, r1cs.b.entries@, r1cs.c.entries@, z, t)),
        decreases r1cs.m - i,
    {
        let p = fr_mul(&a_z[i], &b_z[i]);
        let ok = fr_eq(&p, &c_z[i]);
        proof {
            let x = row_sum(r1cs.a.entries@, z, i as int);
            let y = row_sum(r1cs.b.entries@, z, i as int);
            lemma_mul_mod_noop(x, y, q());
            lemma_mod_twice(row_sum(r1cs.c.entries@, z, i as int), q());
            assert(ok == constraint_holds(r1cs.a.entries@, r1cs.b.entries@, r1cs.c.entries@, z, i as int));
        }
        if !ok {
            all_satisfied = false;
        }
        i = i + 1;
    }
    all_satisfied
}


/// A uniformly random bit (`Rng::gen::<bool>` on `rand::thread_rng()`).
#[verifier::external_body]
fn random_bool() -> bool {
    rand::thread_rng().gen::<bool>()
}

/// A uniformly random integer in `[lo, hi)` (`Rng::gen_range` on
/// `rand::thread_rng()`, which panics on an empty range).
#[verifier::external_body]
fn random_below(lo: usize, hi: usize) -> (r: usize)
    requires
        lo < hi,
    ensures
        lo <= r < hi,
{
    rand::thread_rng().gen_range(lo..hi)
}

/// The row sum of a concatenation is the sum of the row sums.
proof fn lemma_row_sum_concat(e: Seq<(usize, usize, Fr)>, x: Seq<(usize, usize, Fr)>, v: Seq<int>, i: int)
    ensures
        row_sum(e + x, v, i) == row_sum(e, v, i) + row_sum(x, v, i),
    decreases x.len(),
{
    if x.len() == 0 {
        assert(e + x =~= e);
        assert(row_terms(x, v, i).len() == 0);
    } else {
        let x2 = x.drop_last();
        lemma_row_sum_concat(e, x2, v, i);
        assert(e + x =~= (e + x2).push(x.last()));
        assert(x =~= x2.push(x.last()));
        lemma_row_sum_push(e + x2, x.last(), v, i);
        lemma_row_sum_push(x2, x.last(), v, i);
    }
}

/// A row with no entries sums to zero.
proof fn lemma_row_sum_empty_row(e: Seq<(usize, usize, Fr)>, v: Seq<int>, i: int)
    requires
        forall|k: int| 0 <= k < e.len() ==> (#[trigger] e[k]).0 != i,
    ensures
        row_sum(e, v, i) == 0,
{
    lemma_ssum_zero(row_terms(e, v, i));
}

/// Every entry lies in a row below `r` and a column below `c`.
pub open spec fn below(e: Seq<(usize, usize, Fr)>, r: int, c: int) -> bool {
    forall|k: int| 0 <= k < e.len() ==> (#[trigger] e[k]).0 < r && e[k].1 < c
}

/// Every constraint holds.
pub open spec fn all_hold(
    a: Seq<(usize, usize, Fr)>,
    b: Seq<(usize, usize, Fr)>,
    c: Seq<(usize, usize, Fr)>,
    z: Seq<int>,
) -> bool {
    forall|i: int| #[trigger] constraint_holds(a, b, c, z, i)
}

/// Appending the entries of one new row, whose products make its
/// constraint hold, keeps every constraint holding.
proof fn lemma_add_row(
    a: Seq<(usize, usize, Fr)>,
    b: Seq<(usize, usize, Fr)>,
    c: Seq<(usize, usize, Fr)>,
    xa: Seq<(usize, usize, Fr)>,
    xb: Seq<(usize, usize, Fr)>,
    xc: Seq<(usize, usize, Fr)>,
    z: Seq<int>,
    ci: int,
    n: int,
)
    requires
        all_hold(a, b, c, z),
        below(a, ci, n),
        below(b, ci, n),
        below(c, ci, n),
        forall|k: int| 0 <= k < xa.len() ==> (#[trigger] xa[k]).0 == ci && xa[k].1 < n,
        forall|k: int| 0 <= k < xb.len() ==> (#[trigger] xb[k]).0 == ci && xb[k].1 < n,
        forall|k: int| 0 <= k < xc.len() ==> (#[trigger] xc[k]).0 == ci && xc[k].1 < n,
        (row_sum(xa, z, ci) * row_sum(xb, z, ci)) % q() == row_sum(xc, z, ci) % q(),
    ensures
        all_hold(a + xa, b + xb, c + xc, z),
        below(a + xa, ci + 1, n),
        below(b + xb, ci + 1, n),
        below(c + xc, ci + 1, n),
{
    assert forall|i: int| #[trigger] constraint_holds(a + xa, b + xb, c + xc, z, i) by {
        lemma_row_sum_concat(a, xa, z, i);
        lemma_row_sum_concat(b, xb, z, i);
        lemma_row_sum_concat(c, xc, z, i);
        assert(constraint_holds(a, b, c, z, i));
        if i == ci {
            lemma_row_sum_empty_row(a, z, i);
            lemma_row_sum_empty_row(b, z, i);
            lemma_row_sum_empty_row(c, z, i);
        } else {
            lemma_row_sum_empty_row(xa, z, i);
            lemma_row_sum_empty_row(xb, z, i);
            lemma_row_sum_empty_row(xc, z, i);
        }
    }
    assert forall|k: int| 0 <= k < (a + xa).len() implies (#[trigger] (a + xa)[k]).0 < ci + 1 && (a + xa)[k].1 < n by {
        if k >= a.len() {
            assert((a + xa)[k] == xa[k - a.len()]);
        }
    }
    assert forall|k: int| 0 <= k < (b + xb).len() implies (#[trigger] (b + xb)[k]).0 < ci + 1 && (b + xb)[k].1 < n by {
        if k >= b.len() {
            assert((b + xb)[k] == xb[k - b.len()]);
        }
    }
    assert forall|k: int| 0 <= k < (c + xc).len() implies (#[trigger] (c + xc)[k]).0 < ci + 1 && (c + xc)[k].1 < n by {
        if k >= c.len() {
            assert((c + xc)[k] == xc[k - c.len()]);
        }
    }
}

/// `Σ_{t < k} 2^t · bits[t]`.
pub open spec fn bit_value(bits: Seq<int>, k: nat) -> int
    decreases k,
{
    if k == 0 {
        0
    } else {
        bit_value(bits, (k - 1) as nat) + crate::sums::exp2((k - 1) as nat) * bits[k - 1]
    }
}


/// The sum of a row with one entry.
proof fn lemma_row_sum_one(x: (usize, usize, Fr), v: Seq<int>, i: int)
    ensures
        row_sum(seq![x], v, i) == if x.0 == i { x.2.val() * v[x.1 as int] } else { 0 },
{
    lemma_row_sum_push(Seq::empty(), x, v, i);
    assert(Seq::<(usize, usize, Fr)>::empty().push(x) =~= seq![x]);
    assert(row_terms(Seq::<(usize, usize, Fr)>::empty(), v, i).len() == 0);
}

/// Row sums read the vector only at the columns of their entries.
proof fn lemma_row_sum_congr(e: Seq<(usize, usize, Fr)>, z1: Seq<int>, z2: Seq<int>, i: int, n: int)
    requires
        forall|k: int| 0 <= k < e.len() ==> (#[trigger] e[k]).1 < n,
        forall|k: int| 0 <= k < n ==> #[trigger] z1[k] == z2[k],
    ensures
        row_sum(e, z1, i) == row_sum(e, z2, i),
{
    assert(row_terms(e, z1, i) =~= row_terms(e, z2, i)) by {
        assert forall|k: int| 0 <= k < e.len() implies #[trigger] row_terms(e, z1, i)[k] == row_terms(e, z2, i)[k] by {
            assert(z1[e[k].1 as int] == z2[e[k].1 as int]);
        }
    }
}

/// A bit value is below `2^k`.
proof fn lemma_bit_value_bound(bits: Seq<int>, k: nat)
    requires
        k <= bits.len(),
        forall|t: int| 0 <= t < bits.len() ==> #[trigger] bits[t] == 0 || bits[t] == 1,
    ensures
        0 <= bit_value(bits, k) < exp2(k),
    decreases k,
{
    if k > 0 {
        lemma_bit_value_bound(bits, (k - 1) as nat);
        lemma_exp2_pos((k - 1) as nat);
        assert(bits[k - 1] == 0 || bits[k - 1] == 1);
    }
}

/// Layout of the witness: `z[0] = 1`, then per decomposed value its value and
/// its eight bits.
pub open spec fn witness_layout(z: Seq<int>, bits: Seq<Seq<int>>) -> bool {
    &&& z.len() >= 1 + 9 * bits.len()
    &&& z[0] == 1
    &&& forall|v: int| 0 <= v < bits.len() ==> (#[trigger] bits[v]).len() == 8
    &&& forall|v: int, b: int|
        0 <= v < bits.len() && 0 <= b < 8 ==> z[1 + 9 * v + 1 + b] == #[trigger] bits[v][b] && (bits[v][b] == 0
            || bits[v][b] == 1)
    &&& forall|v: int| 0 <= v < bits.len() ==> #[trigger] z[1 + 9 * v] == bit_value(bits[v], 8)
}

/// Values in `Z_q` of a list of bit vectors.
pub open spec fn bit_vals(all: Seq<Vec<Fr>>) -> Seq<Seq<int>> {
    Seq::new(all.len(), |v: int| lvals(all[v]@))
}

/// Eight random bits and the value they encode.
fn random_bits(one: Fr, zero: Fr, two: Fr) -> (r: (Vec<Fr>, Fr))
    requires
        one.val() == 1,
        zero.val() == 0,
        two.val() == 2,
    ensures
        r.0@.len() == 8,
        forall|t: int| 0 <= t < 8 ==> #[trigger] lvals(r.0@)[t] == 0 || lvals(r.0@)[t] == 1,
        r.1.val() == bit_value(lvals(r.0@), 8),
{
    let mut bits: Vec<Fr> = Vec::new();
    let mut value = zero;
    let mut power_of_two = one;
    let mut t: usize = 0;
    proof {
        lemma_small_mod(0, q() as nat);
    }
    while t < 8
        invariant
            t <= 8,
            one.val() == 1,
            zero.val() == 0,
            two.val() == 2,
            bits@.len() == t,
            forall|s: int| 0 <= s < t ==> #[trigger] lvals(bits@)[s] == 0 || lvals(bits@)[s] == 1,
            value.val() == bit_value(lvals(bits@), t as nat),
            power_of_two.val() == exp2(t as nat),
        decreases 8 - t,
    {
        let bit = random_bool();
        let bit_f = if bit { one } else { zero };
        let ghost old_bits = bits@;
        bits.push(bit_f);
        let p = fr_mul(&power_of_two, &bit_f);
        proof {
            assert(lvals(bits@).take(t as int) =~= lvals(old_bits));
            assert(bit_f.val() == 0 || bit_f.val() == 1);
            assert forall|s: int| 0 <= s < t + 1 implies #[trigger] lvals(bits@)[s] == 0 || lvals(bits@)[s] == 1 by {
                if s < t {
                    assert(bits@[s] == old_bits[s]);
                    assert(lvals(old_bits)[s] == 0 || lvals(old_bits)[s] == 1);
                } else {
                    assert(bits@[s] == bit_f);
                }
            }
            lemma_bit_value_bound(lvals(old_bits), t as nat);
            lemma_exp2_monotone(t as nat, 7);
            assert(exp2(7) == 128) by {
                reveal_with_fuel(exp2, 8);
            }
            assert(exp2((t + 1) as nat) == 2 * exp2(t as nat));
            let pv = exp2(t as nat) * bit_f.val();
            assert(0 <= pv <= exp2(t as nat)) by (nonlinear_arith)
                requires
                    pv == exp2(t as nat) * bit_f.val(),
                    bit_f.val() == 0 || bit_f.val() == 1,
                    exp2(t as nat) >= 1,
            ;
            lemma_small_mod(pv as nat, q() as nat);
            assert(bit_value(lvals(bits@), (t + 1) as nat) == bit_value(lvals(bits@), t as nat) + exp2(t as nat)
                * lvals(bits@)[t as int]);
            lemma_bit_value_prefix(lvals(bits@), lvals(old_bits), t as nat);
            lemma_small_mod((bit_value(lvals(old_bits), t as nat) + pv) as nat, q() as nat);
            lemma_small_mod((2 * exp2(t as nat)) as nat, q() as nat);
        }
        value = fr_add(&value, &p);
        power_of_two = fr_mul(&power_of_two, &two);
        t = t + 1;
    }
    (bits, value)
}

/// The bit value of a prefix depends on that prefix only.
proof fn lemma_bit_value_prefix(a: Seq<int>, b: Seq<int>, k: nat)
    requires
        k <= a.len(),
        k <= b.len(),
        forall|t: int| 0 <= t < k ==> #[trigger] a[t] == b[t],
    ensures
        bit_value(a, k) == bit_value(b, k),
    decreases k,
{
    if k > 0 {
        lemma_bit_value_prefix(a, b, (k - 1) as nat);
        assert(a[k - 1] == b[k - 1]);
    }
}


/// The entries so far describe satisfied constraints in rows below `ci`,
/// over columns below `n`, with at most `max` entries in all.
pub open spec fn entries_ok(
    a: Seq<(usize, usize, Fr)>,
    b: Seq<(usize, usize, Fr)>,
    c: Seq<(usize, usize, Fr)>,
    z: Seq<int>,
    ci: int,
    n: int,
    max: int,
) -> bool {
    &&& all_hold(a, b, c, z)
    &&& below(a, ci, n)
    &&& below(b, ci, n)
    &&& below(c, ci, n)
    &&& a.len() + b.len() + c.len() <= max
}

/// Adds the constraint `z[ia] · z[ib] = z[ic]` as row `ci`.
fn add_simple_row(
    a: &mut Vec<(usize, usize, Fr)>,
    b: &mut Vec<(usize, usize, Fr)>,
    c: &mut Vec<(usize, usize, Fr)>,
    ci: usize,
    ia: usize,
    ib: usize,
    ic: usize,
    one: Fr,
    Ghost(z): Ghost<Seq<int>>,
    Ghost(n): Ghost<int>,
    Ghost(max): Ghost<int>,
)
    requires
        entries_ok(old(a)@, old(b)@, old(c)@, z, ci as int, n, max),
        old(a)@.len() + old(b)@.len() + old(c)@.len() + 3 <= max,
        one.val() == 1,
        ia < n,
        ib < n,
        ic < n,
        (z[ia as int] * z[ib as int]) % q() == z[ic as int] % q(),
    ensures
        entries_ok(final(a)@, final(b)@, final(c)@, z, ci + 1, n, max),
        final(a)@.len() + final(b)@.len() + final(c)@.len() == old(a)@.len() + old(b)@.len() + old(c)@.len() + 3,
        final(a)@ == old(a)@.push((ci, ia, one)),
        final(b)@ == old(b)@.push((ci, ib, one)),
        final(c)@ == old(c)@.push((ci, ic, one)),
{
    let ghost (a0, b0, c0) = (a@, b@, c@);
    a.push((ci, ia, one));
    b.push((ci, ib, one));
    c.push((ci, ic, one));
    proof {
        let xa = seq![(ci, ia, one)];
        let xb = seq![(ci, ib, one)];
        let xc = seq![(ci, ic, one)];
        assert(a@ =~= a0 + xa);
        assert(b@ =~= b0 + xb);
        assert(c@ =~= c0 + xc);
        lemma_row_sum_one((ci, ia, one), z, ci as int);
        lemma_row_sum_one((ci, ib, one), z, ci as int);
        lemma_row_sum_one((ci, ic, one), z, ci as int);
        lemma_add_row(a0, b0, c0, xa, xb, xc, z, ci as int, n);
    }
}

/// Builds the witness `[1, v_0, bits of v_0, v_1, ...]` padded with random
/// elements to `n` entries.
fn build_witness(num_values: usize, n: usize) -> (r: (Vec<Fr>, Vec<Vec<Fr>>))
    requires
        1 + 9 * num_values <= n,
    ensures
        r.0@.len() == n,
        r.1@.len() == num_values,
        witness_layout(lvals(r.0@), bit_vals(r.1@)),
{
    let zero = fr_zero();
    let one = fr_one();
    let two = fr_add(&one, &one);
    proof {
        lemma_small_mod(2, q() as nat);
    }
    let mut witness: Vec<Fr> = Vec::new();
    witness.push(one);
    let mut all_bits: Vec<Vec<Fr>> = Vec::new();
    let mut v: usize = 0;
    while v < num_values
        invariant
            v <= num_values,
            1 + 9 * num_values <= n,
            zero.val() == 0,
            one.val() == 1,
            two.val() == 2,
            witness@.len() == 1 + 9 * v,
            all_bits@.len() == v,
            witness_layout(lvals(witness@), bit_vals(all_bits@)),
        decreases num_values - v,
    {
        let (bits, value) = random_bits(one, zero, two);
        let ghost w0 = witness@;
        let ghost ab0 = all_bits@;
        witness.push(value);
        let mut t: usize = 0;
        while t < 8
            invariant
                t <= 8,
                bits@.len() == 8,
                witness@.len() == w0.len() + 1 + t,
                witness@.take(w0.len() as int) == w0,
                witness@[w0.len() as int] == value,
                forall|s: int| 0 <= s < t ==> #[trigger] witness@[w0.len() + 1 + s] == bits@[s],
            decreases 8 - t,
        {
            witness.push(bits[t]);
            proof {
                assert(witness@.take(w0.len() as int) =~= w0);
            }
            t = t + 1;
        }
        all_bits.push(bits);
        proof {
            let z = lvals(witness@);
            let bv = bit_vals(all_bits@);
            assert(bv =~= bit_vals(ab0).push(lvals(bits@)));
            assert forall|vv: int, bb: int| 0 <= vv < bv.len() && 0 <= bb < 8 implies z[1 + 9 * vv + 1 + bb]
                == #[trigger] bv[vv][bb] && (bv[vv][bb] == 0 || bv[vv][bb] == 1) by {
                if vv < v {
                    assert(witness@[1 + 9 * vv + 1 + bb] == w0[1 + 9 * vv + 1 + bb]);
                } else {
                    assert(witness@[w0.len() + 1 + bb] == bits@[bb]);
                    assert(lvals(bits@)[bb] == 0 || lvals(bits@)[bb] == 1);
                }
            }
            assert forall|vv: int| 0 <= vv < bv.len() implies #[trigger] z[1 + 9 * vv] == bit_value(bv[vv], 8) by {
                if vv < v {
                    assert(witness@[1 + 9 * vv] == w0[1 + 9 * vv]);
                    assert(lvals(w0)[1 + 9 * vv] == bit_value(bit_vals(ab0)[vv], 8));
                    assert(bit_vals(ab0)[vv] == bv[vv]);
                } else {
                    assert(w0.len() == 1 + 9 * v);
                    assert(witness@[w0.len() as int] == value);
                    assert(z[w0.len() as int] == value.val());
                    assert(all_bits@[vv] == bits);
                    assert(bv[vv] == lvals(bits@));
                }
            }
            assert(witness@[0] == w0[0]);
        }
        v = v + 1;
    }
    let ghost w1 = witness@;
    while witness.len() < n
        invariant
            w1.len() <= witness@.len() <= n,
            witness@.take(w1.len() as int) == w1,
        decreases n - witness@.len(),
    {
        witness.push(fr_random());
        proof {
            assert(witness@.take(w1.len() as int) =~= w1);
        }
    }
    witness.truncate(n);
    proof {
        let z = lvals(witness@);
        let z1 = lvals(w1);
        assert forall|k: int| 0 <= k < w1.len() implies #[trigger] z[k] == z1[k] by {
            assert(witness@[k] == w1[k]);
        }
    }
    (witness, all_bits)
}

/// The least of three integers.
pub open spec fn min3(a: int, b: int, c: int) -> int {
    if a <= b && a <= c {
        a
    } else if b <= c {
        b
    } else {
        c
    }
}

/// How many values the generator decomposes into bits for `m` constraints
/// over `n` variables: `m / 10` (at least one), as far as `1 + 9 v <= n`
/// allows.
pub open spec fn num_bit_values(m: int, n: int) -> int {
    let lo = if m / 10 > 1 {
        m / 10
    } else {
        1
    };
    let hi = (n - 1) / 9;
    if lo < hi {
        lo
    } else {
        hi
    }
}

/// How many bit constraints `b · b = b` the generator makes: eight per value,
/// as far as the `m` rows and the budget of `max` entries (three per
/// constraint) allow.
pub open spec fn num_bit_rows(m: int, n: int, max: int) -> int {
    min3(8 * num_bit_values(m, n), m, max / 3)
}

/// How many decomposition constraints `v · 1 = Σ 2^i b_i` the generator
/// makes after the bit constraints: one per value, as far as the `m` rows
/// and the budget of `max` entries (ten per constraint) allow.
pub open spec fn num_decomp_rows(m: int, n: int, max: int) -> int {
    let nb = num_bit_rows(m, n, max);
    min3(num_bit_values(m, n), m - nb, (max - 3 * nb) / 10)
}

/// The entry of bit constraint `k` in each matrix: row `k`, the witness
/// position of bit `k % 8` of value `k / 8`, coefficient one.
pub open spec fn is_bit_entry(e: (usize, usize, Fr), k: int) -> bool {
    e.0 == k && e.1 == 2 + 9 * (k / 8) + k % 8 && e.2.val() == 1
}

/// Growing the matrices at their ends keeps their first entries.
proof fn lemma_bit_rows_grow(
    a: Seq<(usize, usize, Fr)>,
    b: Seq<(usize, usize, Fr)>,
    c: Seq<(usize, usize, Fr)>,
    a2: Seq<(usize, usize, Fr)>,
    b2: Seq<(usize, usize, Fr)>,
    c2: Seq<(usize, usize, Fr)>,
    nb: int,
)
    requires
        bit_rows_ok(a, b, c, nb),
        a.len() <= a2.len() && a2.subrange(0, a.len() as int) == a,
        b.len() <= b2.len() && b2.subrange(0, b.len() as int) == b,
        c.len() <= c2.len() && c2.subrange(0, c.len() as int) == c,
    ensures
        bit_rows_ok(a2, b2, c2, nb),
{
    assert forall|k: int| 0 <= k < nb implies is_bit_entry(#[trigger] a2[k], k) && is_bit_entry(b2[k], k) && is_bit_entry(c2[k], k) by {
        assert(a2[k] == a2.subrange(0, a.len() as int)[k]);
        assert(b2[k] == b2.subrange(0, b.len() as int)[k]);
        assert(c2[k] == c2.subrange(0, c.len() as int)[k]);
        assert(is_bit_entry(a[k], k));
    }
}

/// The first `nb` entries of each matrix are those of the bit constraints.
pub open spec fn bit_rows_ok(a: Seq<(usize, usize, Fr)>, b: Seq<(usize, usize, Fr)>, c: Seq<(usize, usize, Fr)>, nb: int) -> bool {
    &&& 0 <= nb <= a.len()
    &&& nb <= b.len()
    &&& nb <= c.len()
    &&& forall|k: int| 0 <= k < nb ==> is_bit_entry(#[trigger] a[k], k) && is_bit_entry(b[k], k) && is_bit_entry(c[k], k)
}

/// Generates an R1CS instance with up to `m` constraints over a witness of
/// `n` elements, with at most `max_nonzeros` entries in all: bit constraints
/// `b · b = b`, constraints `v · 1 = Σ 2^i b_i` decomposing values into bits,
/// and random constraints that the witness satisfies. The instance has `m`
/// constraints (those past the entry budget are empty) over `n` variables,
/// the witness starts with the constant 1, and it satisfies every
/// constraint. The bit constraints come first, as many as `num_bit_rows`
/// gives: row `k` has one entry in each matrix, at the witness position of
/// bit `k % 8` of value `k / 8`, with coefficient one. `C` has seven
/// entries more than `A` for each decomposition constraint, and when
/// `n >= 4` and three entries per row plus those seven fit the budget, every
/// row has its one entry in `B`.
pub fn generate_random_r1cs(m: usize, n: usize, max_nonzeros: usize) -> (r: R1CS)
    requires
        2 <= n <= max_nonzeros,
        max_nonzeros + 16 <= usize::MAX,
    ensures
        r.m == m,
        r.n == n,
        r.witness@.len() == n,
        r.witness@[0].val() == 1,
        r.a.rows == m && r.a.cols == n,
        r.b.rows == m && r.b.cols == n,
        r.c.rows == m && r.c.cols == n,
        r.a.entries@.len() + r.b.entries@.len() + r.c.entries@.len() <= max_nonzeros,
        entries_fit(r.a, n as nat),
        entries_fit(r.b, n as nat),
        entries_fit(r.c, n as nat),
        r.satisfied(),
        bit_rows_ok(r.a.entries@, r.b.entries@, r.c.entries@, num_bit_rows(m as int, n as int, max_nonzeros as int)),
        r.c.entries@.len() == r.a.entries@.len() + 7 * num_decomp_rows(m as int, n as int, max_nonzeros as int),
        r.a.entries@.len() <= r.b.entries@.len() <= m,
        n >= 4 ==> (r.b.entries@.len() == m || r.a.entries@.len() + r.b.entries@.len() + r.c.entries@.len() + 3
            > max_nonzeros),
        n >= 4 && 3 * m + 7 * num_decomp_rows(m as int, n as int, max_nonzeros as int) <= max_nonzeros ==> r.b.entries@.len()
            == m,
{
    let one = fr_one();
    let zero = fr_zero();
    let two = fr_add(&one, &one);
    proof {
        lemma_small_mod(2, q() as nat);
    }
    let bits_per_value: usize = 8;
    let lo = if m / 10 > 1 { m / 10 } else { 1 };
    let hi = (n - 1) / (bits_per_value + 1);
    let num_values = if lo < hi { lo } else { hi };
    assert(num_values == num_bit_values(m as int, n as int));
    let ghost tmax: int = max_nonzeros as int / 3;
    let (mut witness, all_bits) = build_witness(num_values, n);
    let ghost z = lvals(witness@);
    let ghost bv = bit_vals(all_bits@);
    let mut a_entries: Vec<(usize, usize, Fr)> = Vec::new();
    let mut b_entries: Vec<(usize, usize, Fr)> = Vec::new();
    let mut c_entries: Vec<(usize, usize, Fr)> = Vec::new();
    let mut constraint_idx: usize = 0;
    proof {
        assert forall|i: int| #[trigger] constraint_holds(a_entries@, b_entries@, c_entries@, z, i) by {
            lemma_row_sum_empty_row(a_entries@, z, i);
            lemma_row_sum_empty_row(b_entries@, z, i);
            lemma_row_sum_empty_row(c_entries@, z, i);
        }
    }
    // bit constraints b · b = b
    let mut vi: usize = 0;
    while vi < all_bits.len()
        invariant
            vi <= all_bits@.len(),
            bits_per_value == 8,
            all_bits@.len() == num_values,
            1 + 9 * num_values <= n,
            witness@.len() == n,
            z == lvals(witness@),
            bv == bit_vals(all_bits@),
            witness_layout(z, bv),
            one.val() == 1,
            constraint_idx <= m,
            max_nonzeros + 16 <= usize::MAX,
            entries_ok(a_entries@, b_entries@, c_entries@, z, constraint_idx as int, n as int, max_nonzeros as int),
            tmax == max_nonzeros as int / 3,
            constraint_idx == min3(8 * vi, m as int, tmax),
            a_entries@.len() == constraint_idx,
            b_entries@.len() == constraint_idx,
            c_entries@.len() == constraint_idx,
            bit_rows_ok(a_entries@, b_entries@, c_entries@, constraint_idx as int),
        decreases all_bits@.len() - vi,
    {
        let mut bi: usize = 0;
        while bi < 8
            invariant
                tmax == max_nonzeros as int / 3,
                constraint_idx == min3(8 * vi + bi, m as int, tmax),
                a_entries@.len() == constraint_idx,
                b_entries@.len() == constraint_idx,
                c_entries@.len() == constraint_idx,
                bit_rows_ok(a_entries@, b_entries@, c_entries@, constraint_idx as int),
                bi <= 8,
                vi < num_values,
                bits_per_value == 8,
                all_bits@.len() == num_values,
                1 + 9 * num_values <= n,
                witness@.len() == n,
                z == lvals(witness@),
                bv == bit_vals(all_bits@),
                witness_layout(z, bv),
                one.val() == 1,
                constraint_idx <= m,
                max_nonzeros + 16 <= usize::MAX,
                entries_ok(a_entries@, b_entries@, c_entries@, z, constraint_idx as int, n as int, max_nonzeros as int),
            ensures
                constraint_idx == min3(8 * vi + 8, m as int, tmax),
            decreases 8 - bi,
        {
            if constraint_idx >= m || a_entries.len() + b_entries.len() + c_entries.len() + 3 > max_nonzeros {
                break;
            }
            proof {
                assert(constraint_idx == 8 * vi + bi);
                vstd::arithmetic::div_mod::lemma_fundamental_div_mod_converse(constraint_idx as int, 8, vi as int, bi as int);
            }
            let ghost (ea, eb, ec) = (a_entries@, b_entries@, c_entries@);
            proof {
                assert(vi * 9 + 9 <= 9 * num_values) by (nonlinear_arith)
                    requires
                        vi < num_values,
                ;
            }
            let witness_idx = 1 + vi * (bits_per_value + 1) + 1 + bi;
            proof {
                let w = z[witness_idx as int];
                assert(w == bv[vi as int][bi as int]);
                assert(w == 0 || w == 1);
                assert(w * w == w) by (nonlinear_arith)
                    requires
                        w == 0 || w == 1,
                ;
            }
            add_simple_row(
                &mut a_entries,
                &mut b_entries,
                &mut c_entries,
                constraint_idx,
                witness_idx,
                witness_idx,
                witness_idx,
                one,
                Ghost(z),
                Ghost(n as int),
                Ghost(max_nonzeros as int),
            );
            proof {
                assert(is_bit_entry(a_entries@[constraint_idx as int], constraint_idx as int));
                assert(is_bit_entry(b_entries@[constraint_idx as int], constraint_idx as int));
                assert(is_bit_entry(c_entries@[constraint_idx as int], constraint_idx as int));
                assert forall|k: int| 0 <= k < constraint_idx + 1 implies is_bit_entry(#[trigger] a_entries@[k], k)
                    && is_bit_entry(b_entries@[k], k) && is_bit_entry(c_entries@[k], k) by {
                    if k < constraint_idx {
                        assert(a_entries@[k] == ea[k]);
                        assert(b_entries@[k] == eb[k]);
                        assert(c_entries@[k] == ec[k]);
                    }
                }
            }
            constraint_idx = constraint_idx + 1;
            bi = bi + 1;
        }
        vi = vi + 1;
    }
    let ghost nb = constraint_idx as int;
    proof {
        assert(nb == num_bit_rows(m as int, n as int, max_nonzeros as int));
    }
    // decomposition constraints v · 1 = Σ 2^i b_i
    let mut vi: usize = 0;
    while vi < all_bits.len()
        invariant
            vi <= all_bits@.len(),
            all_bits@.len() == num_values,
            1 + 9 * num_values <= n,
            witness@.len() == n,
            z == lvals(witness@),
            bv == bit_vals(all_bits@),
            witness_layout(z, bv),
            one.val() == 1,
            two.val() == 2,
            bits_per_value == 8,
            constraint_idx <= m,
            max_nonzeros + 16 <= usize::MAX,
            entries_ok(a_entries@, b_entries@, c_entries@, z, constraint_idx as int, n as int, max_nonzeros as int),
            bit_rows_ok(a_entries@, b_entries@, c_entries@, nb),
            nb == num_bit_rows(m as int, n as int, max_nonzeros as int),
            num_values == num_bit_values(m as int, n as int),
            constraint_idx == nb + vi,
            vi <= num_decomp_rows(m as int, n as int, max_nonzeros as int),
            a_entries@.len() == constraint_idx,
            b_entries@.len() == constraint_idx,
            c_entries@.len() == constraint_idx + 7 * vi,
        ensures
            vi == num_decomp_rows(m as int, n as int, max_nonzeros as int),
        decreases all_bits@.len() - vi,
    {
        if constraint_idx >= m || a_entries.len() + b_entries.len() + c_entries.len() + 2 + 8 > max_nonzeros {
            break;
        }
        proof {
            assert(vi * 9 + 9 <= 9 * num_values) by (nonlinear_arith)
                requires
                    vi < num_values,
            ;
        }
        let value_witness_idx = 1 + vi * (bits_per_value + 1);
        let ghost (a0, b0, c0) = (a_entries@, b_entries@, c_entries@);
        a_entries.push((constraint_idx, value_witness_idx, one));
        b_entries.push((constraint_idx, 0, one));
        let mut power_of_two = one;
        let mut bi: usize = 0;
        proof {
            lemma_small_mod(1, q() as nat);
            assert(c_entries@ =~= c0 + Seq::<(usize, usize, Fr)>::empty());
            assert(row_terms(Seq::<(usize, usize, Fr)>::empty(), z, constraint_idx as int).len() == 0);
        }
        while bi < 8
            invariant
                bit_rows_ok(a_entries@, b_entries@, c_entries@, nb),
                bi <= 8,
                vi < num_values,
                value_witness_idx == 1 + vi * 9,
                value_witness_idx + 9 <= n,
                all_bits@.len() == num_values,
                z == lvals(witness@),
                bv == bit_vals(all_bits@),
                witness_layout(z, bv),
                two.val() == 2,
                power_of_two.val() == exp2(bi as nat),
                c_entries@.len() == c0.len() + bi,
                c_entries@.take(c0.len() as int) == c0,
                forall|k: int|
                    0 <= k < bi ==> #[trigger] c_entries@.skip(c0.len() as int)[k].0 == constraint_idx
                        && c_entries@.skip(c0.len() as int)[k].1 < n,
                row_sum(c_entries@.skip(c0.len() as int), z, constraint_idx as int) == bit_value(
                    bv[vi as int],
                    bi as nat,
                ),
            decreases 8 - bi,
        {
            let bit_witness_idx = value_witness_idx + 1 + bi;
            let ghost cbefore = c_entries@;
            c_entries.push((constraint_idx, bit_witness_idx, power_of_two));
            proof {
                let xs = cbefore.skip(c0.len() as int);
                assert(c_entries@.skip(c0.len() as int) =~= xs.push((constraint_idx, bit_witness_idx, power_of_two)));
                assert(c_entries@.take(c0.len() as int) =~= c0);
                lemma_row_sum_push(xs, (constraint_idx, bit_witness_idx, power_of_two), z, constraint_idx as int);
                assert(z[bit_witness_idx as int] == bv[vi as int][bi as int]);
                lemma_exp2_monotone(bi as nat, 7);
                assert(exp2(7) == 128) by {
                    reveal_with_fuel(exp2, 8);
                }
                assert(exp2((bi + 1) as nat) == 2 * exp2(bi as nat));
                lemma_small_mod((2 * exp2(bi as nat)) as nat, q() as nat);
            }
            power_of_two = fr_mul(&power_of_two, &two);
            bi = bi + 1;
        }
        proof {
            let xa = seq![(constraint_idx, value_witness_idx, one)];
            let xb = seq![(constraint_idx, 0usize, one)];
            let xc = c_entries@.skip(c0.len() as int);
            assert(xc.len() == bi);
            assert forall|k: int| 0 <= k < xc.len() implies (#[trigger] xc[k]).0 == constraint_idx && xc[k].1 < n by {
                assert(k < bi);
            }
            assert(a_entries@ =~= a0 + xa);
            assert(b_entries@ =~= b0 + xb);
            assert(c_entries@ =~= c0 + xc);
            lemma_row_sum_one((constraint_idx, value_witness_idx, one), z, constraint_idx as int);
            lemma_row_sum_one((constraint_idx, 0usize, one), z, constraint_idx as int);
            let val = z[value_witness_idx as int];
            assert(val == bit_value(bv[vi as int], 8));
            assert(z[0] == 1);
            assert((val * 1) % q() == val % q());
            lemma_add_row(a0, b0, c0, xa, xb, xc, z, constraint_idx as int, n as int);
        }
        constraint_idx = constraint_idx + 1;
        vi = vi + 1;
    }
    // random constraints
    let ghost w0 = witness@;
    while constraint_idx < m
        invariant
            constraint_idx <= m,
            2 <= n,
            witness@ == w0,
            w0.len() == n,
            z == lvals(w0),
            z[0] == 1,
            one.val() == 1,
            max_nonzeros + 16 <= usize::MAX,
            entries_ok(a_entries@, b_entries@, c_entries@, z, constraint_idx as int, n as int, max_nonzeros as int),
            bit_rows_ok(a_entries@, b_entries@, c_entries@, nb),
            c_entries@.len() == a_entries@.len() + 7 * num_decomp_rows(m as int, n as int, max_nonzeros as int),
            a_entries@.len() <= b_entries@.len() <= constraint_idx,
            n >= 4 ==> b_entries@.len() == constraint_idx,
        ensures
            constraint_idx == m || a_entries@.len() + b_entries@.len() + c_entries@.len() + 3 > max_nonzeros,
        decreases m - constraint_idx,
    {
        if a_entries.len() + b_entries.len() + c_entries.len() + 3 > max_nonzeros {
            break;
        }
        let ghost (sa, sb, sc) = (a_entries@, b_entries@, c_entries@);
        let constraint_type = random_below(0, 3);
        if constraint_type == 0 {
            let idx = random_below(1, n);
            proof {
                assert((z[idx as int] * z[0]) % q() == z[idx as int] % q());
            }
            add_simple_row(
                &mut a_entries,
                &mut b_entries,
                &mut c_entries,
                constraint_idx,
                idx,
                0,
                idx,
                one,
                Ghost(z),
                Ghost(n as int),
                Ghost(max_nonzeros as int),
            );
        } else if constraint_type == 1 {
            if n >= 4 {
                let i = random_below(1, n);
                let j = random_below(1, n);
                let product = fr_mul(&witness[i], &witness[j]);
                let mut pos: Option<usize> = None;
                let mut p: usize = 0;
                while p < witness.len()
                    invariant
                        p <= witness@.len(),
                        witness@ == w0,
                        bit_rows_ok(a_entries@, b_entries@, c_entries@, nb),
                        pos matches Some(x) ==> x < witness@.len(),
                    decreases witness@.len() - p,
                {
                    if fr_eq(&witness[p], &product) {
                        pos = Some(p);
                        break;
                    }
                    p = p + 1;
                }
                let k = match pos {
                    Some(x) => x,
                    None => {
                        if witness.len() < n {
                            let x = witness.len();
                            witness.push(product);
                            x
                        } else {
                            random_below(1, n)
                        }
                    },
                };
                let lhs = fr_mul(&witness[i], &witness[j]);
                if fr_eq(&lhs, &witness[k]) {
                    proof {
                        lemma_mul_mod_noop(z[i as int], z[j as int], q());
                        witness@[k as int].lemma_val_range();
                        lemma_small_mod(z[k as int] as nat, q() as nat);
                        witness@[i as int].lemma_val_range();
                        witness@[j as int].lemma_val_range();
                        lemma_small_mod(z[i as int] as nat, q() as nat);
                        lemma_small_mod(z[j as int] as nat, q() as nat);
                    }
                    add_simple_row(
                        &mut a_entries,
                        &mut b_entries,
                        &mut c_entries,
                        constraint_idx,
                        i,
                        j,
                        k,
                        one,
                        Ghost(z),
                        Ghost(n as int),
                        Ghost(max_nonzeros as int),
                    );
                } else {
                    proof {
                        assert((z[i as int] * z[0]) % q() == z[i as int] % q());
                    }
                    add_simple_row(
                        &mut a_entries,
                        &mut b_entries,
                        &mut c_entries,
                        constraint_idx,
                        i,
                        0,
                        i,
                        one,
                        Ghost(z),
                        Ghost(n as int),
                        Ghost(max_nonzeros as int),
                    );
                }
            } else {
                proof {
                    assert forall|k: int| 0 <= k < a_entries@.len() implies (#[trigger] a_entries@[k]).0 < constraint_idx + 1
                        && a_entries@[k].1 < n by {}
                    assert forall|k: int| 0 <= k < b_entries@.len() implies (#[trigger] b_entries@[k]).0 < constraint_idx + 1
                        && b_entries@[k].1 < n by {}
                    assert forall|k: int| 0 <= k < c_entries@.len() implies (#[trigger] c_entries@[k]).0 < constraint_idx + 1
                        && c_entries@[k].1 < n by {}
                }
            }
        } else {
            let ghost (a0, b0, c0) = (a_entries@, b_entries@, c_entries@);
            b_entries.push((constraint_idx, 0, one));
            proof {
                let xb = seq![(constraint_idx, 0usize, one)];
                assert(b_entries@ =~= b0 + xb);
                assert(a_entries@ =~= a0 + Seq::<(usize, usize, Fr)>::empty());
                assert(c_entries@ =~= c0 + Seq::<(usize, usize, Fr)>::empty());
                assert(row_terms(Seq::<(usize, usize, Fr)>::empty(), z, constraint_idx as int).len() == 0);
                lemma_row_sum_one((constraint_idx, 0usize, one), z, constraint_idx as int);
                lemma_small_mod(0, q() as nat);
                lemma_add_row(
                    a0,
                    b0,
                    c0,
                    Seq::<(usize, usize, Fr)>::empty(),
                    xb,
                    Seq::<(usize, usize, Fr)>::empty(),
                    z,
                    constraint_idx as int,
                    n as int,
                );
            }
        }
        proof {
            assert(a_entries@.subrange(0, sa.len() as int) =~= sa);
            assert(b_entries@.subrange(0, sb.len() as int) =~= sb);
            assert(c_entries@.subrange(0, sc.len() as int) =~= sc);
            lemma_bit_rows_grow(sa, sb, sc, a_entries@, b_entries@, c_entries@, nb);
        }
        constraint_idx = constraint_idx + 1;
    }
    proof {
        if n >= 4 && 3 * m + 7 * num_decomp_rows(m as int, n as int, max_nonzeros as int) <= max_nonzeros {
            assert(a_entries@.len() + b_entries@.len() + c_entries@.len() <= 3 * constraint_idx + 7 * num_decomp_rows(
                m as int,
                n as int,
                max_nonzeros as int,
            ));
            assert(constraint_idx == m);
        }
    }
    let a = SparseMatrix { rows: m, cols: n, entries: a_entries };
    let b = SparseMatrix { rows: m, cols: n, entries: b_entries };
    let c = SparseMatrix { rows: m, cols: n, entries: c_entries };
    let r = R1CS { m, n, a, b, c, witness };
    proof {
        assert forall|i: int| 0 <= i < r.m implies #[trigger] constraint_holds(
            r.a.entries@,
            r.b.entries@,
            r.c.entries@,
            lvals(r.witness@),
            i,
        ) by {
            assert(constraint_holds(r.a.entries@, r.b.entries@, r.c.entries@, z, i));
        }
    }
    r
}

} // verus!
