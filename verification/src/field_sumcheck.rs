//! The sum-check protocol over the scalar field: a prover convinces a
//! verifier that `Σ_{x ∈ {0,1}^n} G(p_1(x), ..., p_k(x))` has a claimed value,
//! one variable per round, with challenges drawn from a transcript.
use vstd::prelude::*;
use vstd::arithmetic::div_mod::{
    lemma_mul_mod_noop_left, lemma_mul_mod_noop_right, lemma_mul_mod_noop, lemma_add_mod_noop, lemma_sub_mod_noop, lemma_mod_twice,
    lemma_small_mod,
};
use crate::field::{q, le32, Fr, fr_zero, fr_one, fr_add, fr_sub, fr_mul, fr_invert, fr_eq, fr_one_minus};
use crate::traits::{Linear, lvals};
use crate::sums::{ssum, exp2, lemma_ssum_push, lemma_exp2_pos, lemma_ssum_mod};
use crate::utils::fprod;
use crate::mle::{fold_lo, seq_mod};
use crate::multilinear::MultilinearPoly;
use crate::transcript::{TitanTranscript, TranscriptEntry, merlin_challenge, challenge_scalar, transcript_append_scalar, get_challenge};

verus! {

/// A function of `k` field elements, summed over the boolean cube by the
/// sum-check protocol.
pub trait CombineFn {
    /// Whether the function takes `n` inputs.
    spec fn accepts(&self, n: nat) -> bool;

    /// The function on values in `Z_q`.
    spec fn spec_combine(&self, vals: Seq<int>) -> int;

    fn combine(&self, vals: &[Fr]) -> (r: Fr)
        requires
            self.accepts(vals@.len() as nat),
        ensures
            r.val() == self.spec_combine(lvals(vals@)) % q(),
    ;
}

/// `G(a) = a_0`.
pub struct IdentityCombine;

impl CombineFn for IdentityCombine {
    open spec fn accepts(&self, n: nat) -> bool {
        n >= 1
    }

    open spec fn spec_combine(&self, vals: Seq<int>) -> int {
        vals[0]
    }

    fn combine(&self, vals: &[Fr]) -> (r: Fr) {
        proof {
            vals@[0].lemma_val_range();
            lemma_small_mod(vals@[0].val() as nat, q() as nat);
        }
        vals[0]
    }
}

/// `G(a) = a_0 · a_1`.
pub struct ProductCombine;

impl CombineFn for ProductCombine {
    open spec fn accepts(&self, n: nat) -> bool {
        n >= 2
    }

    open spec fn spec_combine(&self, vals: Seq<int>) -> int {
        vals[0] * vals[1]
    }

    fn combine(&self, vals: &[Fr]) -> (r: Fr) {
        fr_mul(&vals[0], &vals[1])
    }
}

/// The round messages of a sum-check proof: in round `j`, the values
/// `g_j(0), g_j(1), ..., g_j(degree)`.
pub struct SumCheckProof {
    pub round_evals: Vec<Vec<Fr>>,
}

/// Round messages as values in `Z_q`.
pub open spec fn rounds_of(v: Seq<Vec<Fr>>) -> Seq<Seq<int>> {
    Seq::new(v.len(), |j: int| lvals(v[j]@))
}

impl SumCheckProof {
    /// The round messages as values in `Z_q`.
    pub open spec fn rounds(&self) -> Seq<Seq<int>> {
        rounds_of(self.round_evals@)
    }

    /// The number of field elements in the proof.
    pub open spec fn total_size(&self) -> int {
        ssum(Seq::new(self.round_evals@.len(), |i: int| self.round_evals@[i]@.len() as int))
    }

    /// A proof has no fewer than zero elements.
    pub proof fn lemma_total_size_nonneg(&self)
        ensures
            self.total_size() >= 0,
    {
        lemma_ssum_nonneg(Seq::new(self.round_evals@.len(), |i: int| self.round_evals@[i]@.len() as int));
    }

    /// The number of field elements in the proof.
    pub fn get_proof_size(&self) -> (r: usize)
        requires
            self.total_size() <= usize::MAX,
        ensures
            r == self.total_size(),
    {
        let ghost lens = Seq::new(self.round_evals@.len(), |i: int| self.round_evals@[i]@.len() as int);
        let mut total: usize = 0;
        let mut j: usize = 0;
        proof {
            assert(lens.take(0).len() == 0);
        }
        while j < self.round_evals.len()
            invariant
                j <= self.round_evals@.len(),
                lens == Seq::new(self.round_evals@.len(), |i: int| self.round_evals@[i]@.len() as int),
                total == ssum(lens.take(j as int)),
                ssum(lens) <= usize::MAX,
            decreases self.round_evals@.len() - j,
        {
            proof {
                lemma_ssum_push(lens, j as int);
                lemma_ssum_prefix_le(lens, j + 1);
            }
            total = total + self.round_evals[j].len();
            j = j + 1;
        }
        proof {
            assert(lens.take(self.round_evals@.len() as int) =~= lens);
        }
        total
    }
}

/// A prefix of a sequence of natural numbers sums to no more than the whole.
proof fn lemma_ssum_prefix_le(s: Seq<int>, j: int)
    requires
        0 <= j <= s.len(),
        forall|i: int| 0 <= i < s.len() ==> #[trigger] s[i] >= 0,
    ensures
        0 <= ssum(s.take(j)) <= ssum(s),
    decreases s.len() - j,
{
    if j < s.len() {
        lemma_ssum_prefix_le(s, j + 1);
        lemma_ssum_push(s, j);
    } else {
        assert(s.take(j) =~= s);
    }
    lemma_ssum_nonneg(s.take(j));
}

proof fn lemma_ssum_nonneg(s: Seq<int>)
    requires
        forall|i: int| 0 <= i < s.len() ==> #[trigger] s[i] >= 0,
    ensures
        ssum(s) >= 0,
    decreases s.len(),
{
    if s.len() > 0 {
        lemma_ssum_nonneg(s.drop_last());
    }
}

/// What the verifier is left to check against the polynomials: their
/// combination at `point` should be `expected_evaluation`.
#[derive(Debug)]
pub struct SubClaim {
    pub point: Vec<Fr>,
    pub expected_evaluation: Fr,
}

/// `Π_{j ≠ i, j < d} (r - j)`, the numerator of the `i`-th Lagrange basis
/// polynomial over the points `0, 1, ..., d - 1`.
pub open spec fn lag_num(d: nat, i: int, r: int) -> int {
    fprod(lag_num_factors(d, i, r))
}

/// The factors `r - j`, `j ≠ i`, with `1` in place `i`.
pub open spec fn lag_num_factors(d: nat, i: int, r: int) -> Seq<int> {
    Seq::new(d, |j: int| if j == i { 1 } else { r - j })
}

/// The factors `i - j`, `j ≠ i`, with `1` in place `i`.
pub open spec fn lag_den_factors(d: nat, i: int) -> Seq<int> {
    Seq::new(d, |j: int| if j == i { 1 } else { i - j })
}

/// `Π_{j ≠ i, j < d} (i - j)`, its denominator.
pub open spec fn lag_den(d: nat, i: int) -> int {
    fprod(lag_den_factors(d, i))
}

/// Whether `y` in `[0, q)` is an inverse of `x` modulo `q`.
pub open spec fn is_inverse(x: int, y: int) -> bool {
    0 <= y < q() && (x * y) % q() == 1
}

/// The inverse modulo `q` of `x`, where there is one.
pub open spec fn inverse_of(x: int) -> int {
    choose|y: int| #[trigger] is_inverse(x, y)
}

/// The inverse modulo `q` is unique.
pub proof fn lemma_inverse_unique(x: int, y: int)
    requires
        0 <= y < q(),
        (x * y) % q() == 1,
    ensures
        inverse_of(x) == y,
{
    assert(is_inverse(x, y));
    let z = inverse_of(x);
    assert(is_inverse(x, z));
    // z = z (x y) = (z x) y = y  (mod q)
    assert(z * (x * y) == (x * z) * y) by (nonlinear_arith);
    lemma_mul_mod_noop_right(z, x * y, q());
    lemma_mul_mod_noop_left(x * z, y, q());
    lemma_small_mod(z as nat, q() as nat);
    lemma_small_mod(y as nat, q() as nat);
    assert(z * 1 == z);
    assert(1 * y == y);
}

/// The value at `r` of the polynomial of degree below `e.len()` that takes the
/// values `e` at `0, 1, ..., e.len() - 1`, in Lagrange form modulo `q`.
pub open spec fn lagrange_eval(e: Seq<int>, r: int) -> int {
    ssum(Seq::new(e.len(), |i: int| e[i] * lag_num(e.len(), i, r) * inverse_of(lag_den(e.len(), i))))
}

/// Whether every Lagrange denominator over `d` points is invertible modulo `q`.
pub open spec fn lagrange_invertible(d: nat) -> bool {
    forall|i: int| 0 <= i < d ==> #[trigger] lag_den(d, i) % q() != 0
}

/// `b^n` for a natural exponent.
pub open spec fn ipow(b: int, n: nat) -> int
    decreases n,
{
    if n == 0 {
        1
    } else {
        ipow(b, (n - 1) as nat) * b
    }
}

/// Powers of a base of one or more grow with the exponent.
proof fn lemma_ipow_grows(b: int, n: nat, k: nat)
    requires
        b >= 1,
        n <= k,
    ensures
        1 <= ipow(b, n) <= ipow(b, k),
    decreases k,
{
    if k > 0 {
        if n < k {
            lemma_ipow_grows(b, n, (k - 1) as nat);
        } else {
            lemma_ipow_grows(b, (k - 1) as nat, (k - 1) as nat);
        }
        let p = ipow(b, (k - 1) as nat);
        assert(p <= p * b) by (nonlinear_arith)
            requires
                p >= 1,
                b >= 1,
        ;
    }
}

/// A product of nonzero integers of absolute value at most `b` is nonzero,
/// of absolute value at most `b^n`.
proof fn lemma_fprod_bound(s: Seq<int>, b: int)
    requires
        b >= 1,
        forall|k: int| 0 <= k < s.len() ==> #[trigger] s[k] != 0 && -b <= s[k] <= b,
    ensures
        crate::utils::fprod(s) != 0,
        -ipow(b, s.len()) <= crate::utils::fprod(s) <= ipow(b, s.len()),
    decreases s.len(),
{
    if s.len() > 0 {
        let t = s.drop_last();
        lemma_fprod_bound(t, b);
        let p = crate::utils::fprod(t);
        let x = s.last();
        let pb = ipow(b, t.len());
        assert(crate::utils::fprod(s) == p * x);
        assert(ipow(b, s.len()) == pb * b);
        assert(x != 0 && -b <= x <= b);
        vstd::arithmetic::mul::lemma_mul_nonzero(p, x);
        if p > 0 {
            if x > 0 {
                assert(p * x <= pb * b) by (nonlinear_arith)
                    requires
                        0 < p <= pb,
                        0 < x <= b,
                ;
                assert(p * x > 0) by (nonlinear_arith)
                    requires
                        0 < p,
                        0 < x,
                ;
            } else {
                assert(-(pb * b) <= p * x) by (nonlinear_arith)
                    requires
                        0 < p <= pb,
                        -b <= x < 0,
                ;
                assert(p * x < 0) by (nonlinear_arith)
                    requires
                        0 < p,
                        x < 0,
                ;
            }
        } else {
            if x > 0 {
                assert(-(pb * b) <= p * x) by (nonlinear_arith)
                    requires
                        -pb <= p < 0,
                        0 < x <= b,
                ;
                assert(p * x < 0) by (nonlinear_arith)
                    requires
                        p < 0,
                        0 < x,
                ;
            } else {
                assert(p * x <= pb * b) by (nonlinear_arith)
                    requires
                        -pb <= p < 0,
                        -b <= x < 0,
                ;
                assert(p * x > 0) by (nonlinear_arith)
                    requires
                        p < 0,
                        x < 0,
                ;
            }
        }
    }
}

/// The Lagrange denominators over `d` points are invertible modulo `q` for
/// `d` up to `46`: each is a product of `d` nonzero integers of absolute
/// value below `d`, so it is nonzero and smaller in absolute value than
/// `45^46 < q`.
pub proof fn lemma_lagrange_invertible(d: nat)
    requires
        d <= 46,
    ensures
        lagrange_invertible(d),
{
    assert(ipow(45, 46) < q()) by {
        reveal_with_fuel(ipow, 47);
    }
    assert forall|i: int| 0 <= i < d implies #[trigger] lag_den(d, i) % q() != 0 by {
        let f = lag_den_factors(d, i);
        assert forall|k: int| 0 <= k < f.len() implies #[trigger] f[k] != 0 && -45 <= f[k] <= 45 by {}
        lemma_fprod_bound(f, 45);
        lemma_ipow_grows(45, d, 46);
        let v = lag_den(d, i);
        assert(v != 0 && -q() < v < q());
        if v > 0 {
            lemma_small_mod(v as nat, q() as nat);
        } else {
            vstd::arithmetic::div_mod::lemma_mod_add_multiples_vanish(v, q());
            lemma_small_mod((q() + v) as nat, q() as nat);
        }
    }
}


proof fn lemma_fprod_push(s: Seq<int>, i: int)
    requires
        0 <= i < s.len(),
    ensures
        fprod(s.take(i + 1)) == fprod(s.take(i)) * s[i],
{
    assert(s.take(i + 1).drop_last() =~= s.take(i));
}

/// Lagrange interpolation: the value at `r` of the polynomial of degree below
/// `evals.len()` with the values `evals` at `0, 1, ..., evals.len() - 1`.
fn interpolate_and_eval(evals: &[Fr], r: Fr) -> (res: Fr)
    requires
        lagrange_invertible(evals@.len() as nat),
    ensures
        res.val() == lagrange_eval(lvals(evals@), r.val()) % q(),
{
    let d = evals.len();
    let ghost e = lvals(evals@);
    let ghost rv = r.val();
    let mut domain: Vec<Fr> = Vec::new();
    let mut acc = fr_zero();
    let one = fr_one();
    let mut i: usize = 0;
    proof {
        assert(usize::MAX < q());
    }
    while i < d
        invariant
            i <= d,
            domain@.len() == i,
            acc.val() == i,
            one.val() == 1,
            usize::MAX < q(),
            forall|j: int| 0 <= j < i ==> #[trigger] domain@[j].val() == j,
        decreases d - i,
    {
        domain.push(acc);
        proof {
            lemma_small_mod((i + 1) as nat, q() as nat);
        }
        acc = fr_add(&acc, &one);
        i = i + 1;
    }
    let ghost terms = Seq::new(d as nat, |i: int| e[i] * lag_num(d as nat, i, rv) * inverse_of(lag_den(d as nat, i)));
    let mut result = fr_zero();
    let mut i: usize = 0;
    proof {
        assert(terms.take(0).len() == 0);
        lemma_small_mod(0, q() as nat);
    }
    while i < d
        invariant
            i <= d,
            d == evals@.len(),
            e == lvals(evals@),
            rv == r.val(),
            domain@.len() == d,
            usize::MAX < q(),
            forall|j: int| 0 <= j < d ==> #[trigger] domain@[j].val() == j,
            lagrange_invertible(d as nat),
            terms == Seq::new(d as nat, |i: int| e[i] * lag_num(d as nat, i, rv) * inverse_of(lag_den(d as nat, i))),
            result.val() == ssum(terms.take(i as int)) % q(),
        decreases d - i,
    {
        let ghost nf = lag_num_factors(d as nat, i as int, rv);
        let ghost df = lag_den_factors(d as nat, i as int);
        let mut num = fr_one();
        let mut den = fr_one();
        let mut j: usize = 0;
        proof {
            assert(nf.take(0).len() == 0);
            assert(df.take(0).len() == 0);
            lemma_small_mod(1, q() as nat);
        }
        while j < d
            invariant
                j <= d,
                i < d,
                domain@.len() == d,
                forall|t: int| 0 <= t < d ==> #[trigger] domain@[t].val() == t,
                rv == r.val(),
                nf == lag_num_factors(d as nat, i as int, rv),
                df == lag_den_factors(d as nat, i as int),
                num.val() == fprod(nf.take(j as int)) % q(),
                den.val() == fprod(df.take(j as int)) % q(),
            decreases d - j,
        {
            proof {
                lemma_fprod_push(nf, j as int);
                lemma_fprod_push(df, j as int);
            }
            if j != i {
                let a = fr_sub(&r, &domain[j]);
                let b = fr_sub(&domain[i], &domain[j]);
                proof {
                    lemma_mul_mod_noop(fprod(nf.take(j as int)), rv - j, q());
                    lemma_mul_mod_noop(fprod(df.take(j as int)), i - j, q());
                    assert(nf[j as int] == rv - j);
                    assert(df[j as int] == i - j);
                }
                num = fr_mul(&num, &a);
                den = fr_mul(&den, &b);
            } else {
                proof {
                    assert(fprod(nf.take(j as int)) * 1 == fprod(nf.take(j as int)));
                    assert(fprod(df.take(j as int)) * 1 == fprod(df.take(j as int)));
                }
            }
            j = j + 1;
        }
        proof {
            assert(nf.take(d as int) =~= nf);
            assert(df.take(d as int) =~= df);
            assert(fprod(df) == lag_den(d as nat, i as int));
            assert(fprod(nf) == lag_num(d as nat, i as int, rv));
            assert(lag_den(d as nat, i as int) % q() != 0);
        }
        let inv = fr_invert(&den).unwrap();
        let t1 = fr_mul(&evals[i], &num);
        let term = fr_mul(&t1, &inv);
        proof {
            let nn = lag_num(d as nat, i as int, rv);
            let dd = lag_den(d as nat, i as int);
            let iv = inv.val();
            assert((iv * den.val()) % q() == 1);
            lemma_mul_mod_noop_right(iv, dd, q());
            assert(dd * iv == iv * dd) by (nonlinear_arith);
            inv.lemma_val_range();
            lemma_inverse_unique(dd, iv);
            lemma_mul_mod_noop_right(e[i as int], nn, q());
            lemma_mul_mod_noop_left(e[i as int] * nn, iv, q());
            assert(terms[i as int] == e[i as int] * nn * iv);
            lemma_ssum_push(terms, i as int);
            lemma_add_mod_noop(ssum(terms.take(i as int)), terms[i as int], q());
            lemma_mod_twice(ssum(terms.take(i as int)), q());
            lemma_mod_twice(terms[i as int], q());
        }
        result = fr_add(&result, &term);
        i = i + 1;
    }
    proof {
        assert(terms.take(d as int) =~= terms);
    }
    result
}


/// The transcript `log` with one labelled message per value appended.
pub open spec fn msgs(log: Seq<TranscriptEntry>, label: Seq<char>, vals: Seq<int>) -> Seq<TranscriptEntry> {
    log + Seq::new(vals.len(), |i: int| TranscriptEntry::Message(label, le32(vals[i])))
}

/// The sum-check transcript after the claimed sum and `j` rounds.
pub open spec fn sc_log(log0: Seq<TranscriptEntry>, claimed: int, rounds: Seq<Seq<int>>, j: nat) -> Seq<
    TranscriptEntry,
>
    decreases j,
{
    if j == 0 {
        log0.push(TranscriptEntry::Message("claimed_sum"@, le32(claimed)))
    } else {
        msgs(sc_log(log0, claimed, rounds, (j - 1) as nat), "g_eval"@, rounds[j - 1]).push(
            TranscriptEntry::Challenge("r_j"@, 64),
        )
    }
}

/// The challenge of round `j` of a sum-check.
pub open spec fn sc_challenge(log0: Seq<TranscriptEntry>, claimed: int, rounds: Seq<Seq<int>>, j: nat) -> int {
    challenge_scalar(merlin_challenge(msgs(sc_log(log0, claimed, rounds, j), "g_eval"@, rounds[j as int]), "r_j"@, 64))
}

/// The transcript after `j` rounds depends on those rounds only.
pub proof fn lemma_sc_log_prefix(log0: Seq<TranscriptEntry>, claimed: int, r1: Seq<Seq<int>>, r2: Seq<Seq<int>>, j: nat)
    requires
        j <= r1.len(),
        j <= r2.len(),
        forall|i: int| 0 <= i < j ==> #[trigger] r1[i] == r2[i],
    ensures
        sc_log(log0, claimed, r1, j) == sc_log(log0, claimed, r2, j),
    decreases j,
{
    if j > 0 {
        lemma_sc_log_prefix(log0, claimed, r1, r2, (j - 1) as nat);
        assert(r1[j - 1] == r2[j - 1]);
    }
}

/// The values of the tables at index `b`, one per table.
pub open spec fn column(tables: Seq<Seq<int>>, b: int) -> Seq<int> {
    Seq::new(tables.len(), |p: int| tables[p][b])
}

/// `Σ_{b < size} G(column b)`.
pub open spec fn cube_sum<C: CombineFn>(comb: C, tables: Seq<Seq<int>>, size: nat) -> int {
    ssum(Seq::new(size, |b: int| comb.spec_combine(column(tables, b))))
}

/// Each table with its first variable fixed to `t`, reduced modulo `q`.
pub open spec fn line_tables(tables: Seq<Seq<int>>, t: int) -> Seq<Seq<int>> {
    Seq::new(tables.len(), |p: int| seq_mod(fold_lo(tables[p], t), q()))
}

/// A table with its first variables fixed, one after another, to `rho`.
pub open spec fn fold_seq(c: Seq<int>, rho: Seq<int>) -> Seq<int>
    decreases rho.len(),
{
    if rho.len() == 0 {
        c
    } else {
        seq_mod(fold_lo(fold_seq(c, rho.drop_last()), rho.last()), q())
    }
}

/// Every table with its first variables fixed to `rho`.
pub open spec fn round_tables(tables: Seq<Seq<int>>, rho: Seq<int>) -> Seq<Seq<int>> {
    Seq::new(tables.len(), |p: int| fold_seq(tables[p], rho))
}

/// The tables of a list of polynomials.
pub open spec fn tables_of(polys: Seq<MultilinearPoly<Fr>>) -> Seq<Seq<int>> {
    Seq::new(polys.len(), |p: int| polys[p].table())
}

/// The value of polynomial `p` at `idx`, for every `p`.
fn column_at(polys: &Vec<MultilinearPoly<Fr>>, idx: usize) -> (buf: Vec<Fr>)
    requires
        forall|p: int| 0 <= p < polys@.len() ==> idx < (#[trigger] polys@[p]).coeffs@.len(),
    ensures
        lvals(buf@) == column(tables_of(polys@), idx as int),
        buf@.len() == polys@.len(),
{
    let mut buf: Vec<Fr> = Vec::new();
    let mut p: usize = 0;
    while p < polys.len()
        invariant
            p <= polys@.len(),
            forall|p: int| 0 <= p < polys@.len() ==> idx < (#[trigger] polys@[p]).coeffs@.len(),
            buf@.len() == p,
            forall|t: int| 0 <= t < p ==> #[trigger] buf@[t] == polys@[t].coeffs@[idx as int],
        decreases polys@.len() - p,
    {
        buf.push(polys[p].coeffs[idx]);
        p = p + 1;
    }
    proof {
        assert(lvals(buf@) =~= column(tables_of(polys@), idx as int));
    }
    buf
}

/// `c0 · (1 - t) + c1 · t`.
fn interp_point(c0: &Fr, c1: &Fr, omt: &Fr, t: &Fr) -> (r: Fr)
    requires
        omt.val() == (1 - t.val()) % q(),
    ensures
        r.val() == (c0.val() * (1 - t.val()) + c1.val() * t.val()) % q(),
{
    let a = fr_mul(c0, omt);
    let b = fr_mul(c1, t);
    proof {
        lemma_mul_mod_noop_right(c0.val(), 1 - t.val(), q());
        lemma_add_mod_noop(c0.val() * (1 - t.val()), c1.val() * t.val(), q());
    }
    fr_add(&a, &b)
}

/// Entry `b` of every table with its first variable fixed to `t`.
fn line_column_at(polys: &Vec<MultilinearPoly<Fr>>, b: usize, t: &Fr, omt: &Fr) -> (buf: Vec<Fr>)
    requires
        omt.val() == (1 - t.val()) % q(),
        forall|p: int| 0 <= p < polys@.len() ==> 2 * b + 1 < (#[trigger] polys@[p]).coeffs@.len(),
    ensures
        lvals(buf@) == column(line_tables(tables_of(polys@), t.val()), b as int),
        buf@.len() == polys@.len(),
{
    let mut buf: Vec<Fr> = Vec::new();
    let mut p: usize = 0;
    while p < polys.len()
        invariant
            p <= polys@.len(),
            omt.val() == (1 - t.val()) % q(),
            forall|p: int| 0 <= p < polys@.len() ==> 2 * b + 1 < (#[trigger] polys@[p]).coeffs@.len(),
            buf@.len() == p,
            forall|s: int|
                0 <= s < p ==> #[trigger] buf@[s].val() == (polys@[s].coeffs@[2 * b as int].val() * (1 - t.val())
                    + polys@[s].coeffs@[2 * b + 1].val() * t.val()) % q(),
        decreases polys@.len() - p,
    {
        let len = polys[p].coeffs.len();
        proof {
            assert(2 * b + 1 < polys@[p as int].coeffs@.len());
        }
        let v = interp_point(&polys[p].coeffs[2 * b], &polys[p].coeffs[2 * b + 1], omt, t);
        buf.push(v);
        p = p + 1;
    }
    proof {
        let tabs = tables_of(polys@);
        assert forall|s: int| 0 <= s < polys@.len() implies #[trigger] lvals(buf@)[s] == column(
            line_tables(tabs, t.val()),
            b as int,
        )[s] by {
            assert(tabs[s] == polys@[s].table());
            assert(2 * b < tabs[s].len());
            assert(fold_lo(tabs[s], t.val())[b as int] == tabs[s][2 * b as int] * (1 - t.val()) + tabs[s][2 * b + 1]
                * t.val());
        }
        assert(lvals(buf@) =~= column(line_tables(tabs, t.val()), b as int));
    }
    buf
}

/// Appends each value with the same label.
fn append_all(transcript: &mut TitanTranscript, label: &'static str, vals: &Vec<Fr>)
    ensures
        final(transcript)@ == msgs(old(transcript)@, label@, lvals(vals@)),
{
    let ghost log0 = transcript@;
    let mut i: usize = 0;
    proof {
        assert(msgs(log0, label@, lvals(vals@).take(0)) =~= log0);
    }
    while i < vals.len()
        invariant
            i <= vals@.len(),
            transcript@ == msgs(log0, label@, lvals(vals@).take(i as int)),
        decreases vals@.len() - i,
    {
        transcript_append_scalar(transcript, label, &vals[i]);
        proof {
            assert(msgs(log0, label@, lvals(vals@).take(i + 1)) =~= msgs(log0, label@, lvals(vals@).take(i as int)).push(
                TranscriptEntry::Message(label@, le32(vals@[i as int].val())),
            ));
        }
        i = i + 1;
    }
    proof {
        assert(lvals(vals@).take(vals@.len() as int) =~= lvals(vals@));
    }
}

/// The sum over the cube of `G` of the polynomials' values.
fn cube_sum_exec<C: CombineFn>(polys: &Vec<MultilinearPoly<Fr>>, combine_fn: &C, size: usize) -> (r: Fr)
    requires
        combine_fn.accepts(polys@.len() as nat),
        forall|p: int| 0 <= p < polys@.len() ==> size <= (#[trigger] polys@[p]).coeffs@.len(),
    ensures
        r.val() == cube_sum(*combine_fn, tables_of(polys@), size as nat) % q(),
{
    let ghost sq = Seq::new(size as nat, |b: int| combine_fn.spec_combine(column(tables_of(polys@), b)));
    let mut sum = fr_zero();
    let mut idx: usize = 0;
    proof {
        assert(sq.take(0).len() == 0);
        lemma_small_mod(0, q() as nat);
    }
    while idx < size
        invariant
            idx <= size,
            combine_fn.accepts(polys@.len() as nat),
            forall|p: int| 0 <= p < polys@.len() ==> size <= (#[trigger] polys@[p]).coeffs@.len(),
            sq == Seq::new(size as nat, |b: int| combine_fn.spec_combine(column(tables_of(polys@), b))),
            sum.val() == ssum(sq.take(idx as int)) % q(),
        decreases size - idx,
    {
        let buf = column_at(polys, idx);
        let c = combine_fn.combine(buf.as_slice());
        proof {
            lemma_ssum_push(sq, idx as int);
            lemma_add_mod_noop(ssum(sq.take(idx as int)), sq[idx as int], q());
            lemma_mod_twice(ssum(sq.take(idx as int)), q());
        }
        sum = fr_add(&sum, &c);
        idx = idx + 1;
    }
    proof {
        assert(sq.take(size as int) =~= sq);
    }
    sum
}

/// The sum over the first `half` entries of `G` of the tables with their
/// first variable fixed to `t`.
fn line_sum<C: CombineFn>(polys: &Vec<MultilinearPoly<Fr>>, combine_fn: &C, half: usize, t: &Fr) -> (r: Fr)
    requires
        combine_fn.accepts(polys@.len() as nat),
        forall|p: int| 0 <= p < polys@.len() ==> 2 * half <= (#[trigger] polys@[p]).coeffs@.len(),
    ensures
        r.val() == cube_sum(*combine_fn, line_tables(tables_of(polys@), t.val()), half as nat) % q(),
{
    let omt = fr_one_minus(t);
    let ghost lt = line_tables(tables_of(polys@), t.val());
    let ghost sq = Seq::new(half as nat, |b: int| combine_fn.spec_combine(column(lt, b)));
    let mut sum = fr_zero();
    let mut b: usize = 0;
    proof {
        assert(sq.take(0).len() == 0);
        lemma_small_mod(0, q() as nat);
    }
    while b < half
        invariant
            b <= half,
            combine_fn.accepts(polys@.len() as nat),
            omt.val() == (1 - t.val()) % q(),
            forall|p: int| 0 <= p < polys@.len() ==> 2 * half <= (#[trigger] polys@[p]).coeffs@.len(),
            lt == line_tables(tables_of(polys@), t.val()),
            sq == Seq::new(half as nat, |b: int| combine_fn.spec_combine(column(lt, b))),
            sum.val() == ssum(sq.take(b as int)) % q(),
        decreases half - b,
    {
        let buf = line_column_at(polys, b, t, &omt);
        let c = combine_fn.combine(buf.as_slice());
        proof {
            lemma_ssum_push(sq, b as int);
            lemma_add_mod_noop(ssum(sq.take(b as int)), sq[b as int], q());
            lemma_mod_twice(ssum(sq.take(b as int)), q());
        }
        sum = fr_add(&sum, &c);
        b = b + 1;
    }
    proof {
        assert(sq.take(half as int) =~= sq);
    }
    sum
}

/// Fixes the first variable of every polynomial to `r`.
fn fold_all(polys: &mut Vec<MultilinearPoly<Fr>>, r: Fr)
    requires
        forall|p: int| 0 <= p < old(polys)@.len() ==> (#[trigger] old(polys)@[p]).wf(),
    ensures
        final(polys)@.len() == old(polys)@.len(),
        forall|p: int|
            0 <= p < old(polys)@.len() ==> (#[trigger] final(polys)@[p]).wf() && (old(polys)@[p].num_vars == 0
                ==> final(polys)@[p] == old(polys)@[p]) && (old(polys)@[p].num_vars >= 1 ==> final(polys)@[p].num_vars
                == old(polys)@[p].num_vars - 1 && final(polys)@[p].table() == seq_mod(
                fold_lo(old(polys)@[p].table(), r.val()),
                q(),
            )),
{
    let ghost before = polys@;
    let mut p: usize = 0;
    while p < polys.len()
        invariant
            p <= polys@.len(),
            polys@.len() == before.len(),
            forall|s: int| p <= s < before.len() ==> #[trigger] polys@[s] == before[s],
            forall|s: int| 0 <= s < before.len() ==> (#[trigger] before[s]).wf(),
            forall|s: int|
                0 <= s < p ==> (#[trigger] polys@[s]).wf() && (before[s].num_vars == 0 ==> polys@[s] == before[s]) && (
                before[s].num_vars >= 1 ==> polys@[s].num_vars == before[s].num_vars - 1 && polys@[s].table()
                    == seq_mod(fold_lo(before[s].table(), r.val()), q())),
        decreases polys@.len() - p,
    {
        polys[p].fold_first(r);
        p = p + 1;
    }
}


/// One prover round: the values `g(0), ..., g(degree)` of the round
/// polynomial, appended to the transcript, the challenge drawn after them, and
/// the polynomials with their first variable fixed to it.
fn prove_round<C: CombineFn>(
    polys: &mut Vec<MultilinearPoly<Fr>>,
    combine_fn: &C,
    t_values: &Vec<Fr>,
    degree: usize,
    transcript: &mut TitanTranscript,
) -> (r: (Vec<Fr>, Fr))
    requires
        old(polys)@.len() >= 1,
        combine_fn.accepts(old(polys)@.len() as nat),
        old(polys)@[0].num_vars >= 1,
        forall|p: int|
            0 <= p < old(polys)@.len() ==> (#[trigger] old(polys)@[p]).wf() && old(polys)@[p].num_vars == old(
                polys,
            )@[0].num_vars,
        t_values@.len() == degree + 1,
        forall|t: int| 0 <= t <= degree ==> #[trigger] t_values@[t].val() == t,
        degree < usize::MAX,
    ensures
        ({
            let tabs = tables_of(old(polys)@);
            let nv = old(polys)@[0].num_vars;
            &&& r.0@.len() == degree + 1
            &&& forall|t: int|
                0 <= t <= degree ==> #[trigger] lvals(r.0@)[t] == cube_sum(
                    *combine_fn,
                    line_tables(tabs, t),
                    exp2((nv - 1) as nat),
                ) % q()
            &&& r.1.val() == challenge_scalar(
                merlin_challenge(msgs(old(transcript)@, "g_eval"@, lvals(r.0@)), "r_j"@, 64),
            )
            &&& r.1.enc() == le32(r.1.val())
            &&& final(transcript)@ == msgs(old(transcript)@, "g_eval"@, lvals(r.0@)).push(
                TranscriptEntry::Challenge("r_j"@, 64),
            )
            &&& final(polys)@.len() == old(polys)@.len()
            &&& forall|p: int|
                0 <= p < old(polys)@.len() ==> (#[trigger] final(polys)@[p]).wf() && final(polys)@[p].num_vars == nv
                    - 1 && final(polys)@[p].table() == seq_mod(fold_lo(old(polys)@[p].table(), r.1.val()), q())
        }),
{
    let ghost tabs = tables_of(polys@);
    let nv = polys[0].num_vars;
    let half = polys[0].coeffs.len() / 2;
    proof {
        lemma_exp2_pos((nv - 1) as nat);
        assert(exp2(nv as nat) == 2 * exp2((nv - 1) as nat));
        assert forall|p: int| 0 <= p < polys@.len() implies 2 * half <= (#[trigger] polys@[p]).coeffs@.len() by {
            assert(polys@[p].coeffs@.len() == exp2(nv as nat));
        }
    }
    let mut g_evals: Vec<Fr> = Vec::new();
    let mut t: usize = 0;
    while t <= degree
        invariant
            t <= degree + 1,
            degree < usize::MAX,
            t_values@.len() == degree + 1,
            forall|t: int| 0 <= t <= degree ==> #[trigger] t_values@[t].val() == t,
            combine_fn.accepts(polys@.len() as nat),
            tabs == tables_of(polys@),
            half == exp2((nv - 1) as nat),
            forall|p: int| 0 <= p < polys@.len() ==> 2 * half <= (#[trigger] polys@[p]).coeffs@.len(),
            g_evals@.len() == t,
            forall|s: int|
                0 <= s < t ==> #[trigger] lvals(g_evals@)[s] == cube_sum(*combine_fn, line_tables(tabs, s), half as nat)
                    % q(),
        decreases degree + 1 - t,
    {
        let v = line_sum(polys, combine_fn, half, &t_values[t]);
        let ghost old_g = g_evals@;
        g_evals.push(v);
        proof {
            assert(t_values@[t as int].val() == t);
            assert forall|s: int|
                0 <= s < t + 1 implies #[trigger] lvals(g_evals@)[s] == cube_sum(*combine_fn, line_tables(tabs, s), half as nat)
                % q() by {
                if s < t {
                    assert(g_evals@[s] == old_g[s]);
                    assert(lvals(old_g)[s] == cube_sum(*combine_fn, line_tables(tabs, s), half as nat) % q());
                } else {
                    assert(lvals(g_evals@)[t as int] == v.val());
                }
            }
        }
        t = t + 1;
    }
    append_all(transcript, "g_eval", &g_evals);
    let r_j = get_challenge(transcript, "r_j");
    fold_all(polys, r_j);
    (g_evals, r_j)
}

/// What the sum-check prover produces for the tables `tabs` in `n`
/// variables and the combination `comb` of degree `degree`, from the
/// transcript `log0` to `log1`: the claimed sum is the sum of `comb` over the
/// cube, round `j` holds the values at `0..=degree` of the round polynomial
/// with the variables before `j` fixed to the challenges, each challenge is
/// drawn after its round, and the challenges are held as field elements.
pub open spec fn sc_prove_post<C: CombineFn>(
    comb: C,
    tabs: Seq<Seq<int>>,
    n: nat,
    degree: nat,
    log0: Seq<TranscriptEntry>,
    proof: SumCheckProof,
    chs: Seq<Fr>,
    log1: Seq<TranscriptEntry>,
) -> bool {
    let claimed = cube_sum(comb, tabs, exp2(n)) % q();
    let rounds = proof.rounds();
    let ch = lvals(chs);
    &&& rounds.len() == n
    &&& ch.len() == n
    &&& forall|j: int| 0 <= j < n ==> #[trigger] rounds[j].len() == degree + 1
    &&& forall|j: int, t: int|
        0 <= j < n && 0 <= t <= degree ==> #[trigger] rounds[j][t] == cube_sum(
            comb,
            line_tables(round_tables(tabs, ch.take(j)), t),
            exp2((n - j - 1) as nat),
        ) % q()
    &&& forall|j: int| 0 <= j < n ==> #[trigger] ch[j] == sc_challenge(log0, claimed, rounds, j as nat)
    &&& forall|j: int| 0 <= j < n ==> (#[trigger] chs[j]).enc() == le32(chs[j].val())
    &&& log1 == sc_log(log0, claimed, rounds, n)
}

/// The sum-check prover for `Σ_{x ∈ {0,1}^n} G(p_1(x), ..., p_k(x))`, where
/// `degree` bounds the degree of `G` in each variable: appends the sum and, in
/// each round, the values `g(0), ..., g(degree)` of the round polynomial to
/// the transcript and draws the round's challenge after them. Returns the
/// proof and the challenges.
pub fn prove<C: CombineFn>(
    polys: Vec<MultilinearPoly<Fr>>,
    combine_fn: &C,
    degree: usize,
    transcript: &mut TitanTranscript,
) -> (r: (SumCheckProof, Vec<Fr>))
    requires
        polys@.len() >= 1,
        combine_fn.accepts(polys@.len() as nat),
        forall|p: int|
            0 <= p < polys@.len() ==> (#[trigger] polys@[p]).wf() && polys@[p].num_vars == polys@[0].num_vars,
        degree < usize::MAX,
    ensures
        sc_prove_post(
            *combine_fn,
            tables_of(polys@),
            polys@[0].num_vars as nat,
            degree as nat,
            old(transcript)@,
            r.0,
            r.1@,
            final(transcript)@,
        ),
{
    let ghost tabs = tables_of(polys@);
    let ghost log0 = transcript@;
    let mut polys = polys;
    let num_vars = polys[0].num_vars;
    let k = polys.len();
    let n = polys[0].coeffs.len();
    let ghost claimed = cube_sum(*combine_fn, tabs, exp2(num_vars as nat)) % q();
    proof {
        assert forall|p: int| 0 <= p < polys@.len() implies n <= (#[trigger] polys@[p]).coeffs@.len() by {
            assert(polys@[p].coeffs@.len() == exp2(num_vars as nat));
        }
    }
    let claimed_sum = cube_sum_exec(&polys, combine_fn, n);
    transcript_append_scalar(transcript, "claimed_sum", &claimed_sum);
    let mut t_values: Vec<Fr> = Vec::new();
    let mut acc = fr_zero();
    let one = fr_one();
    let mut t: usize = 0;
    proof {
        assert(usize::MAX < q());
    }
    while t <= degree
        invariant
            t <= degree + 1,
            degree < usize::MAX,
            t_values@.len() == t,
            acc.val() == t,
            one.val() == 1,
            usize::MAX < q(),
            forall|s: int| 0 <= s < t ==> #[trigger] t_values@[s].val() == s,
        decreases degree + 1 - t,
    {
        t_values.push(acc);
        proof {
            lemma_small_mod((t + 1) as nat, q() as nat);
        }
        acc = fr_add(&acc, &one);
        t = t + 1;
    }
    let mut round_evals: Vec<Vec<Fr>> = Vec::new();
    let mut challenges: Vec<Fr> = Vec::new();
    let mut round: usize = 0;
    proof {
        assert(lvals(challenges@) =~= Seq::<int>::empty());
        assert forall|p: int| 0 <= p < k implies #[trigger] polys@[p].table() == fold_seq(tabs[p], lvals(challenges@)) by {
        }
        assert(transcript@ == sc_log(log0, claimed, rounds_of(round_evals@), 0));
    }
    while round < num_vars
        invariant
            round <= num_vars,
            k == polys@.len(),
            k == tabs.len(),
            k >= 1,
            combine_fn.accepts(k as nat),
            degree < usize::MAX,
            claimed == cube_sum(*combine_fn, tabs, exp2(num_vars as nat)) % q(),
            t_values@.len() == degree + 1,
            forall|t: int| 0 <= t <= degree ==> #[trigger] t_values@[t].val() == t,
            forall|p: int|
                0 <= p < k ==> (#[trigger] polys@[p]).wf() && polys@[p].num_vars == num_vars - round && polys@[p].table()
                    == fold_seq(tabs[p], lvals(challenges@)),
            challenges@.len() == round,
            round_evals@.len() == round,
            forall|j: int| 0 <= j < round ==> #[trigger] round_evals@[j]@.len() == degree + 1,
            forall|j: int, t: int|
                0 <= j < round && 0 <= t <= degree ==> #[trigger] rounds_of(round_evals@)[j][t] == cube_sum(
                    *combine_fn,
                    line_tables(round_tables(tabs, lvals(challenges@).take(j)), t),
                    exp2((num_vars - j - 1) as nat),
                ) % q(),
            forall|j: int|
                0 <= j < round ==> #[trigger] lvals(challenges@)[j] == sc_challenge(
                    log0,
                    claimed,
                    rounds_of(round_evals@),
                    j as nat,
                ),
            transcript@ == sc_log(log0, claimed, rounds_of(round_evals@), round as nat),
            forall|j: int| 0 <= j < round ==> (#[trigger] challenges@[j]).enc() == le32(challenges@[j].val()),
        decreases num_vars - round,
    {
        let ghost ch_old = lvals(challenges@);
        let ghost r_old = rounds_of(round_evals@);
        let ghost l_old = transcript@;
        proof {
            assert(tables_of(polys@) =~= round_tables(tabs, ch_old));
        }
        let (g_evals, r_j) = prove_round(&mut polys, combine_fn, &t_values, degree, transcript);
        challenges.push(r_j);
        round_evals.push(g_evals);
        proof {
            let ch_new = lvals(challenges@);
            let r_new = rounds_of(round_evals@);
            let g = lvals(g_evals@);
            assert(ch_new =~= ch_old.push(r_j.val()));
            assert(r_new =~= r_old.push(g));
            assert(ch_new.drop_last() =~= ch_old);
            assert(ch_new.take(round as int) =~= ch_old);
            lemma_sc_log_prefix(log0, claimed, r_old, r_new, round as nat);
            assert(sc_log(log0, claimed, r_new, (round + 1) as nat) == msgs(
                sc_log(log0, claimed, r_new, round as nat),
                "g_eval"@,
                r_new[round as int],
            ).push(TranscriptEntry::Challenge("r_j"@, 64)));
            assert forall|j: int| 0 <= j <= round implies #[trigger] ch_new[j] == sc_challenge(log0, claimed, r_new, j as nat) by {
                if j < round {
                    lemma_sc_log_prefix(log0, claimed, r_old, r_new, j as nat);
                    assert(r_new[j] == r_old[j]);
                    assert(ch_new[j] == ch_old[j]);
                }
            }
            assert forall|j: int, t: int|
                0 <= j <= round && 0 <= t <= degree implies #[trigger] r_new[j][t] == cube_sum(
                *combine_fn,
                line_tables(round_tables(tabs, ch_new.take(j)), t),
                exp2((num_vars - j - 1) as nat),
            ) % q() by {
                if j < round {
                    assert(ch_new.take(j) =~= ch_old.take(j));
                    assert(r_new[j] == r_old[j]);
                } else {
                    assert(r_new[j] == g);
                }
            }
            assert forall|j: int| 0 <= j <= round implies #[trigger] round_evals@[j]@.len() == degree + 1 by {
            }
            assert forall|p: int| 0 <= p < k implies #[trigger] polys@[p].table() == fold_seq(tabs[p], ch_new) by {
                assert(ch_new.last() == r_j.val());
            }
        }
        round = round + 1;
    }
    (SumCheckProof { round_evals }, challenges)
}


/// The claim the verifier holds at the start of round `j`: the claimed sum,
/// then the previous round polynomial at the previous challenge.
pub open spec fn sc_prev_claim(log0: Seq<TranscriptEntry>, claimed: int, rounds: Seq<Seq<int>>, j: nat) -> int {
    if j == 0 {
        claimed
    } else {
        lagrange_eval(rounds[j - 1], sc_challenge(log0, claimed, rounds, (j - 1) as nat)) % q()
    }
}

/// What the sum-check verifier returns for round messages `rounds`, the
/// claimed sum `c`, `n` variables and degree `degree`, from the transcript
/// `log0` to `log1`: it accepts exactly when there are `n` rounds and none
/// fails its checks; otherwise it names the first failure; on acceptance it
/// returns the challenges and the last round polynomial at the last
/// challenge.
pub open spec fn sc_verify_post(
    rounds: Seq<Seq<int>>,
    c: int,
    n: nat,
    degree: nat,
    log0: Seq<TranscriptEntry>,
    r: Result<SubClaim, &'static str>,
    log1: Seq<TranscriptEntry>,
) -> bool {
    &&& r is Ok <==> (rounds.len() == n && forall|j: int| 0 <= j < n ==> !#[trigger] sc_round_fails(log0, c, rounds, degree, j))
    &&& rounds.len() != n ==> (r == Err::<SubClaim, &'static str>("wrong number of rounds in proof") && log1 == log0)
    &&& forall|j: int|
        #![trigger sc_round_fails(log0, c, rounds, degree, j)]
        rounds.len() == n && 0 <= j < n && sc_round_fails(log0, c, rounds, degree, j) && (forall|i: int|
            0 <= i < j ==> !#[trigger] sc_round_fails(log0, c, rounds, degree, i)) ==> log1 == sc_log(log0, c, rounds, j as nat)
            && (if rounds[j].len() != degree + 1 {
            r == Err::<SubClaim, &'static str>("wrong number of evaluations in round")
        } else {
            r == Err::<SubClaim, &'static str>("round check failed: g(0) + g(1) != prev_claim")
        })
    &&& r matches Ok(sc) ==> lvals(sc.point@) == Seq::new(n, |j: int| sc_challenge(log0, c, rounds, j as nat)) && (forall|j: int|
        0 <= j < sc.point@.len() ==> (#[trigger] sc.point@[j]).enc() == le32(sc.point@[j].val()))
        && sc.expected_evaluation.val() == sc_prev_claim(log0, c, rounds, n) && log1 == sc_log(log0, c, rounds, n)
}

/// The sum-check verifier accepts exactly the round messages that chain up:
/// `n` rounds of `degree + 1` values each, where `g(0) + g(1)` is the claimed
/// sum in the first round and, in every later round, the last one included,
/// the previous round polynomial (interpolated from its values) at the
/// previous challenge. On acceptance the subclaim is the last round
/// polynomial at the last challenge, at the point of all the challenges.
pub proof fn law_verify_accepts_chained_rounds(
    rounds: Seq<Seq<int>>,
    c: int,
    n: nat,
    degree: nat,
    log0: Seq<TranscriptEntry>,
    r: Result<SubClaim, &'static str>,
    log1: Seq<TranscriptEntry>,
)
    requires
        sc_verify_post(rounds, c, n, degree, log0, r, log1),
    ensures
        r is Ok <==> (rounds.len() == n && forall|j: int|
            0 <= j < n ==> (#[trigger] rounds[j]).len() == degree + 1 && (rounds[j][0] + rounds[j][1]) % q() == (if j == 0 {
                c
            } else {
                lagrange_eval(rounds[j - 1], sc_challenge(log0, c, rounds, (j - 1) as nat)) % q()
            })),
        r is Ok ==> r->Ok_0.expected_evaluation.val() == (if n == 0 {
            c
        } else {
            lagrange_eval(rounds[n - 1], sc_challenge(log0, c, rounds, (n - 1) as nat)) % q()
        }),
        r is Ok ==> lvals(r->Ok_0.point@) == Seq::new(n, |j: int| sc_challenge(log0, c, rounds, j as nat)),
{
    if rounds.len() == n && (forall|j: int|
        0 <= j < n ==> (#[trigger] rounds[j]).len() == degree + 1 && (rounds[j][0] + rounds[j][1]) % q() == (if j == 0 {
            c
        } else {
            lagrange_eval(rounds[j - 1], sc_challenge(log0, c, rounds, (j - 1) as nat)) % q()
        })) {
        assert forall|j: int| 0 <= j < n implies !#[trigger] sc_round_fails(log0, c, rounds, degree, j) by {
            assert(rounds[j].len() == degree + 1);
        }
    }
    if r is Ok {
        assert forall|j: int| 0 <= j < n implies (#[trigger] rounds[j]).len() == degree + 1 && (rounds[j][0]
            + rounds[j][1]) % q() == (if j == 0 {
            c
        } else {
            lagrange_eval(rounds[j - 1], sc_challenge(log0, c, rounds, (j - 1) as nat)) % q()
        }) by {
            assert(!sc_round_fails(log0, c, rounds, degree, j));
        }
    }
}

/// Whether round `j` fails the verifier's checks: a wrong number of values, or
/// `g(0) + g(1)` different from the claim held.
pub open spec fn sc_round_fails(
    log0: Seq<TranscriptEntry>,
    claimed: int,
    rounds: Seq<Seq<int>>,
    degree: nat,
    j: int,
) -> bool {
    rounds[j].len() != degree + 1 || (rounds[j][0] + rounds[j][1]) % q() != sc_prev_claim(
        log0,
        claimed,
        rounds,
        j as nat,
    )
}

/// The sum-check verifier: replays the transcript, checks each round and
/// reduces the claim to one about the polynomials at the challenge point.
pub fn verify(
    proof: &SumCheckProof,
    claimed_sum: Fr,
    num_vars: usize,
    degree: usize,
    transcript: &mut TitanTranscript,
) -> (r: Result<SubClaim, &'static str>)
    requires
        degree >= 1,
        degree < usize::MAX,
        lagrange_invertible((degree + 1) as nat),
    ensures
        sc_verify_post(proof.rounds(), claimed_sum.val(), num_vars as nat, degree as nat, old(transcript)@, r, final(transcript)@),
{
    let ghost rounds = proof.rounds();
    let ghost c = claimed_sum.val();
    let ghost log0 = transcript@;
    if proof.round_evals.len() != num_vars {
        return Err("wrong number of rounds in proof");
    }
    transcript_append_scalar(transcript, "claimed_sum", &claimed_sum);
    let mut prev_claim = claimed_sum;
    let mut challenges: Vec<Fr> = Vec::new();
    let mut round: usize = 0;
    let mut failure: Option<&'static str> = None;
    proof {
        assert(lvals(challenges@) =~= Seq::new(0, |j: int| sc_challenge(log0, c, rounds, j as nat)));
    }
    while round < num_vars
        invariant_except_break
            failure is None,
        invariant
            round <= num_vars,
            rounds == proof.rounds(),
            rounds.len() == num_vars,
            c == claimed_sum.val(),
            degree >= 1,
            degree < usize::MAX,
            lagrange_invertible((degree + 1) as nat),
            transcript@ == sc_log(log0, c, rounds, round as nat),
            forall|i: int| 0 <= i < round ==> !#[trigger] sc_round_fails(log0, c, rounds, degree as nat, i),
            prev_claim.val() == sc_prev_claim(log0, c, rounds, round as nat),
            challenges@.len() == round,
            lvals(challenges@) == Seq::new(round as nat, |j: int| sc_challenge(log0, c, rounds, j as nat)),
            forall|j: int| 0 <= j < challenges@.len() ==> (#[trigger] challenges@[j]).enc() == le32(challenges@[j].val()),
        ensures
            failure is None ==> round == num_vars,
            failure matches Some(e) ==> round < num_vars && sc_round_fails(log0, c, rounds, degree as nat, round as int)
                && e == (if rounds[round as int].len() != degree + 1 {
                "wrong number of evaluations in round"
            } else {
                "round check failed: g(0) + g(1) != prev_claim"
            }),
        decreases num_vars - round,
    {
        let evals = &proof.round_evals[round];
        proof {
            assert(rounds[round as int] == lvals(evals@));
        }
        if evals.len() != degree + 1 {
            failure = Some("wrong number of evaluations in round");
            break;
        }
        let s = fr_add(&evals[0], &evals[1]);
        if !fr_eq(&s, &prev_claim) {
            failure = Some("round check failed: g(0) + g(1) != prev_claim");
            break;
        }
        proof {
            assert(!sc_round_fails(log0, c, rounds, degree as nat, round as int));
        }
        append_all(transcript, "g_eval", evals);
        let r_j = get_challenge(transcript, "r_j");
        let ghost ch_old = challenges@;
        challenges.push(r_j);
        prev_claim = interpolate_and_eval(evals.as_slice(), r_j);
        proof {
            assert(r_j.val() == sc_challenge(log0, c, rounds, round as nat));
            assert forall|j: int| 0 <= j < round implies #[trigger] lvals(challenges@)[j] == sc_challenge(log0, c, rounds, j as nat) by {
                assert(challenges@[j] == ch_old[j]);
                assert(lvals(ch_old)[j] == sc_challenge(log0, c, rounds, j as nat));
            }
            assert(lvals(challenges@)[round as int] == r_j.val());
            assert(lvals(challenges@) =~= Seq::new((round + 1) as nat, |j: int| sc_challenge(log0, c, rounds, j as nat)));
        }
        round = round + 1;
    }
    match failure {
        Some(e) => {
            proof {
                lemma_first_failure(log0, c, rounds, degree as nat, num_vars as int, round as int);
                assert(transcript@ == sc_log(log0, c, rounds, (round as int) as nat));
            }
            Err(e)
        },
        None => Ok(SubClaim { point: challenges, expected_evaluation: prev_claim }),
    }
}

/// The first failing round is the only round that fails with every earlier
/// round passing.
proof fn lemma_first_failure(
    log0: Seq<TranscriptEntry>,
    c: int,
    rounds: Seq<Seq<int>>,
    degree: nat,
    nv: int,
    round: int,
)
    requires
        0 <= round < nv,
        sc_round_fails(log0, c, rounds, degree, round),
        forall|i: int| 0 <= i < round ==> !#[trigger] sc_round_fails(log0, c, rounds, degree, i),
    ensures
        !(forall|j: int| 0 <= j < nv ==> !#[trigger] sc_round_fails(log0, c, rounds, degree, j)),
        forall|j: int|
            #![trigger sc_round_fails(log0, c, rounds, degree, j)]
            0 <= j < nv && sc_round_fails(log0, c, rounds, degree, j) && (forall|i: int|
                0 <= i < j ==> !#[trigger] sc_round_fails(log0, c, rounds, degree, i)) ==> j == round,
{
    assert forall|j: int|
        #![trigger sc_round_fails(log0, c, rounds, degree, j)]
        0 <= j < nv && sc_round_fails(log0, c, rounds, degree, j) && (forall|i: int|
            0 <= i < j ==> !#[trigger] sc_round_fails(log0, c, rounds, degree, i)) implies j == round by {
        if j > round {
            assert(!sc_round_fails(log0, c, rounds, degree, round));
        }
    }
}

} // verus!
