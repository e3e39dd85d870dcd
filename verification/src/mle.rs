//! The mathematics of multilinear polynomials in evaluation form.
//!
//! A table `c` of `2^n` values stands for the multilinear polynomial
//! `p(x) = Σ_b c[b] · eq(x, b)`, where bit `i` of the index `b` is the
//! boolean value of variable `i` and
//! `eq(x, b) = Π_i (b_i ? x_i : 1 - x_i)`. All of this is over the integers;
//! executable values are their residues modulo `q`.
use vstd::prelude::*;
use vstd::arithmetic::div_mod::{lemma_fundamental_div_mod, lemma_fundamental_div_mod_converse, lemma_mod_twice};
use vstd::arithmetic::mul::lemma_mul_is_associative;
use crate::sums::{ssum, exp2, lemma_exp2_pos, lemma_exp2_adds, lemma_ssum_pairs, lemma_ssum_split, lemma_ssum_add, lemma_ssum_scale, lemma_ssum_blocks, lemma_ssum_swap, lemma_ssum_mod, lemma_ssum_single, lemma_ssum_zero, lemma_mul_mod_congruent};

verus! {

/// One factor of the equality polynomial.
pub open spec fn eqf(a: int, bit: bool) -> int {
    if bit {
        a
    } else {
        1 - a
    }
}

/// `eq(x, b)`: the equality polynomial at `x` and the boolean point whose
/// bit `i` is bit `i` of `b`.
pub open spec fn eq_at(x: Seq<int>, b: int) -> int
    decreases x.len(),
{
    if x.len() == 0 {
        1
    } else {
        eqf(x[0], b % 2 == 1) * eq_at(x.drop_first(), b / 2)
    }
}

/// The table of `eq(x, b)` over all `b` in `[0, 2^n)`.
pub open spec fn eq_table(x: Seq<int>) -> Seq<int> {
    Seq::new(exp2(x.len()), |b: int| eq_at(x, b))
}

/// The multilinear polynomial with values `c` on the boolean cube, at `x`.
pub open spec fn mle(c: Seq<int>, x: Seq<int>) -> int {
    ssum(Seq::new(exp2(x.len()), |b: int| c[b] * eq_at(x, b)))
}

/// The table with the first variable fixed to `r`.
pub open spec fn fold_lo(c: Seq<int>, r: int) -> Seq<int> {
    Seq::new(c.len() / 2, |i: int| c[2 * i] * (1 - r) + c[2 * i + 1] * r)
}

/// The table with the last variable fixed to `r`.
pub open spec fn fold_hi(c: Seq<int>, r: int) -> Seq<int> {
    Seq::new(c.len() / 2, |i: int| c[i] * (1 - r) + c[i + c.len() / 2] * r)
}

/// The table in `m` variables with the first `rho.len()` variables fixed to `rho`.
pub open spec fn restrict_lo(c: Seq<int>, rho: Seq<int>, m: nat) -> Seq<int> {
    Seq::new(
        exp2(m),
        |i: int| ssum(Seq::new(exp2(rho.len()), |j: int| c[i * exp2(rho.len()) + j] * eq_at(rho, j))),
    )
}

/// The table in `m` variables with the last `rho.len()` variables fixed to `rho`.
pub open spec fn restrict_hi(c: Seq<int>, rho: Seq<int>, m: nat) -> Seq<int> {
    Seq::new(
        exp2(m),
        |x: int| ssum(Seq::new(exp2(rho.len()), |b: int| c[b * exp2(m) + x] * eq_at(rho, b))),
    )
}

/// The boolean point whose coordinate `i` is bit `i` of `b`, over `n` variables.
pub open spec fn bits(b: int, n: nat) -> Seq<int> {
    Seq::new(n, |i: int| (b / exp2(i as nat) as int) % 2)
}

/// Residues modulo `m`, entrywise.
pub open spec fn seq_mod(s: Seq<int>, m: int) -> Seq<int> {
    Seq::new(s.len(), |i: int| s[i] % m)
}

proof fn lemma_div_mod_2(b: int)
    requires
        b >= 0,
    ensures
        b == 2 * (b / 2) + b % 2,
        0 <= b % 2 < 2,
        b / 2 >= 0,
{
    lemma_fundamental_div_mod(b, 2);
}

/// `eq` seen from the last variable.
pub proof fn lemma_eq_at_last(x: Seq<int>, b: int)
    requires
        x.len() >= 1,
        b >= 0,
    ensures
        eq_at(x, b) == eq_at(x.drop_last(), b % exp2((x.len() - 1) as nat) as int) * eqf(
            x.last(),
            (b / exp2((x.len() - 1) as nat) as int) % 2 == 1,
        ),
    decreases x.len(),
{
    let n = x.len();
    if n == 1 {
        assert(exp2(0) == 1);
        assert(b % 1 == 0);
        assert(b / 1 == b);
        assert(x.drop_last().len() == 0);
        assert(eq_at(x.drop_first(), b / 2) == 1);
    } else {
        let y = x.drop_first();
        let pp = exp2((n - 2) as nat) as int;
        let p = exp2((n - 1) as nat) as int;
        lemma_exp2_pos((n - 2) as nat);
        assert(p == 2 * pp);
        lemma_div_mod_2(b);
        lemma_eq_at_last(y, b / 2);
        assert(y.len() - 1 == n - 2);
        let z = x.drop_last();
        assert(z[0] == x[0]);
        assert(z.drop_first() =~= y.drop_last());
        assert(y.last() == x.last());
        // b = p * (b / p) + b % p, and b / 2 = pp * ((b / 2) / pp) + (b / 2) % pp
        let h = b / 2;
        lemma_fundamental_div_mod(h, pp);
        let k = h / pp;
        let r = h % pp;
        assert(0 <= r < pp) by {
            vstd::arithmetic::div_mod::lemma_mod_bound(h, pp);
        }
        // b = 2 * (pp * k + r) + b % 2 = p * k + (2 * r + b % 2)
        assert(b == p * k + (2 * r + b % 2)) by (nonlinear_arith)
            requires
                b == 2 * h + b % 2,
                h == pp * k + r,
                p == 2 * pp,
        ;
        lemma_fundamental_div_mod_converse(b, p, k, 2 * r + b % 2);
        assert(b % p == 2 * r + b % 2);
        assert(b / p == k);
        lemma_fundamental_div_mod_converse(b % p, 2, r, b % 2);
        assert((b % p) / 2 == r);
        assert((b % p) % 2 == b % 2);
        assert(eq_at(z, b % p) == eqf(x[0], b % 2 == 1) * eq_at(y.drop_last(), r));
        let e0 = eqf(x[0], b % 2 == 1);
        let a1 = eq_at(y.drop_last(), r);
        let a2 = eqf(x.last(), k % 2 == 1);
        lemma_mul_is_associative(e0, a1, a2);
    }
}

/// `eq` of a concatenated point factors over the two parts.
pub proof fn lemma_eq_at_split(rho: Seq<int>, y: Seq<int>, i: int, j: int)
    requires
        i >= 0,
        0 <= j < exp2(rho.len()),
    ensures
        eq_at(rho + y, i * exp2(rho.len()) + j) == eq_at(rho, j) * eq_at(y, i),
    decreases rho.len(),
{
    let k = rho.len();
    if k == 0 {
        assert(rho + y =~= y);
        assert(j == 0);
    } else {
        let pp = exp2((k - 1) as nat) as int;
        lemma_exp2_pos((k - 1) as nat);
        assert(exp2(k) == 2 * pp);
        let b = i * exp2(k) + j;
        lemma_div_mod_2(j);
        let j2 = j / 2;
        assert(j2 < pp);
        assert(b == 2 * (i * pp + j2) + j % 2) by (nonlinear_arith)
            requires
                b == i * exp2(k) + j,
                exp2(k) == 2 * pp,
                j == 2 * j2 + j % 2,
        ;
        assert(i * pp >= 0) by (nonlinear_arith)
            requires
                i >= 0,
                pp >= 1,
        ;
        lemma_fundamental_div_mod_converse(b, 2, i * pp + j2, j % 2);
        let rho2 = rho.drop_first();
        assert((rho + y).drop_first() =~= rho2 + y);
        assert((rho + y)[0] == rho[0]);
        lemma_eq_at_split(rho2, y, i, j2);
        assert(rho2.len() == k - 1);
        let e0 = eqf(rho[0], j % 2 == 1);
        lemma_mul_is_associative(e0, eq_at(rho2, j2), eq_at(y, i));
    }
}

/// Fixing the first variable keeps the polynomial's value.
pub proof fn lemma_mle_fold_lo(c: Seq<int>, x: Seq<int>)
    requires
        x.len() >= 1,
        c.len() == exp2(x.len()),
    ensures
        mle(c, x) == mle(fold_lo(c, x[0]), x.drop_first()),
{
    let n = x.len();
    let y = x.drop_first();
    let h = exp2((n - 1) as nat) as int;
    assert(exp2(n) == 2 * h);
    let r = x[0];
    let f = fold_lo(c, r);
    let s = Seq::new(exp2(n), |b: int| c[b] * eq_at(x, b));
    let t = Seq::new(exp2(y.len()), |i: int| f[i] * eq_at(y, i));
    assert forall|i: int| 0 <= i < t.len() implies #[trigger] t[i] == s[2 * i] + s[2 * i + 1] by {
        lemma_fundamental_div_mod_converse(2 * i, 2, i, 0);
        lemma_fundamental_div_mod_converse(2 * i + 1, 2, i, 1);
        let e = eq_at(y, i);
        assert(eq_at(x, 2 * i) == (1 - r) * e);
        assert(eq_at(x, 2 * i + 1) == r * e);
        let c0 = c[2 * i];
        let c1 = c[2 * i + 1];
        assert((c0 * (1 - r) + c1 * r) * e == c0 * ((1 - r) * e) + c1 * (r * e)) by (nonlinear_arith);
    }
    lemma_ssum_pairs(s, t);
}

/// Fixing the last variable keeps the polynomial's value.
pub proof fn lemma_mle_fold_hi(c: Seq<int>, x: Seq<int>)
    requires
        x.len() >= 1,
        c.len() == exp2(x.len()),
    ensures
        mle(c, x) == mle(fold_hi(c, x.last()), x.drop_last()),
{
    let n = x.len();
    let y = x.drop_last();
    let h = exp2((n - 1) as nat) as int;
    assert(exp2(n) == 2 * h);
    lemma_exp2_pos((n - 1) as nat);
    let r = x.last();
    let f = fold_hi(c, r);
    let s = Seq::new(exp2(n), |b: int| c[b] * eq_at(x, b));
    let t = Seq::new(exp2(y.len()), |i: int| f[i] * eq_at(y, i));
    lemma_ssum_split(s, h);
    let s1 = s.take(h);
    let s2 = s.skip(h);
    assert forall|i: int| 0 <= i < t.len() implies #[trigger] t[i] == s1[i] + s2[i] by {
        lemma_eq_at_last(x, i);
        lemma_eq_at_last(x, i + h);
        lemma_fundamental_div_mod_converse(i, h, 0, i);
        lemma_fundamental_div_mod_converse(i + h, h, 1, i);
        let e = eq_at(y, i);
        assert(eq_at(x, i) == e * (1 - r));
        assert(eq_at(x, i + h) == e * r);
        assert(c.len() / 2 == h);
        let c0 = c[i];
        let c1 = c[i + h];
        assert((c0 * (1 - r) + c1 * r) * e == c0 * (e * (1 - r)) + c1 * (e * r)) by (nonlinear_arith);
    }
    lemma_ssum_add(t, s1, s2);
}

/// Fixing the first variables to `rho` keeps the polynomial's value.
pub proof fn lemma_mle_restrict_lo(c: Seq<int>, rho: Seq<int>, y: Seq<int>)
    requires
        c.len() == exp2(rho.len() + y.len()),
    ensures
        mle(c, rho + y) == mle(restrict_lo(c, rho, y.len()), y),
{
    let k = rho.len();
    let m = y.len();
    let kk = exp2(k) as int;
    lemma_exp2_adds(k, m);
    lemma_exp2_pos(k);
    lemma_exp2_pos(m);
    let x = rho + y;
    assert(x.len() == k + m);
    let s = Seq::new(exp2(x.len()), |b: int| c[b] * eq_at(x, b));
    let rl = restrict_lo(c, rho, m);
    let t = Seq::new(exp2(m), |i: int| rl[i] * eq_at(y, i));
    assert(s.len() == t.len() * kk) by (nonlinear_arith)
        requires
            s.len() == exp2(k) * exp2(m),
            t.len() == exp2(m),
            kk == exp2(k),
    ;
    assert forall|i: int| 0 <= i < t.len() implies #[trigger] t[i] == ssum(s.subrange(i * kk, i * kk + kk)) by {
        let inner = Seq::new(exp2(k), |j: int| c[i * kk + j] * eq_at(rho, j));
        let sub = s.subrange(i * kk, i * kk + kk);
        assert(i * kk + kk <= s.len()) by (nonlinear_arith)
            requires
                0 <= i < t.len(),
                kk >= 1,
                s.len() == t.len() * kk,
        ;
        assert(i * kk >= 0) by (nonlinear_arith)
            requires
                i >= 0,
                kk >= 1,
        ;
        assert forall|j: int| 0 <= j < sub.len() implies #[trigger] sub[j] == eq_at(y, i) * inner[j] by {
            lemma_eq_at_split(rho, y, i, j);
            let cc = c[i * kk + j];
            assert(cc * (eq_at(rho, j) * eq_at(y, i)) == eq_at(y, i) * (cc * eq_at(rho, j))) by (nonlinear_arith);
        }
        lemma_ssum_scale(sub, inner, eq_at(y, i));
        assert(rl[i] == ssum(inner));
    }
    lemma_ssum_blocks(s, t, kk);
}

/// Fixing the last variables to `rho` keeps the polynomial's value.
pub proof fn lemma_mle_restrict_hi(c: Seq<int>, y: Seq<int>, rho: Seq<int>)
    requires
        c.len() == exp2(y.len() + rho.len()),
    ensures
        mle(c, y + rho) == mle(restrict_hi(c, rho, y.len()), y),
{
    let k = rho.len();
    let m = y.len();
    let xx = exp2(m) as int;
    let kk = exp2(k) as int;
    lemma_exp2_adds(m, k);
    lemma_exp2_pos(k);
    lemma_exp2_pos(m);
    let x = y + rho;
    let s = Seq::new(exp2(x.len()), |t: int| c[t] * eq_at(x, t));
    let mat = Seq::new(
        exp2(k),
        |b: int| Seq::new(exp2(m), |z: int| c[b * xx + z] * eq_at(y, z) * eq_at(rho, b)),
    );
    let rows = Seq::new(mat.len(), |b: int| ssum(mat[b]));
    assert(s.len() == rows.len() * xx) by (nonlinear_arith)
        requires
            s.len() == exp2(m) * exp2(k),
            rows.len() == exp2(k),
            xx == exp2(m),
    ;
    assert forall|b: int| 0 <= b < rows.len() implies #[trigger] rows[b] == ssum(s.subrange(b * xx, b * xx + xx)) by {
        assert(b * xx + xx <= s.len()) by (nonlinear_arith)
            requires
                0 <= b < rows.len(),
                xx >= 1,
                s.len() == rows.len() * xx,
        ;
        assert(b * xx >= 0) by (nonlinear_arith)
            requires
                b >= 0,
                xx >= 1,
        ;
        let sub = s.subrange(b * xx, b * xx + xx);
        assert forall|z: int| 0 <= z < sub.len() implies #[trigger] sub[z] == mat[b][z] by {
            lemma_eq_at_split(y, rho, b, z);
            let cc = c[b * xx + z];
            lemma_mul_is_associative(cc, eq_at(y, z), eq_at(rho, b));
        }
        assert(sub =~= mat[b]);
    }
    lemma_ssum_blocks(s, rows, xx);
    lemma_ssum_swap(mat, xx);
    let rh = restrict_hi(c, rho, m);
    let cols = Seq::new(xx as nat, |z: int| ssum(Seq::new(mat.len(), |b: int| mat[b][z])));
    let t = Seq::new(exp2(m), |z: int| rh[z] * eq_at(y, z));
    assert forall|z: int| 0 <= z < t.len() implies #[trigger] t[z] == cols[z] by {
        let col = Seq::new(mat.len(), |b: int| mat[b][z]);
        let inner = Seq::new(exp2(k), |b: int| c[b * xx + z] * eq_at(rho, b));
        assert forall|b: int| 0 <= b < col.len() implies #[trigger] col[b] == eq_at(y, z) * inner[b] by {
            let cc = c[b * xx + z];
            assert(cc * eq_at(y, z) * eq_at(rho, b) == eq_at(y, z) * (cc * eq_at(rho, b))) by (nonlinear_arith);
        }
        lemma_ssum_scale(col, inner, eq_at(y, z));
        assert(rh[z] == ssum(inner));
        assert(inner[0] == inner[0]);
        assert(eq_at(y, z) * ssum(inner) == ssum(inner) * eq_at(y, z)) by (nonlinear_arith);
    }
    assert(t =~= cols);
}

/// The polynomial at no variables is its single value.
pub proof fn lemma_mle_empty(c: Seq<int>)
    requires
        c.len() >= 1,
    ensures
        mle(c, Seq::<int>::empty()) == c[0],
{
    let s = Seq::new(exp2(0), |b: int| c[b] * eq_at(Seq::<int>::empty(), b));
    assert(s.len() == 1);
    assert(s.drop_last().len() == 0);
    assert(ssum(s.drop_last()) == 0);
    assert(eq_at(Seq::<int>::empty(), 0) == 1);
    assert(s[0] == c[0]);
    assert(ssum(s) == ssum(s.drop_last()) + s[0]);
}

/// Polynomials with congruent tables take congruent values.
pub proof fn lemma_mle_mod(c1: Seq<int>, c2: Seq<int>, x: Seq<int>, m: int)
    requires
        m > 0,
        c1.len() == c2.len(),
        c1.len() == exp2(x.len()),
        forall|i: int| 0 <= i < c1.len() ==> #[trigger] c1[i] % m == c2[i] % m,
    ensures
        mle(c1, x) % m == mle(c2, x) % m,
{
    let s1 = Seq::new(exp2(x.len()), |b: int| c1[b] * eq_at(x, b));
    let s2 = Seq::new(exp2(x.len()), |b: int| c2[b] * eq_at(x, b));
    assert forall|i: int| 0 <= i < s1.len() implies #[trigger] s1[i] % m == s2[i] % m by {
        lemma_mul_mod_congruent(c1[i], c2[i], eq_at(x, i), m);
    }
    lemma_ssum_mod(s1, s2, m);
}

/// `eq` at a boolean point picks out one index.
pub proof fn lemma_eq_at_bits(b: int, t: int, n: nat)
    requires
        0 <= b < exp2(n),
        0 <= t < exp2(n),
    ensures
        eq_at(bits(b, n), t) == if b == t {
            1int
        } else {
            0int
        },
    decreases n,
{
    if n > 0 {
        lemma_exp2_pos((n - 1) as nat);
        let pp = exp2((n - 1) as nat) as int;
        assert(exp2(n) == 2 * pp);
        lemma_div_mod_2(b);
        lemma_div_mod_2(t);
        let x = bits(b, n);
        let x2 = bits(b / 2, (n - 1) as nat);
        assert forall|i: int| 0 <= i < x2.len() implies #[trigger] x.drop_first()[i] == x2[i] by {
            assert(exp2((i + 1) as nat) == 2 * exp2(i as nat));
            lemma_exp2_pos(i as nat);
            vstd::arithmetic::div_mod::lemma_div_denominator(b, 2, exp2(i as nat) as int);
        }
        assert(x.drop_first() =~= x2);
        assert(x[0] == b % 2) by {
            assert(exp2(0) == 1);
            assert(b / 1 == b);
        }
        lemma_eq_at_bits(b / 2, t / 2, (n - 1) as nat);
    }
}

/// The polynomial at a boolean point is the table entry there.
pub proof fn lemma_mle_bits(c: Seq<int>, b: int, n: nat)
    requires
        c.len() == exp2(n),
        0 <= b < exp2(n),
    ensures
        mle(c, bits(b, n)) == c[b],
{
    let x = bits(b, n);
    let s = Seq::new(exp2(n), |t: int| c[t] * eq_at(x, t));
    assert forall|t: int| 0 <= t < s.len() && t != b implies #[trigger] s[t] == 0 by {
        lemma_eq_at_bits(b, t, n);
    }
    lemma_eq_at_bits(b, b, n);
    lemma_ssum_split(s, b);
    let s2 = s.skip(b);
    assert forall|i: int| 1 <= i < s2.len() implies #[trigger] s2[i] == 0 by {
        assert(s2[i] == s[i + b]);
    }
    lemma_ssum_single(s2);
    lemma_ssum_zero(s.take(b));
}


/// `eq(a, x) = Π_i (a_i x_i + (1 - a_i)(1 - x_i))`, the equality polynomial in
/// product form.
pub open spec fn eq_poly(a: Seq<int>, x: Seq<int>) -> int
    decreases a.len(),
{
    if a.len() == 0 {
        1
    } else {
        (a[0] * x[0] + (1 - a[0]) * (1 - x[0])) * eq_poly(a.drop_first(), x.drop_first())
    }
}

/// The multilinear polynomial with the table of `eq(a, ·)` is `eq(a, ·)` in
/// product form.
pub proof fn lemma_mle_eq_table(a: Seq<int>, x: Seq<int>)
    requires
        a.len() == x.len(),
    ensures
        mle(eq_table(a), x) == eq_poly(a, x),
    decreases a.len(),
{
    if a.len() == 0 {
        lemma_mle_empty(eq_table(a));
        assert(eq_at(a, 0) == 1);
        assert(eq_table(a)[0] == eq_at(a, 0));
        assert(x =~= Seq::<int>::empty());
    } else {
        let n = a.len();
        lemma_exp2_pos((n - 1) as nat);
        assert(exp2(n) == 2 * exp2((n - 1) as nat));
        let a2 = a.drop_first();
        let x2 = x.drop_first();
        let e0 = a[0] * x[0] + (1 - a[0]) * (1 - x[0]);
        lemma_mle_fold_lo(eq_table(a), x);
        let f = fold_lo(eq_table(a), x[0]);
        let t = eq_table(a2);
        assert forall|i: int| 0 <= i < f.len() implies #[trigger] f[i] == e0 * t[i] by {
            lemma_fundamental_div_mod_converse(2 * i, 2, i, 0);
            lemma_fundamental_div_mod_converse(2 * i + 1, 2, i, 1);
            assert(eq_at(a, 2 * i) == (1 - a[0]) * eq_at(a2, i));
            assert(eq_at(a, 2 * i + 1) == a[0] * eq_at(a2, i));
            let e = eq_at(a2, i);
            let r = x[0];
            assert(((1 - a[0]) * e) * (1 - r) + (a[0] * e) * r == e0 * e) by (nonlinear_arith)
                requires
                    e0 == a[0] * r + (1 - a[0]) * (1 - r),
            ;
        }
        let s1 = Seq::new(exp2(x2.len()), |b: int| f[b] * eq_at(x2, b));
        let s2 = Seq::new(exp2(x2.len()), |b: int| t[b] * eq_at(x2, b));
        assert forall|b: int| 0 <= b < s1.len() implies #[trigger] s1[b] == e0 * s2[b] by {
            assert(f[b] * eq_at(x2, b) == e0 * (t[b] * eq_at(x2, b))) by (nonlinear_arith)
                requires
                    f[b] == e0 * t[b],
            ;
        }
        lemma_ssum_scale(s1, s2, e0);
        lemma_mle_eq_table(a2, x2);
        assert(mle(f, x2) == ssum(s1));
        assert(mle(t, x2) == ssum(s2));
        assert(a2.len() == x2.len());
        assert(eq_poly(a, x) == e0 * eq_poly(a2, x2));
    }
}

} // verus!
