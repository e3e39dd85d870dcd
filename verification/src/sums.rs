//! Finite sums of integer sequences and the facts about them that the
//! polynomial proofs rest on.
use vstd::prelude::*;
use vstd::arithmetic::div_mod::{lemma_add_mod_noop, lemma_mul_mod_noop_left};
use vstd::arithmetic::mul::lemma_mul_is_distributive_add;

verus! {

/// The sum of the entries of a sequence.
pub open spec fn ssum(s: Seq<int>) -> int
    decreases s.len(),
{
    if s.len() == 0 {
        0
    } else {
        ssum(s.drop_last()) + s.last()
    }
}

/// The smaller of two lengths.
pub open spec fn min_len(a: int, b: int) -> int {
    if a <= b {
        a
    } else {
        b
    }
}

/// Inner product of two integer sequences over their common length.
pub open spec fn dot(a: Seq<int>, b: Seq<int>) -> int {
    ssum(Seq::new(min_len(a.len() as int, b.len() as int) as nat, |i: int| a[i] * b[i]))
}

/// `2^n`.
pub open spec fn exp2(n: nat) -> nat
    decreases n,
{
    if n == 0 {
        1
    } else {
        2 * exp2((n - 1) as nat)
    }
}

pub proof fn lemma_exp2_pos(n: nat)
    ensures
        exp2(n) >= 1,
    decreases n,
{
    if n > 0 {
        lemma_exp2_pos((n - 1) as nat);
    }
}

pub proof fn lemma_exp2_adds(a: nat, b: nat)
    ensures
        exp2(a + b) == exp2(a) * exp2(b),
    decreases a,
{
    assert((exp2(a) as int) * (exp2(b) as int) >= 0) by (nonlinear_arith)
        requires
            exp2(a) >= 0,
            exp2(b) >= 0,
    ;
    if a > 0 {
        lemma_exp2_adds((a - 1) as nat, b);
        let x = exp2((a - 1) as nat);
        let y = exp2(b);
        let a1: nat = (a - 1) as nat;
        let s1: nat = ((a + b) - 1) as nat;
        assert(s1 == a1 + b);
        assert(exp2(a + b) == 2 * exp2(s1));
        assert(exp2(a) == 2 * x);
        assert(2 * (x * y) == (2 * x) * y) by (nonlinear_arith);
    }
}

pub proof fn lemma_exp2_monotone(a: nat, b: nat)
    requires
        a <= b,
    ensures
        exp2(a) <= exp2(b),
    decreases b,
{
    if a < b {
        lemma_exp2_monotone(a, (b - 1) as nat);
        lemma_exp2_pos((b - 1) as nat);
    }
}

/// Sums of pointwise congruent sequences are congruent.
pub proof fn lemma_ssum_mod(s: Seq<int>, t: Seq<int>, m: int)
    requires
        m > 0,
        s.len() == t.len(),
        forall|i: int| 0 <= i < s.len() ==> #[trigger] s[i] % m == t[i] % m,
    ensures
        ssum(s) % m == ssum(t) % m,
    decreases s.len(),
{
    if s.len() > 0 {
        lemma_ssum_mod(s.drop_last(), t.drop_last(), m);
        lemma_add_mod_noop(ssum(s.drop_last()), s.last(), m);
        lemma_add_mod_noop(ssum(t.drop_last()), t.last(), m);
    }
}

/// The sum of a pointwise sum is the sum of the sums.
pub proof fn lemma_ssum_add(u: Seq<int>, s: Seq<int>, t: Seq<int>)
    requires
        u.len() == s.len(),
        u.len() == t.len(),
        forall|i: int| 0 <= i < u.len() ==> #[trigger] u[i] == s[i] + t[i],
    ensures
        ssum(u) == ssum(s) + ssum(t),
    decreases u.len(),
{
    if u.len() > 0 {
        lemma_ssum_add(u.drop_last(), s.drop_last(), t.drop_last());
    }
}

/// A constant factor comes out of a sum.
pub proof fn lemma_ssum_scale(u: Seq<int>, s: Seq<int>, c: int)
    requires
        u.len() == s.len(),
        forall|i: int| 0 <= i < u.len() ==> #[trigger] u[i] == c * s[i],
    ensures
        ssum(u) == c * ssum(s),
    decreases u.len(),
{
    if u.len() > 0 {
        lemma_ssum_scale(u.drop_last(), s.drop_last(), c);
        lemma_mul_is_distributive_add(c, ssum(s.drop_last()), s.last());
    }
}

/// The sum of a sequence is the sum of a prefix plus the sum of the rest.
pub proof fn lemma_ssum_split(s: Seq<int>, a: int)
    requires
        0 <= a <= s.len(),
    ensures
        ssum(s) == ssum(s.take(a)) + ssum(s.skip(a)),
    decreases s.len(),
{
    if a < s.len() {
        lemma_ssum_split(s.drop_last(), a);
        assert(s.drop_last().take(a) =~= s.take(a));
        assert(s.skip(a).drop_last() =~= s.drop_last().skip(a));
    } else {
        assert(s.take(a) =~= s);
        assert(s.skip(a).len() == 0);
    }
}

/// Equal sequences have equal sums (a convenience for extensional equality).
pub proof fn lemma_ssum_ext(s: Seq<int>, t: Seq<int>)
    requires
        s.len() == t.len(),
        forall|i: int| 0 <= i < s.len() ==> #[trigger] s[i] == t[i],
    ensures
        ssum(s) == ssum(t),
{
    assert(s =~= t);
}

/// A sum over `2h` entries is the sum over `h` pairs of an even and an odd entry.
pub proof fn lemma_ssum_pairs(s: Seq<int>, t: Seq<int>)
    requires
        s.len() == 2 * t.len(),
        forall|i: int| 0 <= i < t.len() ==> #[trigger] t[i] == s[2 * i] + s[2 * i + 1],
    ensures
        ssum(s) == ssum(t),
    decreases t.len(),
{
    if t.len() > 0 {
        let s2 = s.drop_last().drop_last();
        let t2 = t.drop_last();
        assert forall|i: int| 0 <= i < t2.len() implies #[trigger] t2[i] == s2[2 * i] + s2[2 * i + 1] by {
            assert(t2[i] == t[i]);
        }
        lemma_ssum_pairs(s2, t2);
        assert(t[t.len() - 1] == s[2 * (t.len() - 1)] + s[2 * (t.len() - 1) + 1]);
        assert(ssum(s) == ssum(s.drop_last()) + s[s.len() - 1]);
        assert(ssum(s.drop_last()) == ssum(s2) + s[s.len() - 2]);
        assert(ssum(t) == ssum(t2) + t[t.len() - 1]);
    }
}

/// A sum over `a * b` entries is a sum over `a` blocks of `b` consecutive entries.
pub proof fn lemma_ssum_blocks(s: Seq<int>, t: Seq<int>, b: int)
    requires
        b >= 0,
        s.len() == t.len() * b,
        forall|j: int| 0 <= j < t.len() ==> #[trigger] t[j] == ssum(s.subrange(j * b, j * b + b)),
    ensures
        ssum(s) == ssum(t),
    decreases t.len(),
{
    if t.len() > 0 {
        let a = t.len() - 1;
        assert(a * b + b == t.len() * b) by (nonlinear_arith)
            requires
                a == t.len() - 1,
        ;
        assert(a * b >= 0) by (nonlinear_arith)
            requires
                a >= 0,
                b >= 0,
        ;
        lemma_ssum_split(s, a * b);
        let s2 = s.take(a * b);
        let t2 = t.drop_last();
        assert forall|j: int| 0 <= j < t2.len() implies #[trigger] t2[j] == ssum(s2.subrange(j * b, j * b + b)) by {
            assert(j * b + b <= a * b) by (nonlinear_arith)
                requires
                    j < a,
                    b >= 0,
            ;
            assert(j * b >= 0) by (nonlinear_arith)
                requires
                    j >= 0,
                    b >= 0,
            ;
            assert(s2.subrange(j * b, j * b + b) =~= s.subrange(j * b, j * b + b));
            assert(t2[j] == t[j]);
        }
        lemma_ssum_blocks(s2, t2, b);
        assert(s.skip(a * b) =~= s.subrange(a * b, a * b + b));
    }
}

/// The sum of the row sums of a matrix is the sum of its column sums.
pub proof fn lemma_ssum_swap(m: Seq<Seq<int>>, b: int)
    requires
        b >= 0,
        forall|i: int| 0 <= i < m.len() ==> (#[trigger] m[i]).len() == b,
    ensures
        ssum(Seq::new(m.len(), |i: int| ssum(m[i]))) == ssum(
            Seq::new(b as nat, |j: int| ssum(Seq::new(m.len(), |i: int| m[i][j]))),
        ),
    decreases m.len(),
{
    let rows = Seq::new(m.len(), |i: int| ssum(m[i]));
    let cols = Seq::new(b as nat, |j: int| ssum(Seq::new(m.len(), |i: int| m[i][j])));
    if m.len() == 0 {
        assert forall|j: int| 0 <= j < b implies #[trigger] cols[j] == 0 by {
            assert(Seq::new(m.len(), |i: int| m[i][j]).len() == 0);
        }
        lemma_ssum_zero(cols);
    } else {
        let m2 = m.drop_last();
        lemma_ssum_swap(m2, b);
        let rows2 = Seq::new(m2.len(), |i: int| ssum(m2[i]));
        let cols2 = Seq::new(b as nat, |j: int| ssum(Seq::new(m2.len(), |i: int| m2[i][j])));
        assert(rows.drop_last() =~= rows2);
        assert forall|j: int| 0 <= j < b implies #[trigger] cols[j] == cols2[j] + m.last()[j] by {
            let c = Seq::new(m.len(), |i: int| m[i][j]);
            assert(c.drop_last() =~= Seq::new(m2.len(), |i: int| m2[i][j]));
        }
        lemma_ssum_add(cols, cols2, m.last());
    }
}

/// A sum of zeros is zero.
pub proof fn lemma_ssum_zero(s: Seq<int>)
    requires
        forall|i: int| 0 <= i < s.len() ==> #[trigger] s[i] == 0,
    ensures
        ssum(s) == 0,
    decreases s.len(),
{
    if s.len() > 0 {
        lemma_ssum_zero(s.drop_last());
    }
}

/// A sum whose entries after the first are zero is its first entry.
pub proof fn lemma_ssum_single(s: Seq<int>)
    requires
        s.len() >= 1,
        forall|i: int| 1 <= i < s.len() ==> #[trigger] s[i] == 0,
    ensures
        ssum(s) == s[0],
    decreases s.len(),
{
    if s.len() > 1 {
        lemma_ssum_single(s.drop_last());
        assert(s[s.len() - 1] == 0);
        assert(s.drop_last()[0] == s[0]);
    } else {
        assert(s.drop_last().len() == 0);
        assert(ssum(s.drop_last()) == 0);
    }
}

/// Multiplying congruent numbers by one factor keeps them congruent.
pub proof fn lemma_mul_mod_congruent(x: int, y: int, z: int, m: int)
    requires
        m > 0,
        x % m == y % m,
    ensures
        (x * z) % m == (y * z) % m,
{
    lemma_mul_mod_noop_left(x, z, m);
    lemma_mul_mod_noop_left(y, z, m);
}

/// Extending a sum by one entry, as a loop does.
pub proof fn lemma_ssum_push(s: Seq<int>, n: int)
    requires
        0 <= n < s.len(),
    ensures
        ssum(s.take(n + 1)) == ssum(s.take(n)) + s[n],
{
    assert(s.take(n + 1).drop_last() =~= s.take(n));
}


/// `2^a < 2^b` when `a < b`.
pub proof fn lemma_exp2_strict(a: nat, b: nat)
    requires
        a < b,
    ensures
        exp2(a) < exp2(b),
    decreases b,
{
    lemma_exp2_pos(a);
    if a + 1 < b {
        lemma_exp2_strict(a, (b - 1) as nat);
    }
}

/// Powers of two with equal values have equal exponents.
pub proof fn lemma_exp2_injective(a: nat, b: nat)
    requires
        exp2(a) == exp2(b),
    ensures
        a == b,
{
    if a < b {
        lemma_exp2_strict(a, b);
    } else if b < a {
        lemma_exp2_strict(b, a);
    }
}


/// Changing one entry changes the sum by the difference.
pub proof fn lemma_ssum_update(s: Seq<int>, g: int, x: int)
    requires
        0 <= g < s.len(),
    ensures
        ssum(s.update(g, x)) == ssum(s) - s[g] + x,
    decreases s.len(),
{
    if g < s.len() - 1 {
        lemma_ssum_update(s.drop_last(), g, x);
        assert(s.update(g, x).drop_last() =~= s.drop_last().update(g, x));
    } else {
        assert(s.update(g, x).drop_last() =~= s.drop_last());
    }
}

/// Adding congruent values to the same value gives congruent sums.
pub proof fn lemma_add_congruent(c: int, a: int, b: int, m: int)
    requires
        m > 0,
        a % m == b % m,
    ensures
        (c + a) % m == (c + b) % m,
{
    vstd::arithmetic::div_mod::lemma_add_mod_noop_right(c, a, m);
    vstd::arithmetic::div_mod::lemma_add_mod_noop_right(c, b, m);
}

} // verus!
