//! Multilinear polynomials in evaluation form over a vector space `C`.
use vstd::prelude::*;
use vstd::arithmetic::div_mod::{lemma_add_mod_noop, lemma_mul_mod_noop_left, lemma_mul_mod_noop_right, lemma_mod_twice, lemma_fundamental_div_mod_converse};
use crate::field::{q, Fr, fr_one, fr_sub, fr_mul};
use crate::traits::{Linear, InnerProduct, lvals};
use crate::sums::{ssum, dot, min_len, lemma_ssum_mod, exp2, lemma_exp2_pos, lemma_exp2_adds, lemma_exp2_monotone};
use crate::mle::{eq_table, eq_at, mle, fold_lo, fold_hi, restrict_lo, restrict_hi, bits, seq_mod, lemma_eq_at_last, lemma_mle_fold_hi, lemma_mle_fold_lo, lemma_mle_mod, lemma_mle_bits, lemma_mle_restrict_hi, lemma_mle_restrict_lo, lemma_mle_empty};

verus! {

/// `2^k` as a machine integer.
pub fn pow2_usize(k: usize) -> (r: usize)
    requires
        exp2(k as nat) <= usize::MAX,
    ensures
        r == exp2(k as nat),
{
    let mut r: usize = 1;
    let mut i: usize = 0;
    while i < k
        invariant
            i <= k,
            r == exp2(i as nat),
            exp2(k as nat) <= usize::MAX,
        decreases k - i,
    {
        proof {
            lemma_exp2_monotone((i + 1) as nat, k as nat);
        }
        r = r * 2;
        i = i + 1;
    }
    r
}

/// The exponent `n` of a length `2^n`.
pub fn log2_exact(len: usize) -> (n: usize)
    requires
        exists|k: nat| len == exp2(k),
    ensures
        len == exp2(n as nat),
{
    let ghost k = choose|k: nat| len == exp2(k);
    let mut p: usize = 1;
    let mut n: usize = 0;
    proof {
        lemma_exp2_pos(k);
    }
    while p < len
        invariant
            p == exp2(n as nat),
            len == exp2(k),
            p <= len,
            1 <= p,
            n < p,
        decreases len - p,
    {
        proof {
            if k <= n {
                lemma_exp2_monotone(k, n as nat);
            }
            lemma_exp2_monotone((n + 1) as nat, k);
            lemma_exp2_gt((n + 1) as nat);
        }
        p = p * 2;
        n = n + 1;
    }
    proof {
        if n < k {
            lemma_exp2_monotone((n + 1) as nat, k);
            lemma_exp2_pos(n as nat);
        }
        if k < n {
            lemma_exp2_monotone((k + 1) as nat, n as nat);
            lemma_exp2_pos(k);
        }
    }
    n
}

/// `2^n` exceeds `n`.
pub proof fn lemma_exp2_gt(n: nat)
    ensures
        exp2(n) > n,
    decreases n,
{
    if n > 0 {
        lemma_exp2_gt((n - 1) as nat);
        lemma_exp2_pos((n - 1) as nat);
    }
}

/// `(1 - r)` and `r` as field elements, with their values.
fn one_minus(r: &Fr) -> (o: Fr)
    ensures
        o.val() == (1 - r.val()) % q(),
{
    fr_sub(&fr_one(), r)
}

/// A multilinear polynomial given by its `2^num_vars` values on the boolean
/// cube; bit `i` of an index is the value of variable `i`.
#[derive(Clone, Debug)]
pub struct MultilinearPoly<C> {
    pub coeffs: Vec<C>,
    pub num_vars: usize,
}

impl<C: Linear> MultilinearPoly<C> {
    /// The table has `2^num_vars` entries.
    pub open spec fn wf(&self) -> bool {
        self.coeffs@.len() == exp2(self.num_vars as nat)
    }

    /// The values in `Z_q` of the table.
    pub open spec fn table(&self) -> Seq<int> {
        lvals(self.coeffs@)
    }

    /// The polynomial with the given table; its length must be a power of two.
    pub fn new(coeffs: Vec<C>) -> (r: Self)
        requires
            exists|k: nat| coeffs.len() == exp2(k),
        ensures
            r.wf(),
            r.coeffs@ == coeffs@,
    {
        let num_vars = log2_exact(coeffs.len());
        MultilinearPoly { coeffs, num_vars }
    }

    /// Fixes the last variable to `r`.
    pub fn fold(&mut self, r: Fr)
        requires
            old(self).wf(),
            old(self).num_vars >= 1,
        ensures
            final(self).wf(),
            final(self).num_vars == old(self).num_vars - 1,
            final(self).table() == seq_mod(fold_hi(old(self).table(), r.val()), q()),
    {
        let n = self.coeffs.len();
        let half = n / 2;
        let om = one_minus(&r);
        let ghost c = self.table();
        proof {
            lemma_exp2_pos((self.num_vars - 1) as nat);
            assert(exp2(self.num_vars as nat) == 2 * exp2((self.num_vars - 1) as nat));
        }
        let mut new_coeffs: Vec<C> = Vec::new();
        let mut i: usize = 0;
        while i < half
            invariant
                i <= half,
                half == n / 2,
                n == self.coeffs.len(),
                n == 2 * half,
                c == lvals(self.coeffs@),
                om.val() == (1 - r.val()) % q(),
                new_coeffs@.len() == i,
                forall|j: int| 0 <= j < i ==> #[trigger] new_coeffs@[j].lin_val() == fold_hi(c, r.val())[j] % q(),
            decreases half - i,
        {
            let a = self.coeffs[i].lin_scale(&om);
            let b = self.coeffs[i + half].lin_scale(&r);
            let v = a.lin_add(&b);
            proof {
                let x = c[i as int];
                let y = c[i + half];
                assert(fold_hi(c, r.val())[i as int] == x * (1 - r.val()) + y * r.val());
                lemma_mul_mod_noop_right(x, 1 - r.val(), q());
                lemma_add_mod_noop(x * (1 - r.val()), y * r.val(), q());
            }
            new_coeffs.push(v);
            i = i + 1;
        }
        self.coeffs = new_coeffs;
        self.num_vars = self.num_vars - 1;
        proof {
            assert(self.table() =~= seq_mod(fold_hi(c, r.val()), q()));
        }
    }

    /// Fixes the first variable to `r`; a polynomial in no variables is left as it is.
    pub fn fold_first(&mut self, r: Fr)
        requires
            old(self).wf(),
        ensures
            final(self).wf(),
            old(self).num_vars == 0 ==> *final(self) == *old(self),
            old(self).num_vars >= 1 ==> final(self).num_vars == old(self).num_vars - 1
                && final(self).table() == seq_mod(fold_lo(old(self).table(), r.val()), q()),
    {
        if self.num_vars == 0 {
            return;
        }
        let n = self.coeffs.len();
        let half = n / 2;
        let om = one_minus(&r);
        let ghost c = self.table();
        proof {
            lemma_exp2_pos((self.num_vars - 1) as nat);
            assert(exp2(self.num_vars as nat) == 2 * exp2((self.num_vars - 1) as nat));
        }
        let mut new_coeffs: Vec<C> = Vec::new();
        let mut i: usize = 0;
        while i < half
            invariant
                i <= half,
                half == n / 2,
                n == self.coeffs.len(),
                n == 2 * half,
                c == lvals(self.coeffs@),
                om.val() == (1 - r.val()) % q(),
                new_coeffs@.len() == i,
                forall|j: int| 0 <= j < i ==> #[trigger] new_coeffs@[j].lin_val() == fold_lo(c, r.val())[j] % q(),
            decreases half - i,
        {
            let a = self.coeffs[2 * i].lin_scale(&om);
            let b = self.coeffs[2 * i + 1].lin_scale(&r);
            let v = a.lin_add(&b);
            proof {
                let x = c[2 * i];
                let y = c[2 * i + 1];
                assert(fold_lo(c, r.val())[i as int] == x * (1 - r.val()) + y * r.val());
                lemma_mul_mod_noop_right(x, 1 - r.val(), q());
                lemma_add_mod_noop(x * (1 - r.val()), y * r.val(), q());
            }
            new_coeffs.push(v);
            i = i + 1;
        }
        self.coeffs = new_coeffs;
        self.num_vars = self.num_vars - 1;
        proof {
            assert(self.table() =~= seq_mod(fold_lo(c, r.val()), q()));
        }
    }

    /// The value at `point`, obtained by fixing the variables one after another.
    pub fn evaluate(&self, point: &[Fr]) -> (r: C)
        requires
            self.wf(),
            point.len() == self.num_vars,
        ensures
            r.lin_val() == mle(self.table(), lvals(point@)) % q(),
    {
        let mut poly = MultilinearPoly { coeffs: vstd::slice::slice_to_vec(self.coeffs.as_slice()), num_vars: self.num_vars };
        let ghost x = lvals(point@);
        proof {
            assert(x.skip(0) =~= x);
            assert(poly.table() =~= self.table());
        }
        let mut k: usize = 0;
        while k < point.len()
            invariant
                k <= point.len(),
                point.len() == self.num_vars,
                x == lvals(point@),
                poly.wf(),
                poly.num_vars == self.num_vars - k,
                mle(poly.table(), x.skip(k as int)) % q() == mle(self.table(), x) % q(),
            decreases point.len() - k,
        {
            let ghost before = poly.table();
            let ghost xs = x.skip(k as int);
            poly.fold_first(point[k]);
            proof {
                lemma_mle_fold_lo(before, xs);
                assert(xs[0] == point@[k as int].val());
                assert(xs.drop_first() =~= x.skip(k + 1));
                lemma_mle_mod(poly.table(), fold_lo(before, xs[0]), x.skip(k + 1), q());
            }
            k = k + 1;
        }
        proof {
            assert(x.skip(k as int) =~= Seq::<int>::empty());
            lemma_mle_empty(poly.table());
            poly.coeffs@[0].lemma_lin_range();
        }
        poly.coeffs[0]
    }
}


/// An inner product with the residues of the `eq` table is the polynomial's value.
pub proof fn lemma_dot_eq_table(a: Seq<int>, e: Seq<int>, x: Seq<int>)
    requires
        a.len() == exp2(x.len()),
        e == seq_mod(eq_table(x), q()),
    ensures
        dot(a, e) % q() == mle(a, x) % q(),
{
    let n = exp2(x.len());
    assert(min_len(a.len() as int, e.len() as int) == n);
    let s1 = Seq::new(min_len(a.len() as int, e.len() as int) as nat, |j: int| a[j] * e[j]);
    let s2 = Seq::new(n, |b: int| a[b] * eq_at(x, b));
    assert forall|j: int| 0 <= j < s1.len() implies #[trigger] s1[j] % q() == s2[j] % q() by {
        lemma_mul_mod_noop_right(a[j], eq_at(x, j), q());
    }
    lemma_ssum_mod(s1, s2, q());
}

impl MultilinearPoly<Fr> {
    /// The table of `eq(alpha, b)` over the boolean cube.
    pub fn init_with_eq(alpha: &[Fr]) -> (r: Self)
        requires
            exp2(alpha.len() as nat) <= usize::MAX,
        ensures
            r.wf(),
            r.num_vars == alpha.len(),
            r.table() == seq_mod(eq_table(lvals(alpha@)), q()),
    {
        let ghost x = lvals(alpha@);
        let size = pow2_usize(alpha.len());
        let mut coeffs: Vec<Fr> = Vec::new();
        let one = fr_one();
        let mut t: usize = 0;
        while t < size
            invariant
                t <= size,
                coeffs@.len() == t,
                one.val() == 1,
                forall|j: int| 0 <= j < t ==> #[trigger] coeffs@[j].val() == 1,
            decreases size - t,
        {
            coeffs.push(one);
            t = t + 1;
        }
        let mut filled: usize = 1;
        let mut k: usize = 0;
        proof {
            lemma_exp2_pos(alpha.len() as nat);
            assert(eq_at(x.take(0), 0) == 1);
        }
        while filled < size
            invariant
                k <= alpha.len(),
                x == lvals(alpha@),
                size == exp2(alpha.len() as nat),
                filled == exp2(k as nat),
                filled >= 1,
                filled <= size,
                coeffs@.len() == size,
                forall|j: int| 0 <= j < filled ==> #[trigger] coeffs@[j].val() == eq_at(x.take(k as int), j) % q(),
            decreases size - filled,
        {
            proof {
                if k >= alpha.len() {
                    lemma_exp2_monotone(alpha.len() as nat, k as nat);
                }
                lemma_exp2_monotone((k + 1) as nat, alpha.len() as nat);
            }
            let ghost before = coeffs@;
            let a = alpha[k];
            let mut i: usize = 0;
            while i < filled
                invariant
                    i <= filled,
                    2 * filled <= size,
                    coeffs@.len() == size,
                    before.len() == size,
                    forall|j: int| 0 <= j < filled ==> #[trigger] coeffs@[j] == before[j],
                    forall|j: int| 0 <= j < i ==> #[trigger] coeffs@[filled + j].val() == (a.val() * before[j].val()) % q(),
                decreases filled - i,
            {
                let v = fr_mul(&a, &coeffs[i]);
                coeffs.set(i + filled, v);
                i = i + 1;
            }
            let om = one_minus(&a);
            let ghost mid = coeffs@;
            let mut i: usize = 0;
            while i < filled
                invariant
                    i <= filled,
                    2 * filled <= size,
                    coeffs@.len() == size,
                    mid.len() == size,
                    before.len() == size,
                    forall|j: int| 0 <= j < filled ==> #[trigger] mid[j] == before[j],
                    forall|j: int| i <= j < size ==> #[trigger] coeffs@[j] == mid[j],
                    forall|j: int| 0 <= j < i ==> #[trigger] coeffs@[j].val() == (before[j].val() * om.val()) % q(),
                decreases filled - i,
            {
                let v = fr_mul(&coeffs[i], &om);
                coeffs.set(i, v);
                i = i + 1;
            }
            proof {
                let xk = x.take(k as int);
                let xk1 = x.take(k + 1);
                assert(xk1.drop_last() =~= xk);
                assert(xk1.last() == a.val());
                assert(xk1.len() - 1 == k);
                assert forall|j: int| 0 <= j < 2 * filled implies #[trigger] coeffs@[j].val() == eq_at(xk1, j) % q() by {
                    lemma_eq_at_last(xk1, j);
                    if j < filled {
                        lemma_fundamental_div_mod_converse(j, filled as int, 0, j);
                        assert(eq_at(xk1, j) == eq_at(xk, j) * (1 - a.val()));
                        lemma_mul_mod_noop_left(eq_at(xk, j), 1 - a.val(), q());
                        lemma_mul_mod_noop_right(eq_at(xk, j) % q(), 1 - a.val(), q());
                    } else {
                        lemma_fundamental_div_mod_converse(j, filled as int, 1, j - filled);
                        assert(eq_at(xk1, j) == eq_at(xk, j - filled) * a.val());
                        let e = eq_at(xk, j - filled);
                        assert(coeffs@[j] == mid[j]);
                        assert(mid[filled + (j - filled)].val() == (a.val() * before[j - filled].val()) % q());
                        lemma_mul_mod_noop_right(a.val(), e, q());
                        assert(a.val() * e == e * a.val()) by (nonlinear_arith);
                    }
                }
            }
            filled = filled + filled;
            k = k + 1;
        }
        proof {
            if k < alpha.len() {
                lemma_exp2_monotone((k + 1) as nat, alpha.len() as nat);
                lemma_exp2_pos(k as nat);
            }
            if k > alpha.len() {
                lemma_exp2_monotone((alpha.len() + 1) as nat, k as nat);
            }
            assert(x.take(k as int) =~= x);
        }
        let r = MultilinearPoly { coeffs, num_vars: alpha.len() };
        proof {
            assert(r.table() =~= seq_mod(eq_table(x), q()));
        }
        r
    }
}


/// A table with entries in `[0, q)` is determined by the residues of its
/// polynomial's values.
pub proof fn lemma_table_unique(t1: Seq<int>, t2: Seq<int>, n: nat)
    requires
        t1.len() == exp2(n),
        t2.len() == exp2(n),
        forall|i: int| 0 <= i < t1.len() ==> 0 <= #[trigger] t1[i] < q(),
        forall|i: int| 0 <= i < t2.len() ==> 0 <= #[trigger] t2[i] < q(),
        forall|y: Seq<int>| y.len() == n ==> #[trigger] mle(t1, y) % q() == mle(t2, y) % q(),
    ensures
        t1 == t2,
{
    assert forall|b: int| 0 <= b < t1.len() implies #[trigger] t1[b] == t2[b] by {
        lemma_mle_bits(t1, b, n);
        lemma_mle_bits(t2, b, n);
        let y = bits(b, n);
        assert(mle(t1, y) % q() == mle(t2, y) % q());
        vstd::arithmetic::div_mod::lemma_small_mod(t1[b] as nat, q() as nat);
        vstd::arithmetic::div_mod::lemma_small_mod(t2[b] as nat, q() as nat);
    }
    assert(t1 =~= t2);
}

/// The entries of a table of residues lie in `[0, q)`.
pub proof fn lemma_seq_mod_range(s: Seq<int>)
    ensures
        forall|i: int| 0 <= i < s.len() ==> 0 <= #[trigger] seq_mod(s, q())[i] < q(),
{
    assert forall|i: int| 0 <= i < s.len() implies 0 <= #[trigger] seq_mod(s, q())[i] < q() by {
        vstd::arithmetic::div_mod::lemma_mod_bound(s[i], q());
    }
}

/// A table and its residues give congruent values.
pub proof fn lemma_mle_seq_mod(c: Seq<int>, y: Seq<int>)
    requires
        c.len() == exp2(y.len()),
    ensures
        mle(seq_mod(c, q()), y) % q() == mle(c, y) % q(),
{
    assert forall|i: int| 0 <= i < c.len() implies #[trigger] seq_mod(c, q())[i] % q() == c[i] % q() by {
        lemma_mod_twice(c[i], q());
    }
    lemma_mle_mod(seq_mod(c, q()), c, y, q());
}

/// The values of a sequence of vectors lie in `[0, q)`.
pub proof fn lemma_lvals_range<C: Linear>(s: Seq<C>)
    ensures
        forall|i: int| 0 <= i < s.len() ==> 0 <= #[trigger] lvals(s)[i] < q(),
{
    assert forall|i: int| 0 <= i < s.len() implies 0 <= #[trigger] lvals(s)[i] < q() by {
        s[i].lemma_lin_range();
    }
}

impl<C: InnerProduct> MultilinearPoly<C> {
    /// Fixes the first `rho.len()` variables to `rho`, by one inner product per
    /// entry of the result.
    pub fn restrict(&self, rho: &[Fr]) -> (r: Self)
        requires
            self.wf(),
            rho.len() < self.num_vars,
        ensures
            r.wf(),
            r.num_vars == self.num_vars - rho.len(),
            r.table() == seq_mod(
                restrict_lo(self.table(), lvals(rho@), (self.num_vars - rho.len()) as nat),
                q(),
            ),
    {
        let m = self.num_vars - rho.len();
        let ghost c = self.table();
        let ghost x = lvals(rho@);
        let ghost k = rho.len() as nat;
        proof {
            lemma_exp2_adds(k, m as nat);
            lemma_exp2_pos(k);
            lemma_exp2_pos(m as nat);
            lemma_exp2_monotone(k, self.num_vars as nat);
            lemma_exp2_monotone(m as nat, self.num_vars as nat);
            assert(k + m == self.num_vars);
        }
        let total = self.coeffs.len();
        let size = pow2_usize(m);
        let slice = pow2_usize(rho.len());
        let eq_poly = MultilinearPoly::<Fr>::init_with_eq(rho);
        let affine = C::to_affine(self.coeffs.as_slice());
        let mut coeffs: Vec<C> = Vec::new();
        let mut i: usize = 0;
        while i < size
            invariant
                i <= size,
                size == exp2(m as nat),
                slice == exp2(k),
                slice >= 1,
                k == rho.len(),
                x == lvals(rho@),
                c == lvals(affine@),
                affine@.len() == slice * size,
                slice * size <= usize::MAX,
                eq_poly.wf(),
                eq_poly.num_vars == rho.len(),
                eq_poly.table() == seq_mod(eq_table(x), q()),
                coeffs@.len() == i,
                forall|j: int| 0 <= j < i ==> #[trigger] coeffs@[j].lin_val() == restrict_lo(c, x, m as nat)[j] % q(),
            decreases size - i,
        {
            proof {
                assert(slice * i + slice <= slice * size) by (nonlinear_arith)
                    requires
                        i < size,
                        slice >= 1,
                ;
                assert(slice * (i + 1) == slice * i + slice) by (nonlinear_arith);
            }
            let sub = vstd::slice::slice_subrange(affine.as_slice(), slice * i, slice * (i + 1));
            let v = C::inner_product_msm(sub, eq_poly.coeffs.as_slice());
            proof {
                let blk = lvals(sub@);
                assert(blk.len() == exp2(x.len()));
                lemma_dot_eq_table(blk, lvals(eq_poly.coeffs@), x);
                assert(Seq::new(exp2(k), |j: int| c[i * exp2(k) + j] * eq_at(x, j)) =~= Seq::new(
                    exp2(x.len()),
                    |b: int| blk[b] * eq_at(x, b),
                )) by {
                    assert forall|j: int| 0 <= j < exp2(k) implies #[trigger] blk[j] == c[i * exp2(k) + j] by {
                        assert(i * exp2(k) == slice * i) by (nonlinear_arith)
                            requires
                                slice == exp2(k),
                        ;
                    }
                }
            }
            coeffs.push(v);
            i = i + 1;
        }
        let r = MultilinearPoly { coeffs, num_vars: m };
        proof {
            assert(r.table() =~= seq_mod(restrict_lo(c, x, m as nat), q()));
        }
        r
    }

    /// Fixes the last `rho.len()` variables to `rho`, by one inner product per
    /// entry of the result.
    pub fn restrict_msb(&self, rho: &[Fr]) -> (r: Self)
        requires
            self.wf(),
            rho.len() <= self.num_vars,
        ensures
            r.wf(),
            r.num_vars == self.num_vars - rho.len(),
            r.table() == seq_mod(
                restrict_hi(self.table(), lvals(rho@), (self.num_vars - rho.len()) as nat),
                q(),
            ),
    {
        let m = self.num_vars - rho.len();
        let ghost c = self.table();
        let ghost x = lvals(rho@);
        let ghost k = rho.len() as nat;
        proof {
            lemma_exp2_adds(k, m as nat);
            lemma_exp2_pos(k);
            lemma_exp2_pos(m as nat);
            lemma_exp2_monotone(k, self.num_vars as nat);
            lemma_exp2_monotone(m as nat, self.num_vars as nat);
            assert(k + m == self.num_vars);
        }
        let total = self.coeffs.len();
        let size = pow2_usize(m);
        let slice = pow2_usize(rho.len());
        let eq_poly = MultilinearPoly::<Fr>::init_with_eq(rho);
        let mut coeffs: Vec<C> = Vec::new();
        let mut xi: usize = 0;
        while xi < size
            invariant
                xi <= size,
                size == exp2(m as nat),
                slice == exp2(k),
                slice >= 1,
                k == rho.len(),
                x == lvals(rho@),
                c == self.table(),
                self.coeffs@.len() == slice * size,
                slice * size <= usize::MAX,
                eq_poly.wf(),
                eq_poly.num_vars == rho.len(),
                eq_poly.table() == seq_mod(eq_table(x), q()),
                coeffs@.len() == xi,
                forall|j: int| 0 <= j < xi ==> #[trigger] coeffs@[j].lin_val() == restrict_hi(c, x, m as nat)[j] % q(),
            decreases size - xi,
        {
            let mut col: Vec<C> = Vec::new();
            let mut b: usize = 0;
            while b < slice
                invariant
                    b <= slice,
                    xi < size,
                    slice >= 1,
                    self.coeffs@.len() == slice * size,
                    slice * size <= usize::MAX,
                    col@.len() == b,
                    forall|t: int| 0 <= t < b ==> #[trigger] col@[t] == self.coeffs@[t * size + xi],
                decreases slice - b,
            {
                proof {
                    assert(b * size + xi < slice * size) by (nonlinear_arith)
                        requires
                            b < slice,
                            xi < size,
                    ;
                }
                col.push(self.coeffs[b * size + xi]);
                b = b + 1;
            }
            let v = C::inner_product_msm(col.as_slice(), eq_poly.coeffs.as_slice());
            proof {
                let cv = lvals(col@);
                lemma_dot_eq_table(cv, lvals(eq_poly.coeffs@), x);
                assert forall|b: int| 0 <= b < exp2(k) implies #[trigger] cv[b] == c[b * exp2(m as nat) + xi] by {
                    assert(b * size + xi < slice * size) by (nonlinear_arith)
                        requires
                            b < slice,
                            xi < size,
                    ;
                    assert(col@[b] == self.coeffs@[b * size + xi]);
                    assert(c[b * size + xi] == self.coeffs@[b * size + xi].lin_val());
                }
                assert(Seq::new(exp2(k), |b: int| c[b * exp2(m as nat) + xi] * eq_at(x, b)) =~= Seq::new(
                    exp2(x.len()),
                    |b: int| cv[b] * eq_at(x, b),
                ));
            }
            coeffs.push(v);
            xi = xi + 1;
        }
        let r = MultilinearPoly { coeffs, num_vars: m };
        proof {
            assert(r.table() =~= seq_mod(restrict_hi(c, x, m as nat), q()));
        }
        r
    }

    /// The value at `point`, as one inner product with the `eq` table of `point`.
    pub fn evaluate_msm(&self, point: &[Fr]) -> (r: C)
        requires
            self.wf(),
            point.len() == self.num_vars,
        ensures
            r.lin_val() == mle(self.table(), lvals(point@)) % q(),
    {
        let total = self.coeffs.len();
        let eq_poly = MultilinearPoly::<Fr>::init_with_eq(point);
        let r = C::inner_product_msm(self.coeffs.as_slice(), eq_poly.coeffs.as_slice());
        proof {
            lemma_dot_eq_table(self.table(), lvals(eq_poly.coeffs@), lvals(point@));
        }
        r
    }
}

impl<C: Linear> MultilinearPoly<C> {
    /// Fixes the last `rho.len()` variables to `rho` by folding them one at a
    /// time, the last variable first.
    pub fn fold_msb(&self, rho: &[Fr]) -> (r: Self)
        requires
            self.wf(),
            rho.len() <= self.num_vars,
        ensures
            r.wf(),
            r.num_vars == self.num_vars - rho.len(),
            r.table() == seq_mod(
                restrict_hi(self.table(), lvals(rho@), (self.num_vars - rho.len()) as nat),
                q(),
            ),
    {
        let ghost c = self.table();
        let ghost x = lvals(rho@);
        let len = rho.len();
        let mut poly = MultilinearPoly { coeffs: vstd::slice::slice_to_vec(self.coeffs.as_slice()), num_vars: self.num_vars };
        proof {
            assert(poly.table() =~= c);
            assert forall|y: Seq<int>| y.len() == poly.num_vars implies #[trigger] mle(poly.table(), y) % q() == mle(c, y + x.skip(len - 0)) % q() by {
                assert(y + x.skip(len as int) =~= y);
            }
        }
        let mut i: usize = 0;
        while i < len
            invariant
                i <= len,
                len == rho.len(),
                len <= self.num_vars,
                x == lvals(rho@),
                c == self.table(),
                poly.wf(),
                poly.num_vars == self.num_vars - i,
                forall|y: Seq<int>| y.len() == poly.num_vars ==> #[trigger] mle(poly.table(), y) % q() == mle(c, y + x.skip(len - i)) % q(),
            decreases len - i,
        {
            let ghost before = poly.table();
            let ghost nv = poly.num_vars;
            let rv = rho[len - 1 - i];
            poly.fold(rv);
            proof {
                let r = rv.val();
                assert(x[len - 1 - i] == r);
                assert forall|y: Seq<int>| y.len() == poly.num_vars implies #[trigger] mle(poly.table(), y) % q() == mle(c, y + x.skip(len - (i + 1))) % q() by {
                    let yr = y.push(r);
                    assert(yr.len() == nv);
                    assert(mle(before, yr) % q() == mle(c, yr + x.skip(len - i)) % q());
                    lemma_mle_fold_hi(before, yr);
                    assert(yr.drop_last() =~= y);
                    assert(yr.last() == r);
                    lemma_mle_seq_mod(fold_hi(before, r), y);
                    assert(yr + x.skip(len - i) =~= y + x.skip(len - (i + 1)));
                }
            }
            i = i + 1;
        }
        proof {
            let m = (self.num_vars - len) as nat;
            let t2 = seq_mod(restrict_hi(c, x, m), q());
            lemma_exp2_adds(m, len as nat);
            assert(x.skip(0) =~= x);
            assert forall|y: Seq<int>| y.len() == m implies #[trigger] mle(poly.table(), y) % q() == mle(t2, y) % q() by {
                lemma_mle_restrict_hi(c, y, x);
                lemma_mle_seq_mod(restrict_hi(c, x, m), y);
            }
            lemma_lvals_range(poly.coeffs@);
            lemma_seq_mod_range(restrict_hi(c, x, m));
            lemma_table_unique(poly.table(), t2, m);
        }
        poly
    }
}

/// The polynomial with the first variables fixed to `rho`, by folding them
/// one at a time and reducing each table modulo `q`.
pub open spec fn folds_lo(c: Seq<int>, rho: Seq<int>) -> Seq<int>
    decreases rho.len(),
{
    if rho.len() == 0 {
        seq_mod(c, q())
    } else {
        folds_lo(seq_mod(fold_lo(c, rho[0]), q()), rho.drop_first())
    }
}

proof fn lemma_folds_lo_value(c: Seq<int>, rho: Seq<int>, y: Seq<int>)
    requires
        c.len() == exp2(rho.len() + y.len()),
    ensures
        folds_lo(c, rho).len() == exp2(y.len()),
        mle(folds_lo(c, rho), y) % q() == mle(c, rho + y) % q(),
        forall|i: int| 0 <= i < folds_lo(c, rho).len() ==> 0 <= #[trigger] folds_lo(c, rho)[i] < q(),
    decreases rho.len(),
{
    if rho.len() == 0 {
        assert(rho + y =~= y);
        lemma_mle_seq_mod(c, y);
        lemma_seq_mod_range(c);
    } else {
        let n = rho.len() + y.len();
        lemma_exp2_pos((n - 1) as nat);
        assert(exp2(n as nat) == 2 * exp2((n - 1) as nat));
        let f = seq_mod(fold_lo(c, rho[0]), q());
        assert(rho.drop_first().len() + y.len() == n - 1);
        lemma_folds_lo_value(f, rho.drop_first(), y);
        lemma_mle_fold_lo(c, rho + y);
        assert((rho + y).drop_first() =~= rho.drop_first() + y);
        lemma_mle_seq_mod(fold_lo(c, rho[0]), rho.drop_first() + y);
    }
}

/// Evaluating the restriction of a polynomial to `rho` in its first
/// variables at `y` gives the polynomial's value at `(rho, y)`.
pub proof fn law_restrict_then_evaluate(c: Seq<int>, rho: Seq<int>, y: Seq<int>)
    requires
        c.len() == exp2(rho.len() + y.len()),
    ensures
        mle(seq_mod(restrict_lo(c, rho, y.len()), q()), y) % q() == mle(c, rho + y) % q(),
{
    lemma_mle_restrict_lo(c, rho, y);
    lemma_mle_seq_mod(restrict_lo(c, rho, y.len()), y);
}

/// Evaluating the restriction of a polynomial to `rho` in its last
/// variables at `y` gives the polynomial's value at `(y, rho)`.
pub proof fn law_restrict_msb_then_evaluate(c: Seq<int>, y: Seq<int>, rho: Seq<int>)
    requires
        c.len() == exp2(y.len() + rho.len()),
    ensures
        mle(seq_mod(restrict_hi(c, rho, y.len()), q()), y) % q() == mle(c, y + rho) % q(),
{
    lemma_mle_restrict_hi(c, y, rho);
    lemma_mle_seq_mod(restrict_hi(c, rho, y.len()), y);
}

/// Restricting the first variables to `rho` at once gives the same table as
/// fixing them one after another with `fold_first`.
pub proof fn law_restrict_is_repeated_fold_first(c: Seq<int>, rho: Seq<int>, m: nat)
    requires
        c.len() == exp2(rho.len() + m),
    ensures
        seq_mod(restrict_lo(c, rho, m), q()) == folds_lo(c, rho),
{
    lemma_exp2_adds(rho.len(), m);
    let t1 = seq_mod(restrict_lo(c, rho, m), q());
    let t2 = folds_lo(c, rho);
    let y0 = Seq::new(m, |i: int| 0int);
    lemma_folds_lo_value(c, rho, y0);
    assert forall|y: Seq<int>| y.len() == m implies #[trigger] mle(t1, y) % q() == mle(t2, y) % q() by {
        law_restrict_then_evaluate(c, rho, y);
        lemma_folds_lo_value(c, rho, y);
    }
    lemma_seq_mod_range(restrict_lo(c, rho, m));
    lemma_table_unique(t1, t2, m);
}

} // verus!
