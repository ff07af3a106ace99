use vstd::arithmetic::power::pow;
use vstd::prelude::*;

use crate::polynomial::poly_eval;

verus! {

/// `f(0) + f(1) + ... + f(n - 1)`.
pub open spec fn sum(n: nat, f: spec_fn(int) -> int) -> int
    decreases n,
{
    if n == 0 {
        0
    } else {
        sum((n - 1) as nat, f) + f(n - 1)
    }
}

/// Sums of termwise congruent terms are congruent.
pub proof fn lemma_sum_congruent(n: nat, f: spec_fn(int) -> int, g: spec_fn(int) -> int, m: int)
    requires
        m > 0,
        forall|i: int| 0 <= i < n ==> #[trigger] f(i) % m == g(i) % m,
    ensures
        sum(n, f) % m == sum(n, g) % m,
    decreases n,
{
    if n > 0 {
        let k = (n - 1) as nat;
        lemma_sum_congruent(k, f, g, m);
        vstd::arithmetic::div_mod::lemma_add_mod_noop(sum(k, f), f(k as int), m);
        vstd::arithmetic::div_mod::lemma_add_mod_noop(sum(k, g), g(k as int), m);
    }
}

/// Sums of termwise equal terms are equal.
pub proof fn lemma_sum_ext(n: nat, f: spec_fn(int) -> int, g: spec_fn(int) -> int)
    requires
        forall|i: int| 0 <= i < n ==> #[trigger] f(i) == g(i),
    ensures
        sum(n, f) == sum(n, g),
    decreases n,
{
    if n > 0 {
        lemma_sum_ext((n - 1) as nat, f, g);
    }
}

/// A constant factor comes out of a sum; `g` is `f` scaled by `c`.
pub proof fn lemma_sum_scale(n: nat, f: spec_fn(int) -> int, g: spec_fn(int) -> int, c: int)
    requires
        forall|i: int| 0 <= i < n ==> #[trigger] g(i) == c * f(i),
    ensures
        sum(n, g) == c * sum(n, f),
    decreases n,
{
    if n > 0 {
        let k = (n - 1) as nat;
        lemma_sum_scale(k, f, g, c);
        assert(c * sum(k, f) + c * f(k as int) == c * (sum(k, f) + f(k as int))) by (nonlinear_arith);
    }
}

/// The order of a double sum can be exchanged.
pub proof fn lemma_sum_swap(n: nat, k: nat, f: spec_fn(int, int) -> int)
    ensures
        sum(n, |j: int| sum(k, |i: int| f(i, j))) == sum(k, |i: int| sum(n, |j: int| f(i, j))),
    decreases n,
{
    if n > 0 {
        let p = (n - 1) as nat;
        lemma_sum_swap(p, k, f);
        let inner_p = |i: int| sum(p, |j: int| f(i, j));
        let last = |i: int| f(i, p as int);
        lemma_sum_add(k, inner_p, last);
        let both = |i: int| inner_p(i) + last(i);
        let inner_n = |i: int| sum(n, |j: int| f(i, j));
        assert forall|i: int| 0 <= i < k implies #[trigger] both(i) == inner_n(i) by {
            assert(sum(n, |j: int| f(i, j)) == sum(p, |j: int| f(i, j)) + f(i, p as int));
        }
        lemma_sum_ext(k, both, inner_n);
        let rows = |j: int| sum(k, |i: int| f(i, j));
        assert(sum(n, rows) == sum(p, rows) + rows(p as int));
        assert(rows(p as int) == sum(k, last));
        assert(sum(p, rows) == sum(k, inner_p));
        assert(sum(k, both) == sum(k, inner_p) + sum(k, last));
    } else {
        lemma_sum_zero(k, |i: int| sum(n, |j: int| f(i, j)));
    }
}

/// A sum of termwise sums is the sum of the two sums.
pub proof fn lemma_sum_add(n: nat, f: spec_fn(int) -> int, g: spec_fn(int) -> int)
    ensures
        sum(n, |i: int| f(i) + g(i)) == sum(n, f) + sum(n, g),
    decreases n,
{
    if n > 0 {
        lemma_sum_add((n - 1) as nat, f, g);
    }
}

/// A sum whose terms vanish but at `k` is its term at `k`.
pub proof fn lemma_sum_single(n: nat, f: spec_fn(int) -> int, k: int)
    requires
        0 <= k < n,
        forall|i: int| 0 <= i < n && i != k ==> #[trigger] f(i) == 0,
    ensures
        sum(n, f) == f(k),
    decreases n,
{
    if n > 0 {
        let p = (n - 1) as nat;
        if k < p {
            lemma_sum_single(p, f, k);
        } else {
            lemma_sum_zero(p, f);
        }
    }
}

proof fn lemma_sum_zero(n: nat, f: spec_fn(int) -> int)
    requires
        forall|i: int| 0 <= i < n ==> #[trigger] f(i) == 0,
    ensures
        sum(n, f) == 0,
    decreases n,
{
    if n > 0 {
        lemma_sum_zero((n - 1) as nat, f);
    }
}

/// Splitting off the first term; `g` is `f` shifted by one.
pub proof fn lemma_sum_first(n: nat, f: spec_fn(int) -> int, g: spec_fn(int) -> int)
    requires
        n > 0,
        forall|i: int| #[trigger] g(i) == f(i + 1),
    ensures
        sum(n, f) == f(0) + sum((n - 1) as nat, g),
    decreases n,
{
    if n > 1 {
        lemma_sum_first((n - 1) as nat, f, g);
        assert(g(n - 2) == f(n - 1));
        assert(sum(n, f) == sum((n - 1) as nat, f) + f(n - 1));
        assert(sum((n - 1) as nat, g) == sum((n - 2) as nat, g) + g(n - 2));
        assert(sum((n - 1) as nat, f) == f(0) + sum((n - 2) as nat, g));
    } else {
        assert(sum(1, f) == sum(0, f) + f(0));
        assert(sum(0, g) == 0);
    }
}

/// A polynomial's value is the sum of its terms.
pub proof fn lemma_eval_as_sum(c: Seq<int>, x: int)
    ensures
        poly_eval(c, x) == sum(c.len(), |i: int| c[i] * pow(x, i as nat)),
    decreases c.len(),
{
    if c.len() > 0 {
        let t = c.drop_first();
        lemma_eval_as_sum(t, x);
        let terms = |i: int| c[i] * pow(x, i as nat);
        let shifted = |i: int| c[i + 1] * pow(x, (i + 1) as nat);
        let scaled = |i: int| x * (t[i] * pow(x, i as nat));
        lemma_sum_first(c.len(), terms, shifted);
        vstd::arithmetic::power::lemma_pow0(x);
        assert forall|i: int| 0 <= i < t.len() implies #[trigger] shifted(i) == scaled(i) by {
            vstd::arithmetic::power::lemma_pow_adds(x, 1, i as nat);
            vstd::arithmetic::power::lemma_pow1(x);
            assert(c[i + 1] * (x * pow(x, i as nat)) == x * (t[i] * pow(x, i as nat)))
                by (nonlinear_arith) requires c[i + 1] == t[i];
        }
        let tail_terms = |i: int| t[i] * pow(x, i as nat);
        lemma_sum_ext(t.len(), shifted, scaled);
        lemma_sum_scale(t.len(), tail_terms, scaled, x);
        assert(sum(t.len(), scaled) == x * sum(t.len(), tail_terms));
        assert(sum(c.len(), terms) == c[0] + x * sum(t.len(), tail_terms));
    }
}

/// A polynomial takes congruent values at congruent points.
pub proof fn lemma_eval_mod_point(c: Seq<int>, x: int, m: int)
    requires
        m > 0,
    ensures
        poly_eval(c, x) % m == poly_eval(c, x % m) % m,
    decreases c.len(),
{
    if c.len() > 0 {
        let t = c.drop_first();
        lemma_eval_mod_point(t, x, m);
        let a = poly_eval(t, x);
        let b = poly_eval(t, x % m);
        vstd::arithmetic::div_mod::lemma_mul_mod_noop_general(x, a, m);
        vstd::arithmetic::div_mod::lemma_mul_mod_noop_general(x % m, b, m);
        vstd::arithmetic::div_mod::lemma_mod_twice(x, m);
        vstd::arithmetic::div_mod::lemma_add_mod_noop(c[0], x * a, m);
        vstd::arithmetic::div_mod::lemma_add_mod_noop(c[0], (x % m) * b, m);
    }
}

} // verus!
