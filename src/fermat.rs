use vstd::arithmetic::div_mod::{lemma_fundamental_div_mod, lemma_mul_mod_noop_general};
use vstd::arithmetic::power::pow;
use vstd::prelude::*;

use crate::fields::is_prime_spec;

verus! {

/// A prime does not divide a product of two residues that it does not divide.
pub proof fn lemma_prime_product_nonzero(x: int, y: int, p: int)
    requires
        is_prime_spec(p as nat),
        0 < x < p,
        0 < y < p,
    ensures
        (x * y) % p != 0,
    decreases x,
{
    if x == 1 {
        vstd::arithmetic::div_mod::lemma_small_mod(y as nat, p as nat);
    } else {
        let q = p / x;
        let r = p % x;
        lemma_fundamental_div_mod(p, x);
        assert((p as nat) % (x as nat) != 0);
        assert(0 < r < x);
        lemma_prime_product_nonzero(r, y, p);
        if (x * y) % p == 0 {
            let k = (x * y) / p;
            lemma_fundamental_div_mod(x * y, p);
            assert(r * y == p * (y - q * k)) by (nonlinear_arith)
                requires p == x * q + r, x * y == p * k;
            vstd::arithmetic::div_mod::lemma_mod_multiples_basic(y - q * k, p);
            assert(p * (y - q * k) == (y - q * k) * p) by (nonlinear_arith);
        }
    }
}

/// The same, for any two integers that the prime does not divide.
pub proof fn lemma_prime_product_nonzero_general(x: int, y: int, p: int)
    requires
        p > 1,
        is_prime_spec(p as nat),
        x % p != 0,
        y % p != 0,
    ensures
        (x * y) % p != 0,
{
    lemma_prime_product_nonzero(x % p, y % p, p);
    lemma_mul_mod_noop_general(x, y, p);
}

/// The product of the entries of a sequence.
pub open spec fn seq_product(s: Seq<int>) -> int
    decreases s.len(),
{
    if s.len() == 0 {
        1
    } else {
        seq_product(s.drop_last()) * s.last()
    }
}

pub open spec fn factorial(n: nat) -> int
    decreases n,
{
    if n == 0 {
        1
    } else {
        factorial((n - 1) as nat) * n
    }
}

/// The residues of `a * 1, a * 2, ..., a * n` modulo `p`.
pub open spec fn scaled_residues(a: int, p: int, n: nat) -> Seq<int> {
    Seq::new(n, |i: int| (a * (i + 1)) % p)
}

/// Taking one entry out divides the product by it.
proof fn lemma_product_remove(s: Seq<int>, j: int)
    requires
        0 <= j < s.len(),
    ensures
        seq_product(s) == seq_product(s.remove(j)) * s[j],
    decreases s.len(),
{
    if j == s.len() - 1 {
        assert(s.remove(j) =~= s.drop_last());
    } else {
        let t = s.drop_last();
        lemma_product_remove(t, j);
        assert(t.remove(j) =~= s.remove(j).drop_last());
        assert(s.remove(j).last() == s.last());
        let a = seq_product(t.remove(j));
        assert(a * s[j] * s.last() == a * s.last() * s[j]) by (nonlinear_arith);
    }
}

/// `n` distinct entries taken from `1..=n` multiply to `n!`.
proof fn lemma_product_of_permutation(s: Seq<int>, n: nat)
    requires
        s.no_duplicates(),
        s.len() == n,
        forall|i: int| 0 <= i < s.len() ==> 1 <= #[trigger] s[i] <= n,
    ensures
        seq_product(s) == factorial(n),
    decreases n,
{
    if n > 0 {
        if !s.contains(n as int) {
            s.unique_seq_to_set();
            vstd::set_lib::lemma_int_range(1, n as int);
            assert(s.to_set().subset_of(vstd::set_lib::set_int_range(1, n as int)));
            vstd::set_lib::lemma_len_subset(s.to_set(), vstd::set_lib::set_int_range(1, n as int));
        }
        let j = choose|j: int| 0 <= j < s.len() && s[j] == n as int;
        let t = s.remove(j);
        assert forall|i: int| 0 <= i < t.len() implies 1 <= #[trigger] t[i] <= n - 1 by {
            if i < j {
                assert(t[i] == s[i]);
            } else {
                assert(t[i] == s[i + 1]);
            }
        }
        assert(t.no_duplicates()) by {
            assert forall|a: int, b: int| 0 <= a < t.len() && 0 <= b < t.len() && a != b
                implies t[a] != t[b] by {
                let sa = if a < j { a } else { a + 1 };
                let sb = if b < j { b } else { b + 1 };
                assert(t[a] == s[sa] && t[b] == s[sb]);
            }
        }
        lemma_product_of_permutation(t, (n - 1) as nat);
        lemma_product_remove(s, j);
    }
}

/// The product of the scaled residues is `a^n * n!` modulo `p`.
proof fn lemma_scaled_product(a: int, p: int, n: nat)
    requires
        p > 1,
    ensures
        seq_product(scaled_residues(a, p, n)) % p == (pow(a, n) * factorial(n)) % p,
    decreases n,
{
    let s = scaled_residues(a, p, n);
    if n == 0 {
        vstd::arithmetic::power::lemma_pow0(a);
    } else {
        let m = (n - 1) as nat;
        lemma_scaled_product(a, p, m);
        assert(s.drop_last() =~= scaled_residues(a, p, m));
        let prev = seq_product(scaled_residues(a, p, m));
        let pw = pow(a, m);
        let f = factorial(m);
        assert(seq_product(s) == prev * ((a * n) % p));
        vstd::arithmetic::div_mod::lemma_mul_mod_noop_right(prev, a * n, p);
        vstd::arithmetic::div_mod::lemma_mul_mod_noop_left(prev, a * n, p);
        vstd::arithmetic::div_mod::lemma_mul_mod_noop_left(pw * f, a * n, p);
        vstd::arithmetic::power::lemma_pow_adds(a, m, 1);
        vstd::arithmetic::power::lemma_pow1(a);
        assert(pw * f * (a * n) == (pw * a) * (f * n)) by (nonlinear_arith);
    }
}

/// `k!` is not divisible by a prime above `k`.
proof fn lemma_factorial_nonzero(k: nat, p: int)
    requires
        p > 1,
        is_prime_spec(p as nat),
        k < p,
    ensures
        factorial(k) % p != 0,
    decreases k,
{
    if k == 0 {
        vstd::arithmetic::div_mod::lemma_small_mod(1, p as nat);
    } else {
        lemma_factorial_nonzero((k - 1) as nat, p);
        vstd::arithmetic::div_mod::lemma_small_mod(k, p as nat);
        lemma_prime_product_nonzero_general(factorial((k - 1) as nat), k as int, p);
    }
}

/// Fermat's little theorem: `a^(p-1)` is one modulo a prime `p` that does not divide `a`.
pub proof fn lemma_fermat(a: int, p: int)
    requires
        p > 1,
        is_prime_spec(p as nat),
        a % p != 0,
    ensures
        pow(a, (p - 1) as nat) % p == 1,
{
    let n = (p - 1) as nat;
    let s = scaled_residues(a, p, n);
    assert forall|i: int| 0 <= i < s.len() implies 1 <= #[trigger] s[i] <= n by {
        vstd::arithmetic::div_mod::lemma_small_mod((i + 1) as nat, p as nat);
        lemma_prime_product_nonzero_general(a, i + 1, p);
    }
    assert(s.no_duplicates()) by {
        assert forall|i: int, j: int| 0 <= i < s.len() && 0 <= j < s.len() && i != j
            implies s[i] != s[j] by {
            let (lo, hi) = if i < j { (i, j) } else { (j, i) };
            assert(s[lo] == (a * (lo + 1)) % p && s[hi] == (a * (hi + 1)) % p);
            if s[lo] == s[hi] {
                vstd::arithmetic::div_mod::lemma_sub_mod_noop(a * (hi + 1), a * (lo + 1), p);
                assert(a * (hi + 1) - a * (lo + 1) == a * (hi - lo)) by (nonlinear_arith);
                vstd::arithmetic::div_mod::lemma_small_mod(0, p as nat);
                assert((a * (hi - lo)) % p == 0);
                vstd::arithmetic::div_mod::lemma_small_mod((hi - lo) as nat, p as nat);
                lemma_prime_product_nonzero_general(a, hi - lo, p);
            }
        }
    }
    lemma_product_of_permutation(s, n);
    lemma_scaled_product(a, p, n);
    lemma_factorial_nonzero(n, p);
    let pw = pow(a, n);
    let f = factorial(n);
    assert(seq_product(s) == f);
    assert((pw * f) % p == f % p);
    vstd::arithmetic::div_mod::lemma_sub_mod_noop(pw * f, f, p);
    vstd::arithmetic::div_mod::lemma_small_mod(0, p as nat);
    assert((pw * f - f) % p == 0);
    assert(pw * f - f == (pw - 1) * f) by (nonlinear_arith);
    if (pw - 1) % p != 0 {
        lemma_prime_product_nonzero_general(pw - 1, f, p);
    }
    assert((pw - 1) % p == 0);
    lemma_fundamental_div_mod(pw - 1, p);
    let q = (pw - 1) / p;
    assert(pw == p * q + 1);
    vstd::arithmetic::div_mod::lemma_mod_multiples_vanish(q, 1, p);
    vstd::arithmetic::div_mod::lemma_small_mod(1, p as nat);
}

} // verus!
