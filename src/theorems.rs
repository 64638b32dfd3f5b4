//! Fermat's little theorem and the modular facts that the schemes'
//! correctness rests on.
use crate::arith::{is_prime, pow_mod};
use vstd::arithmetic::div_mod::{
    lemma_add_mod_noop, lemma_fundamental_div_mod, lemma_mod_multiples_basic,
    lemma_mod_multiples_vanish, lemma_mul_mod_noop_left, lemma_mul_mod_noop_right,
    lemma_small_mod,
};
use vstd::arithmetic::power::{
    lemma_pow0, lemma_pow1, lemma_pow_adds, lemma_pow_multiplies, lemma_pow_positive, pow,
};
use vstd::prelude::*;

verus! {

/// The binomial coefficient, by Pascal's rule.
pub open spec fn binom(n: nat, k: nat) -> nat
    decreases n,
{
    if k == 0 {
        1
    } else if n == 0 {
        0
    } else {
        binom((n - 1) as nat, (k - 1) as nat) + binom((n - 1) as nat, k)
    }
}

/// The first `k` terms of the expansion of `(a + 1)^n`.
pub open spec fn binom_sum(a: int, n: nat, k: nat) -> int
    decreases k,
{
    if k == 0 {
        0
    } else {
        binom_sum(a, n, (k - 1) as nat) + binom(n, (k - 1) as nat) * pow(a, (k - 1) as nat)
    }
}

/// Euclid's lemma: a prime dividing a product divides a factor.
pub proof fn lemma_euclid(p: nat, a: int, b: int)
    requires
        is_prime(p),
        (a * b) % (p as int) == 0,
    ensures
        a % (p as int) == 0 || b % (p as int) == 0,
{
    let pi = p as int;
    lemma_mul_mod_noop_left(a, b, pi);
    let r = a % pi;
    if r != 0 {
        lemma_euclid_below(p, r as nat, b);
    }
}

proof fn lemma_euclid_below(p: nat, a: nat, b: int)
    requires
        is_prime(p),
        0 < a < p,
        (a * b) % (p as int) == 0,
    ensures
        b % (p as int) == 0,
    decreases a,
{
    let pi = p as int;
    if a > 1 {
        let r = p % a;
        assert(p % a != 0);
        lemma_fundamental_div_mod(pi, a as int);
        let t = (a * b) / pi;
        lemma_fundamental_div_mod(a * b, pi);
        assert(a * b == pi * t);
        let j = (p / a) as int;
        assert(pi == a * j + r);
        assert(r * b == pi * (b - j * t)) by (nonlinear_arith)
            requires
                pi == a * j + r,
                a * b == pi * t,
        ;
        lemma_mod_multiples_basic(b - j * t, pi);
        assert((r * b) % pi == 0) by {
            assert(pi * (b - j * t) == (b - j * t) * pi) by (nonlinear_arith);
        }
        lemma_euclid_below(p, r, b);
    } else {
        assert(a * b == b) by (nonlinear_arith)
            requires
                a == 1,
        ;
    }
}

proof fn lemma_binom_zero_above(n: nat, k: nat)
    requires
        k > n,
    ensures
        binom(n, k) == 0,
    decreases n,
{
    if n > 0 {
        lemma_binom_zero_above((n - 1) as nat, (k - 1) as nat);
        lemma_binom_zero_above((n - 1) as nat, k);
    }
}

proof fn lemma_binom_diagonal(n: nat)
    ensures
        binom(n, n) == 1,
    decreases n,
{
    if n > 0 {
        lemma_binom_diagonal((n - 1) as nat);
        lemma_binom_zero_above((n - 1) as nat, n);
    }
}

proof fn lemma_binom_one(n: nat)
    ensures
        binom(n, 1) == n,
    decreases n,
{
    if n > 0 {
        lemma_binom_one((n - 1) as nat);
        assert(binom((n - 1) as nat, 0) == 1);
        assert(binom(n, 1) == binom((n - 1) as nat, 0) + binom((n - 1) as nat, 1));
    }
}

/// `k * C(n, k) == n * C(n - 1, k - 1)`.
proof fn lemma_binom_absorption(n: nat, k: nat)
    requires
        n >= 1,
        k >= 1,
    ensures
        k * binom(n, k) == n * binom((n - 1) as nat, (k - 1) as nat),
    decreases n,
{
    if k == 1 {
        lemma_binom_one(n);
        assert(binom((n - 1) as nat, 0) == 1);
        assert(k * binom(n, k) == n * binom((n - 1) as nat, (k - 1) as nat)) by (nonlinear_arith)
            requires
                k == 1,
                binom(n, k) == n,
                binom((n - 1) as nat, (k - 1) as nat) == 1,
        ;
    } else if n == 1 {
        lemma_binom_zero_above(0, (k - 1) as nat);
        lemma_binom_zero_above(0, k);
        assert(binom(1, k) == binom(0, (k - 1) as nat) + binom(0, k));
        assert(k * binom(n, k) == n * binom((n - 1) as nat, (k - 1) as nat)) by (nonlinear_arith)
            requires
                binom(n, k) == 0,
                binom((n - 1) as nat, (k - 1) as nat) == 0,
        ;
    } else {
        let n1 = (n - 1) as nat;
        let n2 = (n - 2) as nat;
        let k1 = (k - 1) as nat;
        let k2 = (k - 2) as nat;
        lemma_binom_absorption(n1, k);
        lemma_binom_absorption(n1, k1);
        let a = binom(n1, k1);
        let b = binom(n1, k);
        let c = binom(n2, k2);
        let d = binom(n2, k1);
        assert(binom(n, k) == a + b);
        assert(a == c + d);
        assert(k * binom(n, k) == n * a) by (nonlinear_arith)
            requires
                binom(n, k) == a + b,
                k * b == n1 * d,
                k1 * a == n1 * c,
                a == c + d,
                n1 == n - 1,
                k1 == k - 1,
        ;
    }
}

/// A prime divides every inner coefficient of its row.
proof fn lemma_prime_divides_binom(p: nat, k: nat)
    requires
        is_prime(p),
        0 < k < p,
    ensures
        binom(p, k) % p == 0,
{
    lemma_binom_absorption(p, k);
    let c = binom((p - 1) as nat, (k - 1) as nat);
    lemma_mod_multiples_basic(c as int, p as int);
    assert((k as int * binom(p, k) as int) % (p as int) == 0) by {
        assert(k * binom(p, k) == c * p) by (nonlinear_arith)
            requires
                k * binom(p, k) == p * c,
        ;
    }
    lemma_euclid(p, k as int, binom(p, k) as int);
    lemma_small_mod(k, p);
}

proof fn lemma_binom_sum_step(a: int, n: nat, k: nat)
    ensures
        binom_sum(a, n + 1, k + 1) == a * binom_sum(a, n, k) + binom_sum(a, n, k + 1),
    decreases k,
{
    if k == 0 {
        lemma_pow0(a);
        assert(binom_sum(a, n + 1, 0) == 0);
        assert(binom_sum(a, n, 0) == 0);
    } else {
        let k1 = (k - 1) as nat;
        lemma_binom_sum_step(a, n, k1);
        lemma_pow_adds(a, 1, k1);
        lemma_pow1(a);
        let pk = pow(a, k);
        let pk1 = pow(a, k1);
        assert(pk == a * pk1);
        assert(binom(n + 1, k) == binom(n, k1) + binom(n, k));
        let s = binom_sum(a, n, k1);
        assert(binom_sum(a, n + 1, k + 1) == binom_sum(a, n + 1, k) + binom(n + 1, k) * pk);
        assert(binom_sum(a, n, k) == s + binom(n, k1) * pk1);
        assert(binom_sum(a, n, k + 1) == binom_sum(a, n, k) + binom(n, k) * pk);
        assert(binom_sum(a, n + 1, k + 1) == a * binom_sum(a, n, k) + binom_sum(a, n, k + 1)) by (nonlinear_arith)
            requires
                binom_sum(a, n + 1, k + 1) == binom_sum(a, n + 1, k) + binom(n + 1, k) * pk,
                binom_sum(a, n + 1, k) == a * s + binom_sum(a, n, k),
                binom(n + 1, k) == binom(n, k1) + binom(n, k),
                binom_sum(a, n, k) == s + binom(n, k1) * pk1,
                binom_sum(a, n, k + 1) == binom_sum(a, n, k) + binom(n, k) * pk,
                pk == a * pk1,
        ;
    }
}

/// The binomial theorem for `(a + 1)^n`.
pub proof fn lemma_binomial_theorem(a: int, n: nat)
    ensures
        pow(a + 1, n) == binom_sum(a, n, n + 1),
    decreases n,
{
    if n == 0 {
        lemma_pow0(a + 1);
        lemma_pow0(a);
        assert(binom_sum(a, 0, 0) == 0);
        assert(binom(0, 0) == 1);
        assert(binom_sum(a, 0, 1) == binom_sum(a, 0, 0) + binom(0, 0) * pow(a, 0));
    } else {
        let n1 = (n - 1) as nat;
        lemma_binomial_theorem(a, n1);
        lemma_binom_sum_step(a, n1, n);
        lemma_binom_zero_above(n1, n);
        assert(binom_sum(a, n1, n + 1) == binom_sum(a, n1, n) + binom(n1, n) * pow(a, n));
        lemma_pow_adds(a + 1, 1, n1);
        lemma_pow1(a + 1);
        assert(pow(a + 1, n) == (a + 1) * pow(a + 1, n1));
        assert(pow(a + 1, n) == a * binom_sum(a, n1, n) + binom_sum(a, n1, n)) by (nonlinear_arith)
            requires
                pow(a + 1, n) == (a + 1) * pow(a + 1, n1),
                pow(a + 1, n1) == binom_sum(a, n1, n),
        ;
    }
}

proof fn lemma_inner_terms_vanish(a: nat, p: nat, k: nat)
    requires
        is_prime(p),
        1 <= k <= p,
    ensures
        binom_sum(a as int, p, k) % (p as int) == 1,
    decreases k,
{
    let pi = p as int;
    if k == 1 {
        lemma_pow0(a as int);
        assert(binom_sum(a as int, p, 0) == 0);
        lemma_small_mod(1, p);
    } else {
        let k1 = (k - 1) as nat;
        lemma_inner_terms_vanish(a, p, k1);
        lemma_prime_divides_binom(p, k1);
        let c = binom(p, k1);
        lemma_fundamental_div_mod(c as int, pi);
        let t = c as int / pi;
        assert(c == pi * t);
        let term = c * pow(a as int, k1);
        assert(term == pi * (t * pow(a as int, k1))) by (nonlinear_arith)
            requires
                c == pi * t,
                term == c * pow(a as int, k1),
        ;
        lemma_mod_multiples_vanish(t * pow(a as int, k1), binom_sum(a as int, p, k1), pi);
    }
}

/// Fermat's little theorem: `a^p == a (mod p)` for a prime `p`.
pub proof fn lemma_fermat(a: nat, p: nat)
    requires
        is_prime(p),
    ensures
        pow(a as int, p) % (p as int) == (a as int) % (p as int),
    decreases a,
{
    let pi = p as int;
    if a == 0 {
        lemma_pow_positive_or_zero(p);
    } else {
        let a1 = (a - 1) as nat;
        lemma_fermat(a1, p);
        lemma_binomial_theorem(a1 as int, p);
        lemma_inner_terms_vanish(a1, p, p);
        lemma_binom_diagonal(p);
        let s = binom_sum(a1 as int, p, p);
        assert(pow(a as int, p) == s + pow(a1 as int, p)) by {
            assert(binom_sum(a1 as int, p, p + 1) == s + binom(p, p) * pow(a1 as int, p));
        }
        lemma_add_mod_noop(s, pow(a1 as int, p), pi);
        lemma_add_mod_noop(1, a1 as int, pi);
        lemma_small_mod(1, p);
    }
}

proof fn lemma_pow_positive_or_zero(p: nat)
    requires
        p >= 1,
    ensures
        pow(0, p) == 0,
{
    lemma_pow_adds(0, 1, (p - 1) as nat);
    lemma_pow1(0);
}

/// `a^(p - 1) == 1 (mod p)` for a prime `p` that does not divide `a`.
pub proof fn lemma_fermat_unit(a: nat, p: nat)
    requires
        is_prime(p),
        a % p != 0,
    ensures
        pow(a as int, (p - 1) as nat) % (p as int) == 1,
{
    let pi = p as int;
    let ai = a as int;
    let e = (p - 1) as nat;
    lemma_fermat(a, p);
    lemma_pow_adds(ai, 1, e);
    lemma_pow1(ai);
    let x = pow(ai, e);
    assert(pow(ai, p) == ai * x);
    lemma_fundamental_div_mod(ai * x, pi);
    lemma_fundamental_div_mod(ai, pi);
    let j: int = (ai * x) / pi - ai / pi;
    let d: int = ai * x - ai;
    assert(d == pi * j) by (nonlinear_arith)
        requires
            ai * x == pi * ((ai * x) / pi) + (ai * x) % pi,
            ai == pi * (ai / pi) + ai % pi,
            (ai * x) % pi == ai % pi,
            d == ai * x - ai,
            j == (ai * x) / pi - ai / pi,
    ;
    lemma_mod_multiples_basic(j, pi);
    assert(d % pi == 0) by {
        assert(pi * j == j * pi) by (nonlinear_arith);
    }
    assert(ai * (x - 1) == d) by (nonlinear_arith)
        requires
            d == ai * x - ai,
    ;
    lemma_euclid(p, ai, x - 1);
    lemma_add_mod_noop(x - 1, 1, pi);
    lemma_small_mod(1, p);
    lemma_small_mod(0, p);
}

/// With `g^q == 1 (mod m)`, exponents of `g` count modulo `q`.
pub proof fn lemma_pow_exponent_mod(g: nat, q: nat, m: nat, e: nat)
    requires
        m > 1,
        q > 0,
        pow(g as int, q) % (m as int) == 1,
    ensures
        pow(g as int, e) % (m as int) == pow(g as int, e % q) % (m as int),
{
    let mi = m as int;
    let t = e / q;
    let r = e % q;
    lemma_fundamental_div_mod(e as int, q as int);
    assert(e == q * t + r);
    lemma_pow_adds(g as int, q * t, r);
    lemma_pow_multiplies(g as int, q, t);
    lemma_pow_one_mod(pow(g as int, q), t, mi);
    lemma_mul_mod_noop_left(pow(pow(g as int, q), t), pow(g as int, r), mi);
    assert(1 * pow(g as int, r) == pow(g as int, r));
}

/// `x == 1 (mod m)` gives `x^t == 1 (mod m)`.
pub proof fn lemma_pow_one_mod(x: int, t: nat, m: int)
    requires
        m > 1,
        x % m == 1,
    ensures
        pow(x, t) % m == 1,
    decreases t,
{
    if t == 0 {
        lemma_pow0(x);
        lemma_small_mod(1, m as nat);
    } else {
        lemma_pow_one_mod(x, (t - 1) as nat, m);
        lemma_pow_adds(x, 1, (t - 1) as nat);
        lemma_pow1(x);
        lemma_mul_mod_noop_left(x, pow(x, (t - 1) as nat), m);
        lemma_mul_mod_noop_right(1, pow(x, (t - 1) as nat), m);
    }
}

/// `(b mod m)^e mod m == b^e mod m`, and powers of powers multiply.
pub proof fn lemma_pow_mod_of_pow_mod(b: nat, e1: nat, e2: nat, m: nat)
    requires
        m > 0,
    ensures
        pow_mod(pow_mod(b, e1, m), e2, m) == pow_mod(b, e1 * e2, m),
{
    vstd::arithmetic::power::lemma_pow_mod_noop(pow(b as int, e1), e2, m as int);
    lemma_pow_multiplies(b as int, e1, e2);
    lemma_pow_nonneg(b, e1);
}

/// A power of a natural number is not negative.
pub proof fn lemma_pow_nonneg(b: nat, e: nat)
    ensures
        pow(b as int, e) >= 0,
{
    if b > 0 {
        lemma_pow_positive(b as int, e);
    } else if e > 0 {
        vstd::arithmetic::power::lemma0_pow(e);
    } else {
        lemma_pow0(b as int);
    }
}

} // verus!
