use vstd::arithmetic::div_mod::{
    lemma_fundamental_div_mod, lemma_mod_multiples_basic, lemma_mul_mod_noop_left,
    lemma_mul_mod_noop_right, lemma_small_mod,
};
use vstd::arithmetic::power::pow;
use vstd::prelude::*;

verus! {

/// `b` raised to `e`, reduced modulo `m`.
pub open spec fn pow_mod(b: nat, e: nat, m: nat) -> nat
    recommends
        m > 0,
{
    (pow(b as int, e) % (m as int)) as nat
}

/// Greatest common divisor, by Euclid's recursion (`gcd(a, 0) == a`).
pub open spec fn gcd(a: nat, b: nat) -> nat
    decreases b,
{
    if b == 0 {
        a
    } else {
        gcd(b, a % b)
    }
}

/// `a` divides `b`.
pub open spec fn divides(a: nat, b: nat) -> bool {
    a > 0 && b % a == 0
}

pub open spec fn is_prime(n: nat) -> bool {
    &&& n > 1
    &&& forall|d: nat| 1 < d < n ==> #[trigger] (n % d) != 0
}

/// The number of significant bits of `n` (zero has none).
pub open spec fn bit_len(n: nat) -> nat
    decreases n,
{
    if n == 0 {
        0
    } else {
        1 + bit_len(n / 2)
    }
}

/// `w` is an inverse of `a` modulo `m`, in the range `[0, m)`.
pub open spec fn is_mod_inverse(a: nat, w: nat, m: nat) -> bool {
    &&& w < m
    &&& (a * w) % m == 1nat % m
}

/// The inverse of `a` modulo `m`, where one exists.
pub open spec fn inverse_of(a: nat, m: nat) -> nat {
    choose|w: nat| is_mod_inverse(a, w, m)
}

pub proof fn lemma_odd_times_odd(a: nat, b: nat)
    requires
        a % 2 == 1,
        b % 2 == 1,
    ensures
        (a * b) % 2 == 1,
{
    let i = a / 2;
    let j = b / 2;
    assert(a * b == 2 * (2 * i * j + i + j) + 1) by (nonlinear_arith)
        requires
            a == 2 * i + 1,
            b == 2 * j + 1,
    ;
}

/// Numbers below four have at most two significant bits.
pub proof fn lemma_small_bit_len(n: nat)
    ensures
        n < 2 ==> bit_len(n) <= 1,
        n < 4 ==> bit_len(n) <= 2,
{
    assert(bit_len(0) == 0);
    assert(bit_len(1) == 1 + bit_len(0));
    assert(bit_len(2) == 1 + bit_len(1));
    assert(bit_len(3) == 1 + bit_len(1));
}

proof fn lemma_gcd_divides(a: nat, b: nat)
    requires
        a > 0 || b > 0,
    ensures
        gcd(a, b) > 0,
        a % gcd(a, b) == 0,
        b % gcd(a, b) == 0,
    decreases b,
{
    if b == 0 {
        lemma_mod_self_zero(a);
    } else {
        lemma_gcd_divides(b, a % b);
        let g = gcd(b, a % b);
        lemma_fundamental_div_mod(a as int, b as int);
        let t = a / b;
        let u = b / g;
        let v = (a % b) / g;
        lemma_fundamental_div_mod(b as int, g as int);
        lemma_fundamental_div_mod((a % b) as int, g as int);
        assert(a == g * (u * t + v)) by (nonlinear_arith)
            requires
                a == b * t + a % b,
                b == g * u,
                a % b == g * v,
        ;
        lemma_mod_multiples_basic((u * t + v) as int, g as int);
        assert(g * (u * t + v) == (u * t + v) * g) by (nonlinear_arith);
    }
}

proof fn lemma_mod_self_zero(a: nat)
    requires
        a > 0,
    ensures
        a % a == 0,
        0nat % a == 0,
{
    lemma_mod_multiples_basic(1, a as int);
    lemma_small_mod(0, a);
}

/// A common divisor of `a` and `b` divides `gcd(a, b)`.
pub proof fn lemma_common_divisor_divides_gcd(a: nat, b: nat, d: nat)
    requires
        d > 0,
        a % d == 0,
        b % d == 0,
    ensures
        gcd(a, b) % d == 0,
    decreases b,
{
    if b > 0 {
        lemma_fundamental_div_mod(a as int, b as int);
        lemma_fundamental_div_mod(a as int, d as int);
        lemma_fundamental_div_mod(b as int, d as int);
        let ai = a as int;
        let bi = b as int;
        let di = d as int;
        let ri = (a % b) as int;
        let qa = (a / d) as int;
        let qb = (b / d) as int;
        let qab = (a / b) as int;
        let x = qa - qb * qab;
        assert(ri == di * x) by (nonlinear_arith)
            requires
                ai == bi * qab + ri,
                ai == di * qa,
                bi == di * qb,
                x == qa - qb * qab,
        ;
        lemma_mod_multiples_basic(x, di);
        assert(di * x == x * di) by (nonlinear_arith);
        lemma_common_divisor_divides_gcd(b, a % b, d);
    }
}

/// Being coprime does not depend on the order of the two numbers.
pub proof fn lemma_coprime_symmetric(a: nat, b: nat)
    requires
        gcd(a, b) == 1,
    ensures
        gcd(b, a) == 1,
{
    if a == 0 && b == 0 {
        assert(gcd(0, 0) == 0);
    }
    lemma_gcd_divides(b, a);
    let g = gcd(b, a);
    lemma_common_divisor_divides_gcd(a, b, g);
    if g > 1 {
        lemma_small_mod(1, g);
    }
}

/// Below a prime, every positive number is coprime to it.
pub proof fn lemma_coprime_below_prime(s: nat, q: nat)
    requires
        is_prime(q),
        0 < s < q,
    ensures
        gcd(s, q) == 1,
{
    lemma_gcd_divides(s, q);
    let g = gcd(s, q);
    if g != 1 {
        lemma_small_mod(s, g);
        assert(g <= s) by {
            if g > s {
                lemma_small_mod(s, g);
            }
        }
        assert(q % g != 0);
    }
}

/// An inverse modulo `m` is unique.
pub proof fn lemma_mod_inverse_unique(a: nat, w1: nat, w2: nat, m: nat)
    requires
        is_mod_inverse(a, w1, m),
        is_mod_inverse(a, w2, m),
    ensures
        w1 == w2,
{
    let mi = m as int;
    if m > 1 {
        let x: int = w1 as int;
        let y: int = w2 as int;
        let ai: int = a as int;
        // x = x * (a * y mod m) = (x * a) * y = (a * x mod m) * y = y, all mod m
        lemma_mul_mod_noop_right(x, ai * y, mi);
        lemma_mul_mod_noop_left(ai * x, y, mi);
        assert(x * (ai * y) == (ai * x) * y) by (nonlinear_arith);
        assert(1int % mi == 1) by {
            lemma_small_mod(1, m);
        }
        lemma_small_mod(w1, m);
        lemma_small_mod(w2, m);
        assert(x * 1 == x);
        assert(1 * y == y);
    }
}

} // verus!
