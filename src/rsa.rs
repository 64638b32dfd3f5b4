use crate::arith::{
    gcd, inverse_of, is_mod_inverse, is_prime, lemma_mod_inverse_unique, lemma_odd_times_odd,
    lemma_small_bit_len, pow_mod,
};
use crate::bignum::{
    be_bytes, be_value, from_u64, gcd_of, invert, less_than, minus, modulo, plus, times, BigNat,
};
use crate::error::CryptoError;
use crate::params::{is_prime_candidate, lookup_modulus_bits, modulus_bits, random_prime};
use crate::theorems::{lemma_euclid, lemma_fermat_unit, lemma_pow_mod_of_pow_mod, lemma_pow_one_mod};
use crate::traits::PublicEnc;
use rug::rand::RandState;
use vstd::arithmetic::div_mod::{
    lemma_add_mod_noop, lemma_fundamental_div_mod, lemma_mod_mod, lemma_mod_multiples_basic,
    lemma_mod_multiples_vanish, lemma_mul_mod_noop_left, lemma_mul_mod_noop_right,
    lemma_small_mod,
};
use vstd::arithmetic::power::{lemma_pow1, lemma_pow_adds, lemma_pow_multiplies, pow};
use vstd::prelude::*;

verus! {

/// The public exponent.
pub const DEFAULT_E: u64 = 65537;

/// Rounds of the prime test for each RSA prime.
pub const RSA_PRIME_TEST_ROUNDS: u32 = 12;

/// Pairs of primes drawn before key generation gives up.
pub const RSA_MAX_KEY_ATTEMPTS: u32 = 64;

/// The RSA public key.
#[derive(Debug)]
pub struct RSAPublicKey {
    /// The modulus `n = p * q`.
    pub n: BigNat,
    /// The public exponent.
    pub e: BigNat,
}

/// The RSA secret key, in the form that decryption by the Chinese remainder
/// theorem uses.
#[derive(Debug)]
pub struct RSASecretKey {
    pub p: BigNat,
    pub q: BigNat,
    /// `d mod (p - 1)`.
    pub d_p: BigNat,
    /// `d mod (q - 1)`.
    pub d_q: BigNat,
    /// `q^-1 mod p`.
    pub q_inv: BigNat,
}

impl RSAPublicKey {
    pub fn new(n: BigNat, e: BigNat) -> (r: Self)
        ensures
            r.n == n,
            r.e == e,
    {
        Self { n, e }
    }

    /// The modulus is odd, as the exponentiation needs.
    pub open spec fn usable(self) -> bool {
        self.n@ % 2 == 1
    }
}

impl RSASecretKey {
    pub fn new(p: BigNat, q: BigNat, d_p: BigNat, d_q: BigNat, q_inv: BigNat) -> (r: Self)
        ensures
            r.p == p,
            r.q == q,
            r.d_p == d_p,
            r.d_q == d_q,
            r.q_inv == q_inv,
    {
        Self { p, q, d_p, d_q, q_inv }
    }

    /// Both primes are odd, as the exponentiation needs.
    pub open spec fn usable(self) -> bool {
        &&& self.p@ % 2 == 1
        &&& self.q@ % 2 == 1
    }
}

/// `(p - 1)(q - 1)`.
pub open spec fn rsa_phi(sk: RSASecretKey) -> nat {
    ((sk.p@ - 1) * (sk.q@ - 1)) as nat
}

/// The algebraic relations between the two keys of a pair.
pub open spec fn rsa_key_relations(sk: RSASecretKey, pk: RSAPublicKey) -> bool {
    let p = sk.p@;
    let q = sk.q@;
    let phi = rsa_phi(sk);
    &&& p > 2
    &&& q > 2
    &&& p != q
    &&& pk.n@ == p * q
    &&& pk.e@ == DEFAULT_E
    &&& gcd(pk.e@, phi) == 1
    &&& exists|d: nat|
        #![trigger is_mod_inverse(pk.e@, d, phi)]
        is_mod_inverse(pk.e@, d, phi) && sk.d_p@ == d % ((p - 1) as nat) && sk.d_q@ == d % ((
        q - 1) as nat)
    &&& is_mod_inverse(q, sk.q_inv@, p)
}

/// `m^e mod n`.
pub open spec fn rsa_encrypt_value(pk: RSAPublicKey, m: nat) -> nat {
    pow_mod(m, pk.e@, pk.n@)
}

/// Decryption by the Chinese remainder theorem:
/// `m_q + ((m_p - m_q) * q_inv mod p) * q`.
pub open spec fn rsa_decrypt_value(sk: RSASecretKey, c: nat) -> nat {
    let p = sk.p@;
    let q = sk.q@;
    let m_p = pow_mod(c % p, sk.d_p@, p);
    let m_q = pow_mod(c % q, sk.d_q@, q);
    let h = (((m_p - m_q) * sk.q_inv@) % (p as int)) as nat;
    h * q + m_q
}

pub struct RSA;

impl RSA {
    pub fn get_mod_bits(sec_level: u64) -> (r: Result<u64, CryptoError>)
        ensures
            r == crate::params::modulus_bits_result(sec_level),
    {
        lookup_modulus_bits(sec_level)
    }

    /// The key pair of two primes: `n = pq`, `e = 65537`,
    /// `d = e^-1 mod (p - 1)(q - 1)` reduced modulo `p - 1` and `q - 1`, and
    /// `q^-1 mod p`. The primes must differ and `e` must be coprime to
    /// `(p - 1)(q - 1)` (else `ParameterGenerationFailed`), and `q` must be
    /// invertible modulo `p` (else `NoModularInverse`).
    pub fn key_pair_from_primes(p: BigNat, q: BigNat) -> (r: Result<
        (RSASecretKey, RSAPublicKey),
        CryptoError,
    >)
        requires
            p@ > 2,
            q@ > 2,
        ensures
            ({
                let phi = ((p@ - 1) * (q@ - 1)) as nat;
                let pairs = p@ != q@ && gcd(DEFAULT_E as nat, phi) == 1;
                &&& !pairs ==> r == Err::<(RSASecretKey, RSAPublicKey), _>(
                    CryptoError::ParameterGenerationFailed,
                )
                &&& (pairs && gcd(q@, p@) != 1) ==> r == Err::<(RSASecretKey, RSAPublicKey), _>(
                    CryptoError::NoModularInverse,
                )
                &&& (pairs && gcd(q@, p@) == 1) ==> (r matches Ok((sk, pk)) && {
                    let d = inverse_of(DEFAULT_E as nat, phi);
                    &&& sk.p@ == p@
                    &&& sk.q@ == q@
                    &&& pk.n@ == p@ * q@
                    &&& pk.e@ == DEFAULT_E
                    &&& sk.d_p@ == d % ((p@ - 1) as nat)
                    &&& sk.d_q@ == d % ((q@ - 1) as nat)
                    &&& sk.q_inv@ == inverse_of(q@, p@)
                    &&& rsa_key_relations(sk, pk)
                })
            }),
    {
        let e = from_u64(DEFAULT_E);
        let one = from_u64(1);
        if !less_than(&p, &q) && !less_than(&q, &p) {
            return Err(CryptoError::ParameterGenerationFailed);
        }
        let p_minus_one = minus(&p, &one);
        let q_minus_one = minus(&q, &one);
        let phi_n = times(&p_minus_one, &q_minus_one);
        let g = gcd_of(&e, &phi_n);
        if less_than(&g, &one) || less_than(&one, &g) {
            return Err(CryptoError::ParameterGenerationFailed);
        }
        assert(phi_n@ > 0) by (nonlinear_arith)
            requires
                phi_n@ == p_minus_one@ * q_minus_one@,
                p_minus_one@ > 0,
                q_minus_one@ > 0,
        ;
        let d = match invert(&e, &phi_n) {
            Some(d) => d,
            None => {
                return Err(CryptoError::NoModularInverse);
            },
        };
        let q_inv = match invert(&q, &p) {
            Some(v) => v,
            None => {
                return Err(CryptoError::NoModularInverse);
            },
        };
        proof {
            lemma_mod_inverse_unique(e@, d@, inverse_of(e@, phi_n@), phi_n@);
            lemma_mod_inverse_unique(q@, q_inv@, inverse_of(q@, p@), p@);
        }
        let n = times(&p, &q);
        let d_p = modulo(&d, &p_minus_one);
        let d_q = modulo(&d, &q_minus_one);
        let pk = RSAPublicKey::new(n, e);
        let sk = RSASecretKey::new(p, q, d_p, d_q, q_inv);
        proof {
            assert(is_mod_inverse(pk.e@, d@, rsa_phi(sk)));
        }
        Ok((sk, pk))
    }
}

proof fn lemma_crt_difference(m_p: nat, m_q: nat, p: nat, q_inv: nat)
    requires
        p > 0,
        m_p < p,
    ensures
        (((m_p + p - m_q % p) as nat * q_inv) % p) as int == ((m_p - m_q) * q_inv) % (p as int),
{
    let a: int = (m_q / p) as int;
    let b: int = (m_q % p) as int;
    let pp: int = p as int;
    let qi: int = q_inv as int;
    let mp: int = m_p as int;
    let mq: int = m_q as int;
    vstd::arithmetic::div_mod::lemma_fundamental_div_mod(mq, pp);
    assert(mq == pp * a + b);
    let x: int = (mp - mq) * qi;
    let j: int = (1 + a) * qi;
    assert((mp + pp - b) * qi == pp * j + x) by (nonlinear_arith)
        requires
            mq == pp * a + b,
            x == (mp - mq) * qi,
            j == (1 + a) * qi,
    ;
    lemma_mod_multiples_vanish(j, x, pp);
}

impl PublicEnc for RSA {
    type SecretKey = RSASecretKey;
    type PublicKey = RSAPublicKey;

    open spec fn public_key_usable(pk: RSAPublicKey) -> bool {
        pk.usable()
    }

    open spec fn key_pair_usable(pk: RSAPublicKey, sk: RSASecretKey) -> bool {
        sk.usable()
    }

    /// Draws two distinct primes of half the modulus size each until
    /// `gcd(e, (p - 1)(q - 1)) == 1`, then derives the CRT parameters.
    fn keygen(sec_level: u64, rng: &mut RandState<'_>) -> (r: Result<
        (RSASecretKey, RSAPublicKey),
        CryptoError,
    >)
        ensures
            modulus_bits(sec_level) is None ==> r == Err::<(RSASecretKey, RSAPublicKey), _>(
                CryptoError::InvalidSecurityLevel,
            ),
            r matches Err(e) ==> modulus_bits(sec_level) is None || e
                == CryptoError::ParameterGenerationFailed || e == CryptoError::NoModularInverse,
            r matches Ok((sk, pk)) ==> {
                let mod_bits = modulus_bits(sec_level)->0;
                &&& rsa_key_relations(sk, pk)
                &&& is_prime_candidate(sk.p@, (mod_bits / 2) as nat, RSA_PRIME_TEST_ROUNDS as nat)
                &&& is_prime_candidate(
                    sk.q@,
                    (mod_bits - mod_bits / 2) as nat,
                    RSA_PRIME_TEST_ROUNDS as nat,
                )
                &&& pk.usable()
                &&& sk.usable()
            },
    {
        let mod_bits = RSA::get_mod_bits(sec_level)?;
        let p_bits: u64 = mod_bits >> 1;
        assert(p_bits == mod_bits / 2) by (bit_vector)
            requires
                p_bits == mod_bits >> 1,
        ;
        let q_bits: u64 = mod_bits - p_bits;
        let mut attempt: u32 = 0;
        while attempt < RSA_MAX_KEY_ATTEMPTS
            invariant
                modulus_bits(sec_level) == Some(mod_bits),
                p_bits == mod_bits / 2,
                q_bits == mod_bits - p_bits,
                512 <= p_bits <= 7680,
                512 <= q_bits <= 7680,
            decreases RSA_MAX_KEY_ATTEMPTS - attempt,
        {
            attempt = attempt + 1;
            let p = random_prime(p_bits as u32, RSA_PRIME_TEST_ROUNDS, rng)?;
            let q = random_prime(q_bits as u32, RSA_PRIME_TEST_ROUNDS, rng)?;
            proof {
                lemma_small_bit_len(p@);
                lemma_small_bit_len(q@);
            }
            let ghost (pv, qv) = (p@, q@);
            match RSA::key_pair_from_primes(p, q) {
                Ok((sk, pk)) => {
                    proof {
                        lemma_odd_times_odd(pv, qv);
                    }
                    return Ok((sk, pk));
                },
                Err(CryptoError::NoModularInverse) => {
                    return Err(CryptoError::NoModularInverse);
                },
                Err(_) => {},
            }
        }
        Err(CryptoError::ParameterGenerationFailed)
    }

    /// Requires `1 < m < n`, then returns the big-endian bytes of `m^e mod n`.
    fn encrypt(pk: &RSAPublicKey, plaintext: &[u8], rng: &mut RandState<'_>) -> (r: Result<
        Vec<u8>,
        CryptoError,
    >)
        ensures
            (1 < be_value(plaintext@) < pk.n@) ==> (r matches Ok(c) && c@ == be_bytes(
                rsa_encrypt_value(*pk, be_value(plaintext@)),
            )),
            !(1 < be_value(plaintext@) < pk.n@) ==> r == Err::<Vec<u8>, _>(
                CryptoError::MessageOutOfRange,
            ),
    {
        let m = BigNat::from_bytes_be(plaintext);
        let one = from_u64(1);
        if !less_than(&m, &pk.n) || !less_than(&one, &m) {
            return Err(CryptoError::MessageOutOfRange);
        }
        let c = m.pow_mod_secure(&pk.e, &pk.n);
        Ok(c.to_bytes_be())
    }

    /// Recombines `c^d_p mod p` and `c^d_q mod q`; every ciphertext is accepted.
    fn decrypt(pk: &RSAPublicKey, sk: &RSASecretKey, ciphertext: &[u8]) -> (r: Result<
        Vec<u8>,
        CryptoError,
    >)
        ensures
            r matches Ok(m) && m@ == be_bytes(rsa_decrypt_value(*sk, be_value(ciphertext@))),
    {
        let c = BigNat::from_bytes_be(ciphertext);
        let c_p = modulo(&c, &sk.p);
        let m_p = c_p.pow_mod_secure(&sk.d_p, &sk.p);
        let c_q = modulo(&c, &sk.q);
        let m_q = c_q.pow_mod_secure(&sk.d_q, &sk.q);
        let m_q_p = modulo(&m_q, &sk.p);
        let shifted = plus(&m_p, &sk.p);
        let diff = minus(&shifted, &m_q_p);
        let h = modulo(&times(&diff, &sk.q_inv), &sk.p);
        let m = plus(&times(&h, &sk.q), &m_q);
        proof {
            lemma_crt_difference(m_p@, m_q@, sk.p@, sk.q_inv@);
        }
        Ok(m.to_bytes_be())
    }
}

/// For a prime `p` and an exponent `f == 1 (mod p - 1)`,
/// `m^f == m (mod p)`.
proof fn lemma_exponent_one_mod_prime(m: nat, p: nat, f: nat)
    requires
        is_prime(p),
        p > 2,
        f % ((p - 1) as nat) == 1,
    ensures
        pow(m as int, f) % (p as int) == (m as int) % (p as int),
{
    let pi = p as int;
    let p1 = (p - 1) as nat;
    lemma_fundamental_div_mod(f as int, p1 as int);
    let t = f / p1;
    assert(f == 1 + p1 * t);
    lemma_pow_adds(m as int, 1, p1 * t);
    lemma_pow1(m as int);
    lemma_mul_mod_noop_left(m as int, pow(m as int, p1 * t), pi);
    if (m as int) % pi == 0 {
        assert(0 * pow(m as int, p1 * t) == 0);
        lemma_small_mod(0, p);
    } else {
        lemma_fermat_unit(m, p);
        lemma_pow_multiplies(m as int, p1, t);
        lemma_pow_one_mod(pow(m as int, p1), t, pi);
        lemma_mul_mod_noop_right(m as int, pow(m as int, p1 * t), pi);
        assert((m as int) * 1 == m);
    }
}

/// Each CRT half recovers the message modulo its prime.
proof fn lemma_crt_half(m: nat, e: nat, d: nat, d_p: nat, p: nat, other: nat)
    requires
        is_prime(p),
        p > 2,
        other > 2,
        (e * d) % ((p - 1) * (other - 1)) as nat == 1,
        d_p == d % ((p - 1) as nat),
    ensures
        pow_mod(pow_mod(m, e, p * other) % p, d_p, p) == m % p,
{
    let p1 = (p - 1) as nat;
    let o1 = (other - 1) as nat;
    let n = p * other;
    // (e * d_p) % (p - 1) == 1
    lemma_mod_mod((e * d) as int, p1 as int, o1 as int);
    lemma_mul_mod_noop_right(e as int, d as int, p1 as int);
    lemma_small_mod(1, p1);
    // c mod p == m^e mod p
    lemma_mod_mod(pow(m as int, e), p as int, other as int);
    lemma_pow_mod_of_pow_mod(m, e, d_p, p);
    lemma_exponent_one_mod_prime(m, p, e * d_p);
}

/// Two residues that agree modulo two distinct primes agree modulo their
/// product.
proof fn lemma_crt_unique(a: nat, b: nat, p: nat, q: nat)
    requires
        is_prime(p),
        is_prime(q),
        p != q,
        a < p * q,
        b < p * q,
        a % p == b % p,
        a % q == b % q,
    ensures
        a == b,
{
    let pi = p as int;
    let qi = q as int;
    let d = a as int - b as int;
    lemma_fundamental_div_mod(a as int, pi);
    lemma_fundamental_div_mod(b as int, pi);
    let s = (a as int) / pi - (b as int) / pi;
    assert(d == pi * s) by (nonlinear_arith)
        requires
            a == pi * ((a as int) / pi) + (a as int) % pi,
            b == pi * ((b as int) / pi) + (b as int) % pi,
            (a as int) % pi == (b as int) % pi,
            d == a - b,
            s == (a as int) / pi - (b as int) / pi,
    ;
    lemma_fundamental_div_mod(a as int, qi);
    lemma_fundamental_div_mod(b as int, qi);
    let u = (a as int) / qi - (b as int) / qi;
    assert(pi * s == qi * u) by (nonlinear_arith)
        requires
            a == qi * ((a as int) / qi) + (a as int) % qi,
            b == qi * ((b as int) / qi) + (b as int) % qi,
            (a as int) % qi == (b as int) % qi,
            d == a - b,
            d == pi * s,
            u == (a as int) / qi - (b as int) / qi,
    ;
    lemma_mod_multiples_basic(u, qi);
    assert((pi * s) % qi == 0) by {
        assert(qi * u == u * qi) by (nonlinear_arith);
    }
    lemma_euclid(q, pi, s);
    if pi % qi == 0 {
        if q < p {
            assert(p % q != 0);
        } else {
            lemma_small_mod(p, q);
        }
    }
    lemma_fundamental_div_mod(s, qi);
    let t = s / qi;
    assert(d == pi * qi * t) by (nonlinear_arith)
        requires
            d == pi * s,
            s == qi * t + s % qi,
            s % qi == 0,
    ;
    assert(pi * qi == p * q);
    if t > 0 {
        assert(pi * qi * t >= pi * qi) by (nonlinear_arith)
            requires
                t > 0,
                pi > 0,
                qi > 0,
        ;
    } else if t < 0 {
        assert(pi * qi * t <= -(pi * qi)) by (nonlinear_arith)
            requires
                t < 0,
                pi > 0,
                qi > 0,
        ;
    } else {
        assert(d == 0) by (nonlinear_arith)
            requires
                d == pi * qi * t,
                t == 0,
        ;
    }
}

/// Decryption undoes encryption: for a generated key pair whose `p` and `q`
/// are prime, every message below `n` comes back.
pub proof fn lemma_rsa_round_trip(sk: RSASecretKey, pk: RSAPublicKey, m: nat)
    requires
        rsa_key_relations(sk, pk),
        is_prime(sk.p@),
        is_prime(sk.q@),
        m < pk.n@,
    ensures
        rsa_decrypt_value(sk, rsa_encrypt_value(pk, m)) == m,
{
    let p = sk.p@;
    let q = sk.q@;
    let e = pk.e@;
    let pi = p as int;
    let qi = q as int;
    let phi = rsa_phi(sk);
    let d = choose|d: nat|
        is_mod_inverse(e, d, phi) && sk.d_p@ == d % ((p - 1) as nat) && sk.d_q@ == d % ((q - 1) as nat);
    assert(phi > 1) by (nonlinear_arith)
        requires
            phi == (p - 1) * (q - 1),
            p > 2,
            q > 2,
    ;
    lemma_small_mod(1, phi);
    let c = rsa_encrypt_value(pk, m);
    lemma_crt_half(m, e, d, sk.d_p@, p, q);
    assert((q - 1) * (p - 1) == (p - 1) * (q - 1)) by (nonlinear_arith);
    assert(q * p == p * q) by (nonlinear_arith);
    lemma_crt_half(m, e, d, sk.d_q@, q, p);
    let m_p = pow_mod(c % p, sk.d_p@, p);
    let m_q = pow_mod(c % q, sk.d_q@, q);
    assert(m_p == m % p);
    assert(m_q == m % q);
    let diff: int = m_p - m_q;
    let qv: int = sk.q_inv@ as int;
    let x = diff * qv;
    let h = x % pi;
    let big_m = h * qi + m_q;
    // big_m == m (mod q)
    lemma_mod_multiples_vanish(h, m_q as int, qi);
    assert(h * qi + m_q == qi * h + m_q) by (nonlinear_arith);
    lemma_small_mod(m_q, q);
    lemma_mod_mod(m as int, qi, 1);
    // big_m == m (mod p)
    lemma_mul_mod_noop_left(x, qi, pi);
    assert(x * qi == diff * (qv * qi)) by (nonlinear_arith)
        requires
            x == diff * qv,
    ;
    lemma_mul_mod_noop_right(diff, qv * qi, pi);
    assert(qv * qi == q * sk.q_inv@) by (nonlinear_arith)
        requires
            qv == sk.q_inv@,
            qi == q,
    ;
    lemma_small_mod(1, p);
    assert((m_p - m_q) * 1 == m_p - m_q);
    lemma_add_mod_noop(h * qi, m_q as int, pi);
    lemma_add_mod_noop(m_p - m_q, m_q as int, pi);
    lemma_small_mod(m_p, p);
    // both lie below n
    assert(0 <= h < pi);
    assert(0 <= big_m < pi * qi) by (nonlinear_arith)
        requires
            0 <= h < pi,
            0 <= m_q < qi,
            big_m == h * qi + m_q,
    ;
    lemma_crt_unique(big_m as nat, m, p, q);
}

} // verus!
