use crate::arith::{
    bit_len, gcd, inverse_of, is_mod_inverse, is_prime, lemma_common_divisor_divides_gcd,
    lemma_coprime_symmetric, lemma_mod_inverse_unique, lemma_odd_times_odd,
    lemma_small_bit_len, pow_mod,
};
use crate::theorems::{lemma_euclid, lemma_fermat_unit, lemma_pow_nonneg, lemma_pow_one_mod};
use vstd::arithmetic::div_mod::{
    lemma_fundamental_div_mod, lemma_fundamental_div_mod_converse, lemma_mod_multiples_basic,
    lemma_mod_multiples_vanish, lemma_mul_mod_noop_left, lemma_mul_mod_noop_right,
    lemma_small_mod,
};
use vstd::arithmetic::power::{
    lemma_pow0, lemma_pow1, lemma_pow_adds, lemma_pow_mod_noop, lemma_pow_multiplies, pow,
};
use crate::bignum::{
    be_bytes, be_value, from_u64, gcd_of, invert, less_than, minus, modulo, plus, quotient,
    random_bits, significant_bits, times, BigNat,
};
use crate::error::CryptoError;
use crate::params::{is_prime_candidate, lookup_modulus_bits, modulus_bits, random_prime};
use crate::traits::PublicEnc;
use rug::rand::RandState;
use vstd::prelude::*;

verus! {

/// Rounds of the prime test for `p` and `q`.
pub const PAILLIER_PRIME_TEST_ROUNDS: u32 = 12;

/// Pairs of primes drawn before key generation gives up.
pub const PAILLIER_MAX_KEY_ATTEMPTS: u32 = 64;

/// Draws of the blinding factor `r` before encryption gives up.
pub const PAILLIER_MAX_SAMPLES: u32 = 256;

/// The Paillier public key.
#[derive(Debug)]
pub struct PaillierPublicKey {
    /// `n = p * q`.
    pub n: BigNat,
    /// `n^2`.
    pub n_square: BigNat,
    /// `n + 1`.
    pub g: BigNat,
}

/// The Paillier secret key.
#[derive(Debug)]
pub struct PaillierSecretKey {
    /// `(p - 1)(q - 1)`.
    pub lambda: BigNat,
    /// `lambda^-1 mod n`.
    pub mu: BigNat,
}

impl PaillierPublicKey {
    pub fn new(n: BigNat, n_square: BigNat, g: BigNat) -> (r: Self)
        ensures
            r.n == n,
            r.n_square == n_square,
            r.g == g,
    {
        PaillierPublicKey { n, n_square, g }
    }

    /// `n` is positive and `n^2` odd, as encryption and decryption need.
    pub open spec fn usable(self) -> bool {
        &&& self.n@ > 0
        &&& self.n_square@ % 2 == 1
    }
}

impl PaillierSecretKey {
    pub fn new(lambda: BigNat, mu: BigNat) -> (r: Self)
        ensures
            r.lambda == lambda,
            r.mu == mu,
    {
        PaillierSecretKey { lambda, mu }
    }
}

/// The relations between a key pair and its two primes.
pub open spec fn paillier_keys_from(sk: PaillierSecretKey, pk: PaillierPublicKey, p: nat, q: nat) -> bool {
    let n = pk.n@;
    &&& p > 2
    &&& q > 2
    &&& p != q
    &&& n == p * q
    &&& pk.n_square@ == n * n
    &&& pk.g@ == n + 1
    &&& sk.lambda@ == (p - 1) * (q - 1)
    &&& gcd(n, sk.lambda@) == 1
    &&& is_mod_inverse(sk.lambda@, sk.mu@, n)
}

/// The key pair comes from two distinct primes of `half` bits each.
pub open spec fn paillier_generated(sk: PaillierSecretKey, pk: PaillierPublicKey, half: nat) -> bool {
    exists|p: nat, q: nat|
        #![trigger paillier_keys_from(sk, pk, p, q)]
        paillier_keys_from(sk, pk, p, q) && is_prime_candidate(
            p,
            half,
            PAILLIER_PRIME_TEST_ROUNDS as nat,
        ) && is_prime_candidate(q, half, PAILLIER_PRIME_TEST_ROUNDS as nat)
}

/// `g^m * r^n mod n^2`.
pub open spec fn paillier_encrypt_value(pk: PaillierPublicKey, m: nat, r: nat) -> nat {
    (pow_mod(pk.g@, m, pk.n_square@) * pow_mod(r, pk.n@, pk.n_square@)) % pk.n_square@
}

/// `L(c^lambda mod n^2) * mu mod n`, with `L(u) = (u - 1) / n` (and
/// `L(0) = 0`).
pub open spec fn paillier_decrypt_value(pk: PaillierPublicKey, sk: PaillierSecretKey, c: nat) -> nat {
    let u = pow_mod(c, sk.lambda@, pk.n_square@);
    let l: nat = if u == 0 {
        0
    } else {
        ((u - 1) as nat) / pk.n@
    };
    (l * sk.mu@) % pk.n@
}

/// `c` is an encryption of `m` with the blinding factor `r`.
pub open spec fn paillier_encrypted_with(pk: PaillierPublicKey, m: nat, c: Seq<u8>, r: nat) -> bool {
    &&& bit_len(r) == bit_len(pk.n@)
    &&& gcd(r, pk.n@) == 1
    &&& c == be_bytes(paillier_encrypt_value(pk, m, r))
}

/// `c` is an encryption of `m`, for some blinding factor.
pub open spec fn paillier_encryption_of(pk: PaillierPublicKey, m: nat, c: Seq<u8>) -> bool {
    exists|r: nat| paillier_encrypted_with(pk, m, c, r)
}

pub struct Paillier;

impl Paillier {
    pub fn get_mod_bits(sec_level: u64) -> (r: Result<u64, CryptoError>)
        ensures
            r == crate::params::modulus_bits_result(sec_level),
    {
        lookup_modulus_bits(sec_level)
    }

    /// The encryption of `plaintext` with the blinding factor `r`:
    /// `g^m * r^n mod n^2`; the message must lie below `n`.
    pub fn encrypt_with_blinding(pk: &PaillierPublicKey, plaintext: &[u8], r: &BigNat) -> (res: Result<
        Vec<u8>,
        CryptoError,
    >)
        requires
            pk.usable(),
        ensures
            be_value(plaintext@) >= pk.n@ ==> res == Err::<Vec<u8>, _>(
                CryptoError::MessageOutOfRange,
            ),
            be_value(plaintext@) < pk.n@ ==> (res matches Ok(c) && c@ == be_bytes(
                paillier_encrypt_value(*pk, be_value(plaintext@), r@),
            )),
    {
        let m = BigNat::from_bytes_be(plaintext);
        if !less_than(&m, &pk.n) {
            return Err(CryptoError::MessageOutOfRange);
        }
        let g_m = pk.g.pow_mod_secure(&m, &pk.n_square);
        let r_n = r.pow_mod_secure(&pk.n, &pk.n_square);
        let c = modulo(&times(&g_m, &r_n), &pk.n_square);
        Ok(c.to_bytes_be())
    }

    /// The key pair of two primes: `n = pq`, `n^2`, `g = n + 1`,
    /// `lambda = (p - 1)(q - 1)` and `mu = lambda^-1 mod n`. The primes must
    /// differ and `gcd(pq, (p - 1)(q - 1))` must be 1, else
    /// `ParameterGenerationFailed`.
    pub fn key_pair_from_primes(p: BigNat, q: BigNat) -> (r: Result<
        (PaillierSecretKey, PaillierPublicKey),
        CryptoError,
    >)
        requires
            p@ > 2,
            q@ > 2,
        ensures
            ({
                let n = p@ * q@;
                let lambda = ((p@ - 1) * (q@ - 1)) as nat;
                &&& (p@ == q@ || gcd(n, lambda) != 1) ==> r == Err::<
                    (PaillierSecretKey, PaillierPublicKey),
                    _,
                >(CryptoError::ParameterGenerationFailed)
                &&& (p@ != q@ && gcd(n, lambda) == 1) ==> (r matches Ok((sk, pk))
                    && paillier_keys_from(sk, pk, p@, q@) && sk.mu@ == inverse_of(lambda, n))
            }),
    {
        let one = from_u64(1);
        if !less_than(&p, &q) && !less_than(&q, &p) {
            return Err(CryptoError::ParameterGenerationFailed);
        }
        let n = times(&p, &q);
        let lambda = times(&minus(&p, &one), &minus(&q, &one));
        let g = gcd_of(&n, &lambda);
        if less_than(&g, &one) || less_than(&one, &g) {
            return Err(CryptoError::ParameterGenerationFailed);
        }
        assert(n@ > 0) by (nonlinear_arith)
            requires
                n@ == p@ * q@,
                p@ > 2,
                q@ > 2,
        ;
        proof {
            lemma_coprime_symmetric(n@, lambda@);
        }
        let mu = match invert(&lambda, &n) {
            Some(v) => v,
            None => {
                return Err(CryptoError::ParameterGenerationFailed);
            },
        };
        proof {
            lemma_mod_inverse_unique(lambda@, mu@, inverse_of(lambda@, n@), n@);
        }
        let n_square = times(&n, &n);
        let g = plus(&n, &one);
        let pk = PaillierPublicKey::new(n, n_square, g);
        let sk = PaillierSecretKey::new(lambda, mu);
        Ok((sk, pk))
    }

    /// Draws `r` of the bit size of `n` until `gcd(r, n) == 1`.
    fn sample_blinding(n: &BigNat, rng: &mut RandState<'_>) -> (r: Result<BigNat, CryptoError>)
        ensures
            r matches Ok(v) ==> bit_len(v@) == bit_len(n@) && gcd(v@, n@) == 1,
            r matches Err(e) ==> e == CryptoError::ParameterGenerationFailed,
    {
        let one = from_u64(1);
        let r_size = significant_bits(n);
        let mut tries: u32 = 0;
        while tries < PAILLIER_MAX_SAMPLES
            invariant
                one@ == 1,
                r_size == bit_len(n@),
            decreases PAILLIER_MAX_SAMPLES - tries,
        {
            tries = tries + 1;
            let r = random_bits(r_size, rng);
            if significant_bits(&r) == r_size {
                let g = gcd_of(&r, n);
                if !less_than(&g, &one) && !less_than(&one, &g) {
                    return Ok(r);
                }
            }
        }
        Err(CryptoError::ParameterGenerationFailed)
    }
}

impl PublicEnc for Paillier {
    type SecretKey = PaillierSecretKey;
    type PublicKey = PaillierPublicKey;

    open spec fn public_key_usable(pk: PaillierPublicKey) -> bool {
        pk.usable()
    }

    open spec fn key_pair_usable(pk: PaillierPublicKey, sk: PaillierSecretKey) -> bool {
        pk.usable()
    }

    /// Two distinct primes `p`, `q` of half the modulus size each with
    /// `gcd(pq, (p - 1)(q - 1)) == 1`; `n = pq`, `g = n + 1`,
    /// `lambda = (p - 1)(q - 1)` and `mu = lambda^-1 mod n`.
    fn keygen(sec_level: u64, rng: &mut RandState<'_>) -> (r: Result<
        (PaillierSecretKey, PaillierPublicKey),
        CryptoError,
    >)
        ensures
            modulus_bits(sec_level) is None ==> r == Err::<(PaillierSecretKey, PaillierPublicKey), _>(
                CryptoError::InvalidSecurityLevel,
            ),
            r matches Err(e) ==> modulus_bits(sec_level) is None || e
                == CryptoError::ParameterGenerationFailed,
            r matches Ok((sk, pk)) ==> {
                &&& paillier_generated(sk, pk, (modulus_bits(sec_level)->0 / 2) as nat)
                &&& pk.usable()
            },
    {
        let mod_bits = Paillier::get_mod_bits(sec_level)?;
        let p_bits: u64 = mod_bits / 2;
        let q_bits: u64 = mod_bits - p_bits;
        let mut attempt: u32 = 0;
        while attempt < PAILLIER_MAX_KEY_ATTEMPTS
            invariant
                modulus_bits(sec_level) == Some(mod_bits),
                p_bits == mod_bits / 2,
                q_bits == p_bits,
                512 <= p_bits <= 7680,
            decreases PAILLIER_MAX_KEY_ATTEMPTS - attempt,
        {
            attempt = attempt + 1;
            let p = random_prime(p_bits as u32, PAILLIER_PRIME_TEST_ROUNDS, rng)?;
            let q = random_prime(q_bits as u32, PAILLIER_PRIME_TEST_ROUNDS, rng)?;
            proof {
                lemma_small_bit_len(p@);
                lemma_small_bit_len(q@);
            }
            let ghost (pv, qv) = (p@, q@);
            if let Ok((sk, pk)) = Paillier::key_pair_from_primes(p, q) {
                proof {
                    lemma_odd_times_odd(pv, qv);
                    lemma_odd_times_odd(pk.n@, pk.n@);
                    assert(paillier_keys_from(sk, pk, pv, qv));
                    assert(paillier_generated(sk, pk, (mod_bits / 2) as nat));
                }
                return Ok((sk, pk));
            }
        }
        Err(CryptoError::ParameterGenerationFailed)
    }

    /// Requires `m < n`; draws `r` and returns `g^m * r^n mod n^2`.
    fn encrypt(pk: &PaillierPublicKey, plaintext: &[u8], rng: &mut RandState<'_>) -> (r: Result<
        Vec<u8>,
        CryptoError,
    >)
        ensures
            be_value(plaintext@) >= pk.n@ ==> r == Err::<Vec<u8>, _>(
                CryptoError::MessageOutOfRange,
            ),
            r matches Ok(c) ==> be_value(plaintext@) < pk.n@ && paillier_encryption_of(
                *pk,
                be_value(plaintext@),
                c@,
            ),
            r matches Err(e) ==> e == CryptoError::MessageOutOfRange || e
                == CryptoError::ParameterGenerationFailed,
            be_value(plaintext@) < pk.n@ ==> r != Err::<Vec<u8>, _>(
                CryptoError::MessageOutOfRange,
            ),
    {
        let m = BigNat::from_bytes_be(plaintext);
        if !less_than(&m, &pk.n) {
            return Err(CryptoError::MessageOutOfRange);
        }
        let r = Paillier::sample_blinding(&pk.n, rng)?;
        let c = Paillier::encrypt_with_blinding(pk, plaintext, &r);
        proof {
            assert(paillier_encrypted_with(*pk, m@, c->Ok_0@, r@));
        }
        c
    }

    /// Requires `0 < c <= n^2`; returns `L(c^lambda mod n^2) * mu mod n`.
    fn decrypt(pk: &PaillierPublicKey, sk: &PaillierSecretKey, ciphertext: &[u8]) -> (r: Result<
        Vec<u8>,
        CryptoError,
    >)
        ensures
            (be_value(ciphertext@) == 0 || be_value(ciphertext@) > pk.n_square@) ==> r == Err::<
                Vec<u8>,
                _,
            >(CryptoError::CiphertextOutOfRange),
            (0 < be_value(ciphertext@) <= pk.n_square@) ==> (r matches Ok(m) && m@ == be_bytes(
                paillier_decrypt_value(*pk, *sk, be_value(ciphertext@)),
            )),
    {
        let c = BigNat::from_bytes_be(ciphertext);
        if c.is_zero() || less_than(&pk.n_square, &c) {
            return Err(CryptoError::CiphertextOutOfRange);
        }
        let u = c.pow_mod_secure(&sk.lambda, &pk.n_square);
        let l = if u.is_zero() {
            from_u64(0)
        } else {
            let one = from_u64(1);
            quotient(&minus(&u, &one), &pk.n)
        };
        let m = modulo(&times(&l, &sk.mu), &pk.n);
        Ok(m.to_bytes_be())
    }
}

/// `(1 + t n)^j == 1 + j t n (mod n^2)`.
proof fn lemma_one_plus_multiple_pow(t: int, n: int, j: nat)
    requires
        n > 1,
    ensures
        pow(1 + t * n, j) % (n * n) == (1 + j * t * n) % (n * n),
    decreases j,
{
    let nn = n * n;
    assert(nn > 0) by (nonlinear_arith)
        requires
            n > 1,
            nn == n * n,
    ;
    if j == 0 {
        lemma_pow0(1 + t * n);
        assert(j * t * n == 0) by (nonlinear_arith)
            requires
                j == 0,
        ;
    } else {
        let j1 = (j - 1) as nat;
        lemma_one_plus_multiple_pow(t, n, j1);
        lemma_pow_adds(1 + t * n, 1, j1);
        lemma_pow1(1 + t * n);
        let x = pow(1 + t * n, j1);
        lemma_mul_mod_noop_right(1 + t * n, x, nn);
        lemma_mul_mod_noop_right(1 + t * n, 1 + j1 * t * n, nn);
        assert((1 + t * n) * (1 + j1 * t * n) == (1 + j * t * n) + nn * (j1 * t * t)) by (nonlinear_arith)
            requires
                j1 == j - 1,
                nn == n * n,
        ;
        lemma_mod_multiples_vanish(j1 * t * t, 1 + j * t * n, nn);
        assert(nn * (j1 * t * t) + (1 + j * t * n) == (1 + j * t * n) + nn * (j1 * t * t));
        assert(pow(1 + t * n, j) == (1 + t * n) * x);
    }
}

/// Two distinct primes that both divide `x` divide it together.
proof fn lemma_both_primes_divide(p: nat, q: nat, x: int)
    requires
        is_prime(p),
        is_prime(q),
        p != q,
        x % (p as int) == 0,
        x % (q as int) == 0,
    ensures
        x % ((p * q) as int) == 0,
{
    let pi = p as int;
    let qi = q as int;
    lemma_fundamental_div_mod(x, pi);
    let s = x / pi;
    assert(x == pi * s);
    lemma_euclid(q, pi, s);
    if pi % qi == 0 {
        if q < p {
            assert(p % q != 0);
        } else {
            lemma_small_mod(p, q);
        }
    }
    lemma_fundamental_div_mod(s, qi);
    let t = s / qi;
    assert(x == t * (pi * qi)) by (nonlinear_arith)
        requires
            x == pi * s,
            s == qi * t + s % qi,
            s % qi == 0,
    ;
    assert(pi * qi > 0) by (nonlinear_arith)
        requires
            pi > 1,
            qi > 1,
    ;
    lemma_mod_multiples_basic(t, pi * qi);
}

/// A prime dividing `n` does not divide an `r` coprime to `n`.
proof fn lemma_coprime_not_divisible(r: nat, n: nat, p: nat)
    requires
        is_prime(p),
        gcd(r, n) == 1,
        n % p == 0,
    ensures
        r % p != 0,
{
    if r % p == 0 {
        lemma_common_divisor_divides_gcd(r, n, p);
        lemma_small_mod(1, p);
    }
}

/// `r^(n lambda) == 1 (mod n^2)` for an `r` that neither prime divides.
proof fn lemma_blinding_vanishes(p: nat, q: nat, r: nat)
    requires
        is_prime(p),
        is_prime(q),
        p != q,
        p > 2,
        q > 2,
        r % p != 0,
        r % q != 0,
    ensures
        pow(r as int, (p * q) * ((p - 1) * (q - 1)) as nat) % ((p * q) * (p * q)) as int == 1,
{
    let n = p * q;
    let ni = n as int;
    let p1 = (p - 1) as nat;
    let q1 = (q - 1) as nat;
    let lambda = p1 * q1;
    // r^lambda == 1 modulo p and modulo q
    lemma_fermat_unit(r, p);
    lemma_fermat_unit(r, q);
    lemma_pow_multiplies(r as int, p1, q1);
    lemma_pow_one_mod(pow(r as int, p1), q1, p as int);
    assert(q1 * p1 == lambda) by (nonlinear_arith)
        requires
            lambda == p1 * q1,
    ;
    lemma_pow_multiplies(r as int, q1, p1);
    lemma_pow_one_mod(pow(r as int, q1), p1, q as int);
    let x = pow(r as int, lambda);
    lemma_pow_nonneg(r, lambda);
    // so n divides x - 1
    lemma_small_mod(1, p);
    lemma_small_mod(1, q);
    lemma_sub_one_divisible(x, p as int);
    lemma_sub_one_divisible(x, q as int);
    lemma_both_primes_divide(p, q, x - 1);
    assert(n > 1) by (nonlinear_arith)
        requires
            n == p * q,
            p > 2,
            q > 2,
    ;
    lemma_fundamental_div_mod(x - 1, ni);
    let t = (x - 1) / ni;
    assert(x == 1 + t * ni);
    lemma_one_plus_multiple_pow(t, ni, n);
    lemma_pow_multiplies(r as int, lambda, n);
    assert(lambda * n == n * lambda) by (nonlinear_arith);
    assert(1 + n * t * ni == 1 + (ni * ni) * t) by (nonlinear_arith)
        requires
            ni == n,
    ;
    assert(ni * ni > 1) by (nonlinear_arith)
        requires
            ni > 1,
    ;
    lemma_mod_multiples_vanish(t, 1, ni * ni);
    assert((ni * ni) * t + 1 == 1 + (ni * ni) * t);
    lemma_small_mod(1, (ni * ni) as nat);
}

proof fn lemma_sub_one_divisible(x: int, p: int)
    requires
        p > 1,
        x % p == 1,
    ensures
        (x - 1) % p == 0,
{
    lemma_fundamental_div_mod(x, p);
    lemma_mod_multiples_basic(x / p, p);
    assert(x - 1 == (x / p) * p) by (nonlinear_arith)
        requires
            x == p * (x / p) + x % p,
            x % p == 1,
    ;
}

/// Decryption of `g^m r^n mod n^2` gives `m mod n`, for a generated key
/// pair whose `p` and `q` are prime and an `r` that neither prime divides;
/// the ciphertext lies in `(0, n^2)`.
proof fn lemma_paillier_decrypts_any(
    sk: PaillierSecretKey,
    pk: PaillierPublicKey,
    p: nat,
    q: nat,
    m: nat,
    r: nat,
)
    requires
        paillier_keys_from(sk, pk, p, q),
        is_prime(p),
        is_prime(q),
        r % p != 0,
        r % q != 0,
    ensures
        0 < paillier_encrypt_value(pk, m, r) < pk.n_square@,
        paillier_decrypt_value(pk, sk, paillier_encrypt_value(pk, m, r)) == m % pk.n@,
{
    let n = pk.n@;
    let ni = n as int;
    let nn = pk.n_square@;
    let nni = nn as int;
    let lambda = sk.lambda@;
    let g = pk.g@;
    assert(n > 1 && lambda > 0) by (nonlinear_arith)
        requires
            n == p * q,
            lambda == (p - 1) * (q - 1),
            p > 2,
            q > 2,
    ;
    assert(nni == ni * ni);
    assert(nni > 1) by (nonlinear_arith)
        requires
            nni == ni * ni,
            ni > 1,
    ;
    let a = pow(g as int, m);
    let b = pow(r as int, n);
    let c = paillier_encrypt_value(pk, m, r);
    lemma_pow_nonneg(g, m);
    lemma_pow_nonneg(r, n);
    // c == a * b (mod n^2)
    lemma_mul_mod_noop_left(a, b % nni, nni);
    lemma_mul_mod_noop_right(a, b, nni);
    assert(c as int == (a * b) % nni);
    // c^lambda == g^(m lambda) r^(n lambda) (mod n^2)
    lemma_pow_mod_noop(a * b, lambda, nni);
    vstd::arithmetic::power::lemma_pow_distributes(a, b, lambda);
    lemma_pow_multiplies(g as int, m, lambda);
    lemma_pow_multiplies(r as int, n, lambda);
    assert(n * lambda == (p * q) * ((p - 1) * (q - 1)) as nat);
    lemma_blinding_vanishes(p, q, r);
    let ga = pow(g as int, m * lambda);
    let rb = pow(r as int, n * lambda);
    lemma_mul_mod_noop_right(ga, rb, nni);
    assert(ga * 1 == ga);
    // g^(m lambda) == 1 + m lambda n (mod n^2)
    assert(g as int == 1 + 1 * ni);
    lemma_one_plus_multiple_pow(1, ni, m * lambda);
    let j = m * lambda;
    let u = pow_mod(c, lambda, nn);
    assert(u as int == (1 + j * 1 * ni) % nni);
    // (1 + j n) mod n^2 == 1 + (j mod n) n
    lemma_fundamental_div_mod(j as int, ni);
    let jr = (j % n) as int;
    let jq = (j / n) as int;
    assert(1 + j * 1 * ni == (1 + jr * ni) + nni * jq) by (nonlinear_arith)
        requires
            j == ni * jq + jr,
            nni == ni * ni,
    ;
    lemma_mod_multiples_vanish(jq, 1 + jr * ni, nni);
    assert(nni * jq + (1 + jr * ni) == (1 + jr * ni) + nni * jq);
    assert(0 <= 1 + jr * ni < nni) by (nonlinear_arith)
        requires
            0 <= jr < ni,
            ni > 1,
            nni == ni * ni,
    ;
    lemma_small_mod((1 + jr * ni) as nat, nn);
    assert(u as int == 1 + jr * ni);
    // L(u) == j mod n
    assert(((u - 1) as nat) / n == jr) by {
        lemma_fundamental_div_mod_converse((u - 1) as int, ni, jr, 0);
        assert(jr * ni + 0 == (u - 1) as int);
    }
    // (j mod n) mu mod n == m (lambda mu mod n) mod n == m mod n
    let mu = sk.mu@;
    lemma_mul_mod_noop_left(j as int, mu as int, ni);
    assert(j * mu == m * (lambda * mu)) by (nonlinear_arith)
        requires
            j == m * lambda,
    ;
    lemma_mul_mod_noop_right(m as int, (lambda * mu) as int, ni);
    lemma_small_mod(1, n);
    assert(m * 1 == m);
    // c is not zero: its lambda-th power is not
    if c == 0 {
        vstd::arithmetic::power::lemma0_pow(lambda);
        lemma_small_mod(0, nn);
    }
}

/// Decryption undoes encryption: for a generated key pair whose `p` and `q`
/// are prime, `c = g^m r^n mod n^2` with `m < n` and `gcd(r, n) == 1` lies in
/// `(0, n^2)` and decrypts to `m`.
pub proof fn lemma_paillier_round_trip(
    sk: PaillierSecretKey,
    pk: PaillierPublicKey,
    p: nat,
    q: nat,
    m: nat,
    r: nat,
)
    requires
        paillier_keys_from(sk, pk, p, q),
        is_prime(p),
        is_prime(q),
        m < pk.n@,
        gcd(r, pk.n@) == 1,
    ensures
        0 < paillier_encrypt_value(pk, m, r) <= pk.n_square@,
        paillier_decrypt_value(pk, sk, paillier_encrypt_value(pk, m, r)) == m,
{
    lemma_mod_multiples_basic(q as int, p as int);
    assert(q * p == p * q) by (nonlinear_arith);
    lemma_mod_multiples_basic(p as int, q as int);
    lemma_coprime_not_divisible(r, pk.n@, p);
    lemma_coprime_not_divisible(r, pk.n@, q);
    lemma_paillier_decrypts_any(sk, pk, p, q, m, r);
    lemma_small_mod(m, pk.n@);
}

/// Multiplying two ciphertexts modulo `n^2` adds the plaintexts modulo `n`.
pub proof fn lemma_paillier_homomorphic(
    sk: PaillierSecretKey,
    pk: PaillierPublicKey,
    p: nat,
    q: nat,
    m1: nat,
    r1: nat,
    m2: nat,
    r2: nat,
)
    requires
        paillier_keys_from(sk, pk, p, q),
        is_prime(p),
        is_prime(q),
        gcd(r1, pk.n@) == 1,
        gcd(r2, pk.n@) == 1,
    ensures
        paillier_decrypt_value(
            pk,
            sk,
            (paillier_encrypt_value(pk, m1, r1) * paillier_encrypt_value(pk, m2, r2)) % pk.n_square@,
        ) == (m1 + m2) % pk.n@,
{
    let n = pk.n@;
    let nni = pk.n_square@ as int;
    let g = pk.g@;
    assert(pk.n_square@ > 0) by (nonlinear_arith)
        requires
            pk.n_square@ == n * n,
            n == p * q,
            p > 2,
            q > 2,
    ;
    lemma_mod_multiples_basic(q as int, p as int);
    assert(q * p == p * q) by (nonlinear_arith);
    lemma_mod_multiples_basic(p as int, q as int);
    lemma_coprime_not_divisible(r1, n, p);
    lemma_coprime_not_divisible(r1, n, q);
    lemma_coprime_not_divisible(r2, n, p);
    lemma_coprime_not_divisible(r2, n, q);
    let r = r1 * r2;
    assert(r % p != 0) by {
        if r % p == 0 {
            lemma_euclid(p, r1 as int, r2 as int);
        }
    }
    assert(r % q != 0) by {
        if r % q == 0 {
            lemma_euclid(q, r1 as int, r2 as int);
        }
    }
    // the product of the ciphertexts is the encryption of m1 + m2 under r1 r2
    let a1 = pow(g as int, m1);
    let a2 = pow(g as int, m2);
    let b1 = pow(r1 as int, n);
    let b2 = pow(r2 as int, n);
    let c1 = paillier_encrypt_value(pk, m1, r1) as int;
    let c2 = paillier_encrypt_value(pk, m2, r2) as int;
    lemma_pow_nonneg(g, m1);
    lemma_pow_nonneg(g, m2);
    lemma_pow_nonneg(r1, n);
    lemma_pow_nonneg(r2, n);
    lemma_mul_mod_noop_left(a1, b1 % nni, nni);
    lemma_mul_mod_noop_right(a1, b1, nni);
    lemma_mul_mod_noop_left(a2, b2 % nni, nni);
    lemma_mul_mod_noop_right(a2, b2, nni);
    assert(c1 == (a1 * b1) % nni);
    assert(c2 == (a2 * b2) % nni);
    lemma_mul_mod_noop_left(a1 * b1, c2, nni);
    lemma_mul_mod_noop_right(a1 * b1, a2 * b2, nni);
    lemma_pow_adds(g as int, m1, m2);
    vstd::arithmetic::power::lemma_pow_distributes(r1 as int, r2 as int, n);
    assert((a1 * b1) * (a2 * b2) == (a1 * a2) * (b1 * b2)) by (nonlinear_arith);
    let a = pow(g as int, m1 + m2);
    let b = pow(r as int, n);
    lemma_pow_nonneg(g, m1 + m2);
    lemma_pow_nonneg(r, n);
    lemma_mul_mod_noop_left(a, b % nni, nni);
    lemma_mul_mod_noop_right(a, b, nni);
    assert((c1 * c2) % nni == paillier_encrypt_value(pk, m1 + m2, r) as int);
    lemma_paillier_decrypts_any(sk, pk, p, q, m1 + m2, r);
}

} // verus!
