use crate::arith::{
    gcd, inverse_of, is_mod_inverse, is_prime, lemma_coprime_below_prime, lemma_mod_inverse_unique,
    lemma_small_bit_len, pow_mod,
};
use crate::theorems::{lemma_fermat_unit, lemma_pow_exponent_mod, lemma_pow_mod_of_pow_mod};
use vstd::arithmetic::div_mod::{
    lemma_add_mod_noop, lemma_fundamental_div_mod, lemma_mul_mod_noop_left,
    lemma_mul_mod_noop_right, lemma_small_mod,
};
use vstd::arithmetic::power::{lemma_pow1, lemma_pow_adds, pow};
use crate::bignum::{
    from_u64, invert, less_than, minus, modulo, plus, probably_prime,
    quotient, random_below, random_bits, set_bit, significant_bits, times, BigNat,
};
use crate::error::CryptoError;
use crate::params::{is_prime_candidate, random_prime};
use crate::traits::DigitalSignature;
use rug::rand::RandState;
use std::collections::hash_map::DefaultHasher;
use std::hash::{Hash, Hasher};
use vstd::arithmetic::div_mod::lemma_mod_multiples_basic;
use vstd::prelude::*;

verus! {

/// Rounds of the prime test for `p` and `q`.
pub const DSA_PRIME_TEST_ROUNDS: u32 = 20;

/// Draws made by each of the small sampling loops (generator, secret
/// exponent, nonce) before they give up.
pub const DSA_MAX_SAMPLES: u32 = 256;

/// The DSA public key: domain parameters and `y = g^x mod p`.
#[derive(Debug)]
pub struct DSAPublicKey {
    pub p: BigNat,
    pub q: BigNat,
    pub g: BigNat,
    pub y: BigNat,
}

/// The DSA secret key: the exponent `x` and the domain parameters.
#[derive(Debug)]
pub struct DSASecretKey {
    pub x: BigNat,
    pub p: BigNat,
    pub q: BigNat,
    pub g: BigNat,
}

/// A DSA signature `(r, s)`.
#[derive(Debug)]
pub struct DSASignature {
    pub r: BigNat,
    pub s: BigNat,
}

impl DSAPublicKey {
    pub fn new(p: BigNat, q: BigNat, g: BigNat, y: BigNat) -> (r: Self)
        ensures
            r.p == p,
            r.q == q,
            r.g == g,
            r.y == y,
    {
        Self { p, q, g, y }
    }

    /// `p` is odd and `q` is positive, as verification needs.
    pub open spec fn usable(self) -> bool {
        &&& self.p@ % 2 == 1
        &&& self.q@ > 0
    }
}

impl DSASecretKey {
    pub fn new(x: BigNat, p: BigNat, q: BigNat, g: BigNat) -> (r: Self)
        ensures
            r.x == x,
            r.p == p,
            r.q == q,
            r.g == g,
    {
        Self { x, p, q, g }
    }

    /// `p` is odd and `q` is positive, as signing needs.
    pub open spec fn usable(self) -> bool {
        &&& self.p@ % 2 == 1
        &&& self.q@ > 0
    }
}

impl DSASignature {
    pub fn new(r: BigNat, s: BigNat) -> (res: Self)
        ensures
            res.r == r,
            res.s == s,
    {
        Self { r, s }
    }
}

/// The bit sizes `(L, N)` of `p` and `q` for a security level.
pub open spec fn dsa_sizes(sec_level: u64) -> Option<(u64, u64)> {
    if sec_level == 80 {
        Some((1024, 160))
    } else if sec_level == 112 {
        Some((2048, 224))
    } else if sec_level == 128 {
        Some((2048, 256))
    } else if sec_level == 192 {
        Some((3072, 256))
    } else if sec_level == 256 {
        Some((3072, 256))
    } else {
        None
    }
}

/// What the hash of the standard library's `DefaultHasher` gives for a byte
/// string.
pub uninterp spec fn default_hash(message: Seq<u8>) -> u64;

/// Relies on `std::collections::hash_map::DefaultHasher` (created with `new`,
/// which uses fixed keys): the hash of the byte slice.
#[verifier::external_body]
fn default_hash_of(message: &[u8]) -> (r: u64)
    ensures
        r == default_hash(message@),
{
    let mut hasher = DefaultHasher::new();
    message.hash(&mut hasher);
    hasher.finish()
}

/// Domain parameters `(p, q, g)` with `q` an `n`-bit and `p` an `l`-bit
/// probable prime, `q | p - 1`, and `g = h^((p - 1) / q) mod p > 1` for some
/// `h` in `[2, p - 2]`.
pub open spec fn domain_params_valid(p: nat, q: nat, g: nat, l: nat, n: nat) -> bool {
    &&& is_prime_candidate(q, n, DSA_PRIME_TEST_ROUNDS as nat)
    &&& is_prime_candidate(p, l, DSA_PRIME_TEST_ROUNDS as nat)
    &&& (p - 1) % (q as int) == 0
    &&& 1 < g < p
    &&& exists|h: nat|
        #![trigger pow_mod(h, ((p - 1) / (q as int)) as nat, p)]
        2 <= h <= p - 2 && g == pow_mod(h, ((p - 1) / (q as int)) as nat, p)
}

/// The relations that key generation establishes between the two keys.
pub open spec fn dsa_key_pair(sk: DSASecretKey, pk: DSAPublicKey, l: nat, n: nat) -> bool {
    &&& domain_params_valid(pk.p@, pk.q@, pk.g@, l, n)
    &&& sk.p@ == pk.p@
    &&& sk.q@ == pk.q@
    &&& sk.g@ == pk.g@
    &&& 1 < sk.x@ < pk.q@
    &&& pk.y@ == pow_mod(pk.g@, sk.x@, pk.p@)
}

/// `H(message) mod q`.
pub open spec fn dsa_digest(message: Seq<u8>, q: nat) -> nat {
    (default_hash(message) as nat) % q
}

/// `(g^k mod p) mod q`.
pub open spec fn dsa_r_of(p: nat, q: nat, g: nat, k: nat) -> nat {
    pow_mod(g, k, p) % q
}

/// `sig` is a signature of `message` under `sk` made with the nonce `k`.
pub open spec fn dsa_signed_with(sk: DSASecretKey, message: Seq<u8>, sig: DSASignature, k: nat) -> bool {
    let q = sk.q@;
    &&& 0 < k < q
    &&& sig.r@ == dsa_r_of(sk.p@, q, sk.g@, k)
    &&& 0 < sig.r@
    &&& 0 < sig.s@
    &&& exists|k_inv: nat|
        #![trigger is_mod_inverse(k, k_inv, q)]
        is_mod_inverse(k, k_inv, q) && sig.s@ == (k_inv * (dsa_digest(message, q) + sk.x@
            * sig.r@)) % q
}

/// `sig` is a signature of `message` under `sk`, for some nonce.
pub open spec fn dsa_signature_of(sk: DSASecretKey, message: Seq<u8>, sig: DSASignature) -> bool {
    exists|k: nat| dsa_signed_with(sk, message, sig, k)
}

/// `k^-1 (H(m) + x r) mod q` for the nonce `k`.
pub open spec fn dsa_s_of(sk: DSASecretKey, message: Seq<u8>, k: nat) -> nat {
    let q = sk.q@;
    let r = dsa_r_of(sk.p@, q, sk.g@, k);
    (inverse_of(k, q) * (dsa_digest(message, q) + sk.x@ * r)) % q
}

/// The nonce `k` gives a signature: `r` is not zero, `k` is invertible
/// modulo `q`, and `s` is not zero.
pub open spec fn dsa_nonce_usable(sk: DSASecretKey, message: Seq<u8>, k: nat) -> bool {
    &&& dsa_r_of(sk.p@, sk.q@, sk.g@, k) != 0
    &&& gcd(k, sk.q@) == 1
    &&& dsa_s_of(sk, message, k) != 0
}

/// `((g^u1 mod p) * (y^u2 mod p) mod p) mod q` with `u1 = h * w mod q` and
/// `u2 = r * w mod q`.
pub open spec fn dsa_v(pk: DSAPublicKey, message: Seq<u8>, r: nat, w: nat) -> nat {
    let q = pk.q@;
    let u1 = (dsa_digest(message, q) * w) % q;
    let u2 = (r * w) % q;
    ((pow_mod(pk.g@, u1, pk.p@) * pow_mod(pk.y@, u2, pk.p@)) % pk.p@) % q
}

/// The verification rule: `r` and `s` lie in `(0, q)`, `s` is invertible
/// modulo `q`, and `v == r`.
pub open spec fn dsa_accepts(pk: DSAPublicKey, message: Seq<u8>, sig: DSASignature) -> bool {
    let q = pk.q@;
    &&& 0 < sig.r@ < q
    &&& 0 < sig.s@ < q
    &&& gcd(sig.s@, q) == 1
    &&& dsa_v(pk, message, sig.r@, inverse_of(sig.s@, q)) == sig.r@
}

pub struct DSA;

impl DSA {
    pub fn get_dsa_params(sec_level: u64) -> (r: Result<(u64, u64), CryptoError>)
        ensures
            r == match dsa_sizes(sec_level) {
                Some(s) => Ok(s),
                None => Err(CryptoError::InvalidSecurityLevel),
            },
    {
        match sec_level {
            80 => Ok((1024, 160)),
            112 => Ok((2048, 224)),
            128 => Ok((2048, 256)),
            192 => Ok((3072, 256)),
            256 => Ok((3072, 256)),
            _ => Err(CryptoError::InvalidSecurityLevel),
        }
    }

    /// Draws `l`-bit candidates `t` with top and bottom bit set and tries
    /// `p = (t / q) * q + 1`, at most `4 * l + 1` times.
    fn find_modulus(l: u32, q: &BigNat, rng: &mut RandState<'_>) -> (r: Result<BigNat, CryptoError>)
        requires
            2 <= l <= 65536,
            q@ > 0,
        ensures
            r matches Ok(p) ==> is_prime_candidate(p@, l as nat, DSA_PRIME_TEST_ROUNDS as nat)
                && (p@ - 1) % (q@ as int) == 0,
            r matches Err(e) ==> e == CryptoError::ParameterGenerationFailed,
    {
        let one = from_u64(1);
        let max_counter: u32 = 4 * l;
        let mut counter: u32 = 0;
        while counter <= max_counter
            invariant
                2 <= l <= 65536,
                max_counter == 4 * l,
                q@ > 0,
                one@ == 1,
            decreases max_counter + 1 - counter,
        {
            let temp = random_bits(l as u64, rng);
            let temp = set_bit(&temp, l - 1);
            let temp = set_bit(&temp, 0);
            let k = quotient(&temp, q);
            let p = plus(&times(&k, q), &one);
            if significant_bits(&p) == l as u64 && p.is_odd() && probably_prime(&p, DSA_PRIME_TEST_ROUNDS) {
                proof {
                    lemma_mod_multiples_basic(k@ as int, q@ as int);
                }
                return Ok(p);
            }
            counter = counter + 1;
        }
        Err(CryptoError::ParameterGenerationFailed)
    }

    /// Draws `h` in `[2, p - 2]` until `g = h^((p - 1) / q) mod p > 1`.
    fn find_generator(p: &BigNat, q: &BigNat, rng: &mut RandState<'_>) -> (r: Result<
        BigNat,
        CryptoError,
    >)
        requires
            p@ % 2 == 1,
            p@ > 3,
            q@ > 0,
        ensures
            r matches Ok(g) ==> 1 < g@ < p@ && exists|h: nat|
                #![trigger pow_mod(h, ((p@ - 1) / (q@ as int)) as nat, p@)]
                2 <= h <= p@ - 2 && g@ == pow_mod(h, ((p@ - 1) / (q@ as int)) as nat, p@),
            r matches Err(e) ==> e == CryptoError::ParameterGenerationFailed,
    {
        let one = from_u64(1);
        let two = from_u64(2);
        let three = from_u64(3);
        let p_minus_one = minus(p, &one);
        let p_minus_three = minus(p, &three);
        let h_exp = quotient(&p_minus_one, q);
        let mut tries: u32 = 0;
        while tries < DSA_MAX_SAMPLES
            invariant
                p@ % 2 == 1,
                p@ > 3,
                q@ > 0,
                one@ == 1,
                two@ == 2,
                p_minus_three@ == p@ - 3,
                h_exp@ == (p@ - 1) / (q@ as int),
            decreases DSA_MAX_SAMPLES - tries,
        {
            tries = tries + 1;
            let h = plus(&two, &random_below(&p_minus_three, rng));
            let g = h.pow_mod_secure(&h_exp, p);
            if less_than(&one, &g) {
                assert(2 <= h@ <= p@ - 2 && g@ == pow_mod(h@, ((p@ - 1) / (q@ as int)) as nat, p@));
                return Ok(g);
            }
        }
        Err(CryptoError::ParameterGenerationFailed)
    }

    /// Domain parameters `(p, q, g)` of `l` and `n` bits.
    pub fn generate_domain_params(l: u64, n: u64, rng: &mut RandState<'_>) -> (r: Result<
        (BigNat, BigNat, BigNat),
        CryptoError,
    >)
        requires
            3 <= l <= 65536,
            2 <= n <= 65536,
        ensures
            r matches Ok((p, q, g)) ==> domain_params_valid(p@, q@, g@, l as nat, n as nat),
            r matches Err(e) ==> e == CryptoError::ParameterGenerationFailed,
    {
        let q = random_prime(n as u32, DSA_PRIME_TEST_ROUNDS, rng)?;
        let p = DSA::find_modulus(l as u32, &q, rng)?;
        proof {
            lemma_small_bit_len(p@);
        }
        let g = DSA::find_generator(&p, &q, rng)?;
        Ok((p, q, g))
    }

    /// The message's hash, as an integer.
    pub fn hash_message(message: &[u8]) -> (r: BigNat)
        ensures
            r@ == default_hash(message@),
    {
        from_u64(default_hash_of(message))
    }

    /// The signature of `message` made with the nonce `k`: `None` where
    /// `r` is zero, `k` has no inverse modulo `q`, or `s` is zero.
    pub fn sign_with_nonce(sk: &DSASecretKey, message: &[u8], k: &BigNat) -> (res: Option<DSASignature>)
        requires
            sk.usable(),
        ensures
            res is Some <==> dsa_nonce_usable(*sk, message@, k@),
            res matches Some(sig) ==> sig.r@ == dsa_r_of(sk.p@, sk.q@, sk.g@, k@) && sig.s@
                == dsa_s_of(*sk, message@, k@) && is_mod_inverse(k@, inverse_of(k@, sk.q@), sk.q@),
    {
        let h = modulo(&DSA::hash_message(message), &sk.q);
        let r = modulo(&sk.g.pow_mod_secure(k, &sk.p), &sk.q);
        if r.is_zero() {
            return None;
        }
        let k_inv = match invert(k, &sk.q) {
            Some(v) => v,
            None => {
                return None;
            },
        };
        proof {
            lemma_mod_inverse_unique(k@, k_inv@, inverse_of(k@, sk.q@), sk.q@);
        }
        let s = modulo(&times(&k_inv, &plus(&h, &times(&sk.x, &r))), &sk.q);
        if s.is_zero() {
            return None;
        }
        Some(DSASignature::new(r, s))
    }
}

impl DigitalSignature for DSA {
    type SecretKey = DSASecretKey;
    type PublicKey = DSAPublicKey;
    type Signature = DSASignature;

    open spec fn secret_key_usable(sk: DSASecretKey) -> bool {
        sk.usable()
    }

    open spec fn public_key_usable(pk: DSAPublicKey) -> bool {
        pk.usable()
    }

    /// Domain parameters for the level, a secret `x` in `(1, q)`, and
    /// `y = g^x mod p`.
    fn keygen(sec_level: u64, rng: &mut RandState<'_>) -> (r: Result<
        (DSASecretKey, DSAPublicKey),
        CryptoError,
    >)
        ensures
            dsa_sizes(sec_level) is None ==> r == Err::<(DSASecretKey, DSAPublicKey), _>(
                CryptoError::InvalidSecurityLevel,
            ),
            r matches Err(e) ==> dsa_sizes(sec_level) is None || e
                == CryptoError::ParameterGenerationFailed,
            r matches Ok((sk, pk)) ==> {
                let (l, n) = dsa_sizes(sec_level)->0;
                &&& dsa_key_pair(sk, pk, l as nat, n as nat)
                &&& sk.usable()
                &&& pk.usable()
            },
    {
        let (l, n) = DSA::get_dsa_params(sec_level)?;
        let (p, q, g) = DSA::generate_domain_params(l, n, rng)?;
        let one = from_u64(1);
        let mut tries: u32 = 0;
        while tries < DSA_MAX_SAMPLES
            invariant
                q@ > 0,
                p@ % 2 == 1,
                one@ == 1,
                dsa_sizes(sec_level) == Some((l, n)),
                domain_params_valid(p@, q@, g@, l as nat, n as nat),
            decreases DSA_MAX_SAMPLES - tries,
        {
            tries = tries + 1;
            let x = random_below(&q, rng);
            if less_than(&one, &x) {
                let y = g.pow_mod_secure(&x, &p);
                let sk = DSASecretKey::new(x, p.duplicate(), q.duplicate(), g.duplicate());
                let pk = DSAPublicKey::new(p, q, g, y);
                return Ok((sk, pk));
            }
        }
        Err(CryptoError::ParameterGenerationFailed)
    }

    /// Draws nonces `k` in `(0, q)` until `r = (g^k mod p) mod q` and
    /// `s = k^-1 (H(m) + x r) mod q` are both non-zero.
    fn sign(sk: &DSASecretKey, message: &[u8], rng: &mut RandState<'_>) -> (r: Result<
        DSASignature,
        CryptoError,
    >)
        ensures
            r matches Ok(sig) ==> dsa_signature_of(*sk, message@, sig),
            r matches Err(e) ==> e == CryptoError::ParameterGenerationFailed,
    {
        let mut tries: u32 = 0;
        while tries < DSA_MAX_SAMPLES
            invariant
                sk.usable(),
            decreases DSA_MAX_SAMPLES - tries,
        {
            tries = tries + 1;
            let k = random_below(&sk.q, rng);
            if !k.is_zero() {
                if let Some(sig) = DSA::sign_with_nonce(sk, message, &k) {
                    proof {
                        let k_inv = inverse_of(k@, sk.q@);
                        assert(is_mod_inverse(k@, k_inv, sk.q@));
                        assert(dsa_signed_with(*sk, message@, sig, k@));
                    }
                    return Ok(sig);
                }
            }
        }
        Err(CryptoError::ParameterGenerationFailed)
    }

    /// Checks the ranges of `r` and `s`, inverts `s` modulo `q`, and
    /// compares `v` with `r`.
    fn verify(pk: &DSAPublicKey, message: &[u8], signature: &DSASignature) -> (r: Result<
        bool,
        CryptoError,
    >)
        ensures
            r == Ok::<bool, CryptoError>(dsa_accepts(*pk, message@, *signature)),
    {
        let q = &pk.q;
        if signature.r.is_zero() || !less_than(&signature.r, q) || signature.s.is_zero()
            || !less_than(&signature.s, q) {
            return Ok(false);
        }
        let h = modulo(&DSA::hash_message(message), q);
        let w = match invert(&signature.s, q) {
            Some(w) => w,
            None => {
                return Ok(false);
            },
        };
        proof {
            lemma_mod_inverse_unique(signature.s@, w@, inverse_of(signature.s@, q@), q@);
        }
        let u1 = modulo(&times(&h, &w), q);
        let u2 = modulo(&times(&signature.r, &w), q);
        let g_u1 = pk.g.pow_mod_secure(&u1, &pk.p);
        let y_u2 = pk.y.pow_mod_secure(&u2, &pk.p);
        let v = modulo(&modulo(&times(&g_u1, &y_u2), &pk.p), q);
        Ok(!less_than(&v, &signature.r) && !less_than(&signature.r, &v))
    }
}

/// For a prime `p`, the generator of valid domain parameters has order
/// dividing `q`: `g^q == 1 (mod p)`.
pub proof fn lemma_dsa_generator_order(p: nat, q: nat, g: nat, l: nat, n: nat)
    requires
        domain_params_valid(p, q, g, l, n),
        is_prime(p),
    ensures
        pow_mod(g, q, p) == 1,
{
    let e1 = ((p - 1) / (q as int)) as nat;
    let h = choose|h: nat| 2 <= h <= p - 2 && g == pow_mod(h, e1, p);
    lemma_pow_mod_of_pow_mod(h, e1, q, p);
    lemma_fundamental_div_mod(p - 1, q as int);
    assert(e1 * q == p - 1) by (nonlinear_arith)
        requires
            p - 1 == (q as int) * ((p - 1) / (q as int)) + (p - 1) % (q as int),
            (p - 1) % (q as int) == 0,
            e1 == (p - 1) / (q as int),
    ;
    lemma_small_mod(h, p);
    lemma_fermat_unit(h, p);
}

/// `(w * (h + x r)) mod q == k` when `s = k^-1 (h + x r) mod q` and `w` is
/// the inverse of `s`.
proof fn lemma_dsa_exponent(q: int, w: int, a: int, k: int, k_inv: int, s: int)
    requires
        q > 1,
        0 <= k < q,
        (k * k_inv) % q == 1,
        s == (k_inv * a) % q,
        (s * w) % q == 1,
    ensures
        (w * a) % q == k,
{
    lemma_mul_mod_noop_right(w * a, k * k_inv, q);
    assert((w * a) * 1 == w * a);
    assert((w * a) * (k * k_inv) == (w * (k_inv * a)) * k) by (nonlinear_arith);
    lemma_mul_mod_noop_left(w * (k_inv * a), k, q);
    lemma_mul_mod_noop_right(w, k_inv * a, q);
    assert(w * s == s * w) by (nonlinear_arith);
    assert(1 * k == k);
    lemma_small_mod(k as nat, q as nat);
}

/// A signature that `sign` returns with the secret key of a generated pair
/// is accepted by `verify` with the public key, where `p` and `q` are prime.
pub proof fn lemma_dsa_sign_then_verify(
    sk: DSASecretKey,
    pk: DSAPublicKey,
    l: nat,
    n: nat,
    message: Seq<u8>,
    sig: DSASignature,
)
    requires
        dsa_key_pair(sk, pk, l, n),
        is_prime(pk.p@),
        is_prime(pk.q@),
        dsa_signature_of(sk, message, sig),
    ensures
        dsa_accepts(pk, message, sig),
{
    let p = pk.p@;
    let q = pk.q@;
    let g = pk.g@;
    let x = sk.x@;
    let k = choose|k: nat| dsa_signed_with(sk, message, sig, k);
    let k_inv = choose|k_inv: nat|
        is_mod_inverse(k, k_inv, q) && sig.s@ == (k_inv * (dsa_digest(message, q) + x * sig.r@))
            % q;
    let r = sig.r@;
    let s = sig.s@;
    let hm = dsa_digest(message, q);
    lemma_dsa_generator_order(p, q, g, l, n);
    // s is invertible modulo q
    lemma_coprime_below_prime(s, q);
    let w0 = pow_mod(s, (q - 2) as nat, q);
    assert(is_mod_inverse(s, w0, q)) by {
        lemma_small_mod(s, q);
        lemma_fermat_unit(s, q);
        lemma_pow_adds(s as int, 1, (q - 2) as nat);
        lemma_pow1(s as int);
        lemma_mul_mod_noop_right(s as int, pow(s as int, (q - 2) as nat), q as int);
        lemma_small_mod(1, q);
    }
    let w = inverse_of(s, q);
    assert(is_mod_inverse(s, w, q));
    lemma_small_mod(1, q);
    // the exponent of g in v
    let u1 = (hm * w) % q;
    let u2 = (r * w) % q;
    let a = hm + x * r;
    lemma_dsa_exponent(q as int, w as int, a as int, k as int, k_inv as int, s as int);
    let e = u1 + x * u2;
    assert(e % q == k) by {
        lemma_add_mod_noop(u1 as int, (x * u2) as int, q as int);
        lemma_mul_mod_noop_right(x as int, (r * w) as int, q as int);
        lemma_mod_mod_same(hm * w, q);
        lemma_add_mod_noop((hm * w) as int, (x * (r * w)) as int, q as int);
        assert(hm * w + x * (r * w) == w * a) by (nonlinear_arith)
            requires
                a == hm + x * r,
        ;
    }
    // g^u1 * y^u2 == g^e (mod p)
    lemma_pow_mod_of_pow_mod(g, x, u2, p);
    lemma_mul_mod_noop_left(pow(g as int, u1), pow(g as int, x * u2) % (p as int), p as int);
    lemma_mul_mod_noop_right(pow(g as int, u1), pow(g as int, x * u2), p as int);
    lemma_pow_adds(g as int, u1, x * u2);
    lemma_pow_exponent_mod(g, q, p, e);
}

proof fn lemma_mod_mod_same(a: nat, q: nat)
    requires
        q > 0,
    ensures
        (a % q) % q == a % q,
{
    lemma_small_mod(a % q, q);
}

/// A signature whose `r` or `s` lies outside `(0, q)` is rejected.
pub proof fn lemma_dsa_rejects_out_of_range(pk: DSAPublicKey, message: Seq<u8>, sig: DSASignature)
    requires
        !(0 < sig.r@ < pk.q@) || !(0 < sig.s@ < pk.q@),
    ensures
        !dsa_accepts(pk, message, sig),
{
}

} // verus!
