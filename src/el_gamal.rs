use crate::bignum::{
    be_bytes, be_value, from_u64, less_than, minus, modulo, random_below, times, BigNat,
};
use crate::arith::{is_prime, pow_mod};
use crate::bignum::{lemma_be_bytes_len_monotone, lemma_be_value_of_bytes};
use crate::theorems::{lemma_fermat_unit, lemma_pow_mod_of_pow_mod, lemma_pow_one_mod};
use vstd::arithmetic::div_mod::{
    lemma_fundamental_div_mod, lemma_mul_mod_noop_left, lemma_mul_mod_noop_right, lemma_small_mod,
};
use vstd::arithmetic::power::{lemma_pow0, lemma_pow1, lemma_pow_adds, lemma_pow_multiplies, pow};
use crate::error::CryptoError;
use crate::params::{is_prime_candidate, lookup_modulus_bits, modulus_bits, random_prime};
use crate::traits::PublicEnc;
use rug::rand::RandState;
use vstd::prelude::*;

verus! {

/// Rounds of the prime test for `p` and `q`.
pub const ELGAMAL_PRIME_TEST_ROUNDS: u32 = 12;

/// Draws made for the secret exponent or the ephemeral exponent before
/// giving up.
pub const ELGAMAL_MAX_SAMPLES: u32 = 256;

/// The fixed generator.
pub const ELGAMAL_GENERATOR: u64 = 4;

/// The ElGamal public key.
#[derive(Debug)]
pub struct ElGamalPublicKey {
    /// The prime modulus.
    pub p: BigNat,
    /// A prime of half the modulus size, the (sub)order.
    pub q: BigNat,
    /// The generator, 4.
    pub g: BigNat,
    /// `g^x mod p`.
    pub h: BigNat,
}

/// The ElGamal secret key: the exponent `x`.
#[derive(Debug)]
pub struct ElGamalSecretKey {
    pub x: BigNat,
}

impl ElGamalPublicKey {
    pub fn new(p: BigNat, q: BigNat, g: BigNat, h: BigNat) -> (r: Self)
        ensures
            r.p == p,
            r.q == q,
            r.g == g,
            r.h == h,
    {
        Self { p, q, g, h }
    }

    /// `p` is odd and above 3, as encryption needs.
    pub open spec fn usable(self) -> bool {
        &&& self.p@ % 2 == 1
        &&& self.p@ > 3
    }
}

impl ElGamalSecretKey {
    pub fn new(x: BigNat) -> (r: Self)
        ensures
            r.x == x,
    {
        Self { x }
    }
}

/// The little-endian value of a byte string.
pub open spec fn le_value(s: Seq<u8>) -> nat
    decreases s.len(),
{
    if s.len() == 0 {
        0
    } else {
        s[0] as nat + 256 * le_value(s.subrange(1, s.len() as int))
    }
}

/// The `k` low bytes of `n`, least significant first.
pub open spec fn le_bytes(n: nat, k: nat) -> Seq<u8>
    decreases k,
{
    if k == 0 {
        Seq::empty()
    } else {
        seq![(n % 256) as u8] + le_bytes(n / 256, (k - 1) as nat)
    }
}

/// The wire form of a pair of byte arrays: each one's length as eight
/// little-endian bytes, then its bytes.
pub open spec fn pair_encoding(a: Seq<u8>, b: Seq<u8>) -> Seq<u8> {
    le_bytes(a.len(), 8) + a + le_bytes(b.len(), 8) + b
}

/// Reads a pair in the wire form from the front of `s`; later bytes are
/// ignored.
pub open spec fn pair_decoding(s: Seq<u8>) -> Option<(Seq<u8>, Seq<u8>)> {
    if s.len() < 8 {
        None
    } else {
        let n1 = le_value(s.subrange(0, 8)) as int;
        if s.len() < 16 + n1 {
            None
        } else {
            let n2 = le_value(s.subrange(8 + n1, 16 + n1)) as int;
            if s.len() < 16 + n1 + n2 {
                None
            } else {
                Some((s.subrange(8, 8 + n1), s.subrange(16 + n1, 16 + n1 + n2)))
            }
        }
    }
}

/// Relies on `bincode::serialize` of a `(Vec<u8>, Vec<u8>)`: fixed-width
/// little-endian `u64` lengths, each followed by the bytes; it does not fail
/// for this type.
#[verifier::external_body]
fn serialize_pair(a: Vec<u8>, b: Vec<u8>) -> (r: Vec<u8>)
    ensures
        r@ == pair_encoding(a@, b@),
{
    bincode::serialize(&(a, b)).unwrap_or_default()
}

/// Relies on `bincode::deserialize` of a `(Vec<u8>, Vec<u8>)`: it reads the
/// form that `serialize` writes, fails when the bytes run out, and allows
/// trailing bytes.
#[verifier::external_body]
fn deserialize_pair(bytes: &[u8]) -> (r: Option<(Vec<u8>, Vec<u8>)>)
    ensures
        r is Some <==> pair_decoding(bytes@) is Some,
        r matches Some((a, b)) ==> pair_decoding(bytes@) == Some((a@, b@)),
{
    bincode::deserialize::<(Vec<u8>, Vec<u8>)>(bytes).ok()
}

/// The ciphertext pair `(g^k mod p, h^k * m mod p)`.
pub open spec fn elgamal_pair(pk: ElGamalPublicKey, m: nat, k: nat) -> (nat, nat) {
    (pow_mod(pk.g@, k, pk.p@), (pow_mod(pk.h@, k, pk.p@) * m) % pk.p@)
}

/// `c1^(p - 1 - x) * c2 mod p`.
pub open spec fn elgamal_decrypt_value(pk: ElGamalPublicKey, sk: ElGamalSecretKey, c1: nat, c2: nat) -> nat {
    (pow_mod(c1, (pk.p@ - 1 - sk.x@) as nat, pk.p@) * c2) % pk.p@
}

/// `ct` is an encryption of `m` with the ephemeral exponent `k`.
pub open spec fn elgamal_encrypted_with(pk: ElGamalPublicKey, m: nat, ct: Seq<u8>, k: nat) -> bool {
    let (c1, c2) = elgamal_pair(pk, m, k);
    &&& 1 < k < pk.p@ - 1
    &&& ct == pair_encoding(be_bytes(c1), be_bytes(c2))
}

/// `ct` is an encryption of `m`, for some ephemeral exponent.
pub open spec fn elgamal_encryption_of(pk: ElGamalPublicKey, m: nat, ct: Seq<u8>) -> bool {
    exists|k: nat| elgamal_encrypted_with(pk, m, ct, k)
}

/// The relations that key generation establishes between the two keys.
pub open spec fn elgamal_key_pair(sk: ElGamalSecretKey, pk: ElGamalPublicKey) -> bool {
    &&& pk.g@ == ELGAMAL_GENERATOR
    &&& 1 < sk.x@ < pk.p@ - 1
    &&& pk.h@ == pow_mod(pk.g@, sk.x@, pk.p@)
    &&& pk.usable()
}

pub struct ElGamal;

impl ElGamal {
    pub fn get_mod_bits(sec_level: u64) -> (r: Result<u64, CryptoError>)
        ensures
            r == crate::params::modulus_bits_result(sec_level),
    {
        lookup_modulus_bits(sec_level)
    }

    /// The encryption of `plaintext` with the ephemeral exponent `k`: the
    /// pair `(g^k mod p, h^k * m mod p)` in the wire form; the message must
    /// not exceed `p - 1`.
    pub fn encrypt_with_nonce(pk: &ElGamalPublicKey, plaintext: &[u8], k: &BigNat) -> (r: Result<
        Vec<u8>,
        CryptoError,
    >)
        requires
            pk.usable(),
        ensures
            be_value(plaintext@) >= pk.p@ ==> r == Err::<Vec<u8>, _>(
                CryptoError::MessageOutOfRange,
            ),
            be_value(plaintext@) < pk.p@ ==> (r matches Ok(c) && c@ == pair_encoding(
                be_bytes(elgamal_pair(*pk, be_value(plaintext@), k@).0),
                be_bytes(elgamal_pair(*pk, be_value(plaintext@), k@).1),
            )),
    {
        let m = BigNat::from_bytes_be(plaintext);
        if !less_than(&m, &pk.p) {
            return Err(CryptoError::MessageOutOfRange);
        }
        let c1 = pk.g.pow_mod_secure(k, &pk.p);
        let c2 = modulo(&times(&pk.h.pow_mod_secure(k, &pk.p), &m), &pk.p);
        Ok(serialize_pair(c1.to_bytes_be(), c2.to_bytes_be()))
    }

    /// Draws from `[0, p - 1)` until the value exceeds 1.
    fn sample_exponent(p_minus_one: &BigNat, rng: &mut RandState<'_>) -> (r: Result<
        BigNat,
        CryptoError,
    >)
        requires
            p_minus_one@ > 2,
        ensures
            r matches Ok(k) ==> 1 < k@ < p_minus_one@,
            r matches Err(e) ==> e == CryptoError::ParameterGenerationFailed,
    {
        let one = from_u64(1);
        let mut tries: u32 = 0;
        while tries < ELGAMAL_MAX_SAMPLES
            invariant
                p_minus_one@ > 2,
                one@ == 1,
            decreases ELGAMAL_MAX_SAMPLES - tries,
        {
            tries = tries + 1;
            let k = random_below(p_minus_one, rng);
            if less_than(&one, &k) {
                return Ok(k);
            }
        }
        Err(CryptoError::ParameterGenerationFailed)
    }
}

impl PublicEnc for ElGamal {
    type SecretKey = ElGamalSecretKey;
    type PublicKey = ElGamalPublicKey;

    open spec fn public_key_usable(pk: ElGamalPublicKey) -> bool {
        pk.usable()
    }

    open spec fn key_pair_usable(pk: ElGamalPublicKey, sk: ElGamalSecretKey) -> bool {
        &&& pk.usable()
        &&& sk.x@ + 1 < pk.p@
    }

    /// A prime `p` of the modulus size, a prime `q` of half of it, `g = 4`,
    /// a secret `x` in `(1, p - 1)` and `h = g^x mod p`.
    fn keygen(sec_level: u64, rng: &mut RandState<'_>) -> (r: Result<
        (ElGamalSecretKey, ElGamalPublicKey),
        CryptoError,
    >)
        ensures
            modulus_bits(sec_level) is None ==> r == Err::<(ElGamalSecretKey, ElGamalPublicKey), _>(
                CryptoError::InvalidSecurityLevel,
            ),
            r matches Err(e) ==> modulus_bits(sec_level) is None || e
                == CryptoError::ParameterGenerationFailed,
            r matches Ok((sk, pk)) ==> {
                let p_bits = modulus_bits(sec_level)->0;
                &&& is_prime_candidate(pk.p@, p_bits as nat, ELGAMAL_PRIME_TEST_ROUNDS as nat)
                &&& is_prime_candidate(pk.q@, (p_bits / 2) as nat, ELGAMAL_PRIME_TEST_ROUNDS as nat)
                &&& elgamal_key_pair(sk, pk)
            },
    {
        let p_bits = ElGamal::get_mod_bits(sec_level)?;
        let q_bits: u64 = p_bits / 2;
        let q = random_prime(q_bits as u32, ELGAMAL_PRIME_TEST_ROUNDS, rng)?;
        let p = random_prime(p_bits as u32, ELGAMAL_PRIME_TEST_ROUNDS, rng)?;
        proof {
            crate::arith::lemma_small_bit_len(p@);
        }
        let g = from_u64(ELGAMAL_GENERATOR);
        let one = from_u64(1);
        let p_minus_one = minus(&p, &one);
        let x = ElGamal::sample_exponent(&p_minus_one, rng)?;
        let h = g.pow_mod_secure(&x, &p);
        let sk = ElGamalSecretKey::new(x);
        let pk = ElGamalPublicKey::new(p, q, g, h);
        Ok((sk, pk))
    }

    /// Requires `m <= p - 1`; draws `k` in `(1, p - 1)` and returns the pair
    /// `(g^k mod p, h^k * m mod p)` in the wire form.
    fn encrypt(pk: &ElGamalPublicKey, plaintext: &[u8], rng: &mut RandState<'_>) -> (r: Result<
        Vec<u8>,
        CryptoError,
    >)
        ensures
            be_value(plaintext@) >= pk.p@ ==> r == Err::<Vec<u8>, _>(
                CryptoError::MessageOutOfRange,
            ),
            r matches Ok(c) ==> be_value(plaintext@) < pk.p@ && elgamal_encryption_of(
                *pk,
                be_value(plaintext@),
                c@,
            ),
            r matches Err(e) ==> e == CryptoError::MessageOutOfRange || e
                == CryptoError::ParameterGenerationFailed,
            be_value(plaintext@) < pk.p@ ==> r != Err::<Vec<u8>, _>(
                CryptoError::MessageOutOfRange,
            ),
    {
        let m = BigNat::from_bytes_be(plaintext);
        let one = from_u64(1);
        let p_minus_one = minus(&pk.p, &one);
        if less_than(&p_minus_one, &m) {
            return Err(CryptoError::MessageOutOfRange);
        }
        let k = ElGamal::sample_exponent(&p_minus_one, rng)?;
        let c = ElGamal::encrypt_with_nonce(pk, plaintext, &k);
        proof {
            assert(elgamal_encrypted_with(*pk, m@, c->Ok_0@, k@));
        }
        c
    }

    /// Reads the pair `(c1, c2)` and returns `c1^(p - 1 - x) * c2 mod p`.
    fn decrypt(pk: &ElGamalPublicKey, sk: &ElGamalSecretKey, ciphertext: &[u8]) -> (r: Result<
        Vec<u8>,
        CryptoError,
    >)
        ensures
            pair_decoding(ciphertext@) is None ==> r == Err::<Vec<u8>, _>(
                CryptoError::MalformedCiphertext,
            ),
            pair_decoding(ciphertext@) matches Some((a, b)) ==> (r matches Ok(m) && m@ == be_bytes(
                elgamal_decrypt_value(*pk, *sk, be_value(a), be_value(b)),
            )),
    {
        let (a, b) = match deserialize_pair(ciphertext) {
            Some(pair) => pair,
            None => {
                return Err(CryptoError::MalformedCiphertext);
            },
        };
        let c1 = BigNat::from_bytes_be(a.as_slice());
        let c2 = BigNat::from_bytes_be(b.as_slice());
        let one = from_u64(1);
        let exponent = minus(&minus(&pk.p, &one), &sk.x);
        let m = modulo(&times(&c1.pow_mod_secure(&exponent, &pk.p), &c2), &pk.p);
        Ok(m.to_bytes_be())
    }
}

proof fn lemma_le_round_trip(n: nat, k: nat)
    requires
        n < pow(256, k),
    ensures
        le_value(le_bytes(n, k)) == n,
        le_bytes(n, k).len() == k,
    decreases k,
{
    if k == 0 {
        lemma_pow0(256);
    } else {
        let k1 = (k - 1) as nat;
        lemma_pow_adds(256, 1, k1);
        lemma_pow1(256);
        lemma_fundamental_div_mod(n as int, 256);
        assert(n / 256 < pow(256, k1)) by {
            vstd::arithmetic::div_mod::lemma_div_by_multiple_is_strongly_ordered(
                n as int,
                pow(256, k) as int,
                pow(256, k1),
                256,
            );
        }
        lemma_le_round_trip(n / 256, k1);
        let s = le_bytes(n, k);
        assert(s.subrange(1, s.len() as int) =~= le_bytes(n / 256, k1));
    }
}

/// The wire form of a pair reads back as the pair.
pub proof fn lemma_pair_round_trip(a: Seq<u8>, b: Seq<u8>)
    requires
        a.len() < pow(256, 8),
        b.len() < pow(256, 8),
    ensures
        pair_decoding(pair_encoding(a, b)) == Some((a, b)),
{
    lemma_le_round_trip(a.len(), 8);
    lemma_le_round_trip(b.len(), 8);
    let s = pair_encoding(a, b);
    let n1 = a.len() as int;
    assert(s.subrange(0, 8) =~= le_bytes(a.len(), 8));
    assert(s.subrange(8, 8 + n1) =~= a);
    assert(s.subrange(8 + n1, 16 + n1) =~= le_bytes(b.len(), 8));
    assert(s.subrange(16 + n1, 16 + n1 + b.len()) =~= b);
}

/// Decryption undoes encryption on values: for a prime `p`,
/// `c1^(p - 1 - x) * c2 == m (mod p)` for the pair made with any `k`.
pub proof fn lemma_elgamal_round_trip_value(sk: ElGamalSecretKey, pk: ElGamalPublicKey, m: nat, k: nat)
    requires
        elgamal_key_pair(sk, pk),
        is_prime(pk.p@),
        m < pk.p@,
    ensures
        elgamal_decrypt_value(pk, sk, elgamal_pair(pk, m, k).0, elgamal_pair(pk, m, k).1) == m,
{
    let p = pk.p@;
    let pi = p as int;
    let g = pk.g@;
    let x = sk.x@;
    let e = (p - 1 - x) as nat;
    lemma_small_mod(g, p);
    lemma_fermat_unit(g, p);
    lemma_pow_mod_of_pow_mod(g, k, e, p);
    lemma_pow_mod_of_pow_mod(g, x, k, p);
    let a = pow(g as int, k * e) % pi;
    let b = pow(g as int, x * k) % pi;
    // (a * ((b * m) % p)) % p == ((a * b) * m) % p
    lemma_mul_mod_noop_right(a, b * m, pi);
    assert(a * (b * m) == (a * b) * m) by (nonlinear_arith);
    lemma_mul_mod_noop_left(a * b, m as int, pi);
    // (a * b) % p == g^(k (p - 1)) % p == 1
    lemma_mul_mod_noop_left(pow(g as int, k * e), b, pi);
    lemma_mul_mod_noop_right(pow(g as int, k * e), pow(g as int, x * k), pi);
    lemma_pow_adds(g as int, k * e, x * k);
    assert(k * e + x * k == (p - 1) * k) by (nonlinear_arith)
        requires
            e == p - 1 - x,
    ;
    lemma_pow_multiplies(g as int, (p - 1) as nat, k);
    lemma_pow_one_mod(pow(g as int, (p - 1) as nat), k, pi);
    assert(1 * m == m);
    lemma_small_mod(m, p);
}

/// Decryption undoes encryption: the ciphertext reads back as a pair whose
/// decryption is the message (for a prime `p` whose bytes number fewer than
/// 2^64).
pub proof fn lemma_elgamal_round_trip(sk: ElGamalSecretKey, pk: ElGamalPublicKey, m: nat, ct: Seq<u8>)
    requires
        elgamal_key_pair(sk, pk),
        is_prime(pk.p@),
        be_bytes(pk.p@).len() < pow(256, 8),
        m < pk.p@,
        elgamal_encryption_of(pk, m, ct),
    ensures
        pair_decoding(ct) matches Some((a, b)) && elgamal_decrypt_value(
            pk,
            sk,
            be_value(a),
            be_value(b),
        ) == m,
{
    let k = choose|k: nat| elgamal_encrypted_with(pk, m, ct, k);
    let (c1, c2) = elgamal_pair(pk, m, k);
    lemma_be_bytes_len_monotone(c1, pk.p@);
    lemma_be_bytes_len_monotone(c2, pk.p@);
    lemma_pair_round_trip(be_bytes(c1), be_bytes(c2));
    lemma_be_value_of_bytes(c1);
    lemma_be_value_of_bytes(c2);
    lemma_elgamal_round_trip_value(sk, pk, m, k);
}

} // verus!
