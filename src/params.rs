use crate::arith::bit_len;
use crate::bignum::{passes_prime_test, probably_prime, random_bits, set_bit, significant_bits, BigNat};
use crate::error::CryptoError;
use rug::rand::RandState;
use vstd::prelude::*;

verus! {

/// Candidates drawn per bit of the wanted size before a prime search gives up.
pub const PRIME_SEARCH_FACTOR: u32 = 64;

/// The modulus size, in bits, that RSA, ElGamal and Paillier use for a
/// security level.
pub open spec fn modulus_bits(sec_level: u64) -> Option<u64> {
    if sec_level == 80 {
        Some(1024)
    } else if sec_level == 112 {
        Some(2048)
    } else if sec_level == 128 {
        Some(3072)
    } else if sec_level == 192 {
        Some(7680)
    } else if sec_level == 256 {
        Some(15360)
    } else {
        None
    }
}

/// The lookup of `modulus_bits`, as a result.
pub open spec fn modulus_bits_result(sec_level: u64) -> Result<u64, CryptoError> {
    match modulus_bits(sec_level) {
        Some(b) => Ok(b),
        None => Err(CryptoError::InvalidSecurityLevel),
    }
}

pub fn lookup_modulus_bits(sec_level: u64) -> (r: Result<u64, CryptoError>)
    ensures
        r == modulus_bits_result(sec_level),
{
    match sec_level {
        80 => Ok(1024),
        112 => Ok(2048),
        128 => Ok(3072),
        192 => Ok(7680),
        256 => Ok(15360),
        _ => Err(CryptoError::InvalidSecurityLevel),
    }
}

/// An odd number of exactly `bits` bits that passed the prime test with
/// `reps` rounds.
pub open spec fn is_prime_candidate(p: nat, bits: nat, reps: nat) -> bool {
    &&& p % 2 == 1
    &&& bit_len(p) == bits
    &&& passes_prime_test(p, reps)
}

/// Draws odd numbers of exactly `bits` bits (top and bottom bit set) until
/// one passes the prime test with `reps` rounds, at most
/// `PRIME_SEARCH_FACTOR * bits` times.
pub fn random_prime(bits: u32, reps: u32, rng: &mut RandState<'_>) -> (r: Result<
    BigNat,
    CryptoError,
>)
    requires
        1 <= bits <= 65536,
        reps <= i32::MAX,
    ensures
        r matches Ok(p) ==> is_prime_candidate(p@, bits as nat, reps as nat),
        r matches Err(e) ==> e == CryptoError::ParameterGenerationFailed,
{
    let max_tries: u32 = PRIME_SEARCH_FACTOR * bits;
    let mut tries: u32 = 0;
    while tries < max_tries
        invariant
            tries <= max_tries,
            1 <= bits <= 65536,
            reps <= i32::MAX,
        decreases max_tries - tries,
    {
        let c = random_bits(bits as u64, rng);
        let c = set_bit(&c, bits - 1);
        let c = set_bit(&c, 0);
        if c.is_odd() && significant_bits(&c) == bits as u64 && probably_prime(&c, reps) {
            return Ok(c);
        }
        tries = tries + 1;
    }
    Err(CryptoError::ParameterGenerationFailed)
}

} // verus!
