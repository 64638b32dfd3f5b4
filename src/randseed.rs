use crate::bignum::{be_value, seed_state, BigNat};
use crate::error::CryptoError;
use rand_core::{OsRng, RngCore};
use rug::rand::RandState;
use vstd::prelude::*;

verus! {

/// Relies on `OsRng::try_fill_bytes` (the operating system's entropy
/// source): on success, `len` bytes.
#[verifier::external_body]
fn os_random_bytes(len: usize) -> (r: Option<Vec<u8>>)
    ensures
        r matches Some(v) ==> v@.len() == len,
{
    let mut buf: Vec<u8> = vec![0; len];
    OsRng.try_fill_bytes(&mut buf).ok().map(|_| buf)
}

/// A seed of `seed_bits / 8` bytes drawn from the operating system's
/// entropy source, read as a big-endian integer.
pub fn get_randseed_os_rng(seed_bits: usize) -> (r: Result<BigNat, CryptoError>)
    ensures
        seed_bits < 8 ==> r == Err::<BigNat, _>(CryptoError::SeedTooShort),
        r matches Ok(s) ==> seed_bits >= 8 && exists|bytes: Seq<u8>|
            bytes.len() == seed_bits / 8 && s@ == #[trigger] be_value(bytes),
        r matches Err(e) ==> e == CryptoError::SeedTooShort || e
            == CryptoError::EntropyUnavailable,
        seed_bits >= 8 ==> r != Err::<BigNat, _>(CryptoError::SeedTooShort),
{
    let seed_bytes: usize = seed_bits / 8;
    if seed_bytes < 1 {
        return Err(CryptoError::SeedTooShort);
    }
    let bytes = match os_random_bytes(seed_bytes) {
        Some(b) => b,
        None => {
            return Err(CryptoError::EntropyUnavailable);
        },
    };
    let seed = BigNat::from_bytes_be(bytes.as_slice());
    Ok(seed)
}

/// Seeds `rng` with `seed_bits / 8` bytes of operating-system entropy.
pub fn rug_randseed_os_rng(seed_bits: usize, rng: &mut RandState<'_>) -> (r: Result<(), CryptoError>)
    ensures
        seed_bits < 8 ==> r == Err::<(), _>(CryptoError::SeedTooShort),
        r matches Err(e) ==> e == CryptoError::SeedTooShort || e
            == CryptoError::EntropyUnavailable,
        seed_bits >= 8 ==> r != Err::<(), _>(CryptoError::SeedTooShort),
{
    let seed = get_randseed_os_rng(seed_bits)?;
    seed_state(rng, &seed);
    Ok(())
}

} // verus!
