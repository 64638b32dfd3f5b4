use crate::error::CryptoError;
use rug::rand::RandState;
use vstd::prelude::*;

verus! {

/// A public-key encryption scheme over byte messages.
pub trait PublicEnc {
    type SecretKey;
    type PublicKey;

    /// The public key can be used by `encrypt`.
    spec fn public_key_usable(pk: Self::PublicKey) -> bool;

    /// The two keys can be used together by `decrypt`.
    spec fn key_pair_usable(pk: Self::PublicKey, sk: Self::SecretKey) -> bool;

    /// Generates a key pair for the given security level.
    fn keygen(sec_level: u64, rng: &mut RandState<'_>) -> (r: Result<
        (Self::SecretKey, Self::PublicKey),
        CryptoError,
    >)
        ensures
            r matches Ok((sk, pk)) ==> Self::public_key_usable(pk) && Self::key_pair_usable(
                pk,
                sk,
            ),
    ;

    /// Encrypts a byte message, read as a big-endian integer.
    fn encrypt(pk: &Self::PublicKey, plaintext: &[u8], rng: &mut RandState<'_>) -> (r: Result<
        Vec<u8>,
        CryptoError,
    >)
        requires
            Self::public_key_usable(*pk),
    ;

    /// Decrypts a ciphertext made by `encrypt`.
    fn decrypt(pk: &Self::PublicKey, sk: &Self::SecretKey, ciphertext: &[u8]) -> (r: Result<
        Vec<u8>,
        CryptoError,
    >)
        requires
            Self::key_pair_usable(*pk, *sk),
    ;
}

/// A digital signature scheme over byte messages.
pub trait DigitalSignature {
    type SecretKey;
    type PublicKey;
    type Signature;

    /// The secret key can be used by `sign`.
    spec fn secret_key_usable(sk: Self::SecretKey) -> bool;

    /// The public key can be used by `verify`.
    spec fn public_key_usable(pk: Self::PublicKey) -> bool;

    /// Generates a key pair for the given security level.
    fn keygen(sec_level: u64, rng: &mut RandState<'_>) -> (r: Result<
        (Self::SecretKey, Self::PublicKey),
        CryptoError,
    >)
        ensures
            r matches Ok((sk, pk)) ==> Self::secret_key_usable(sk) && Self::public_key_usable(
                pk,
            ),
    ;

    /// Signs a byte message.
    fn sign(sk: &Self::SecretKey, message: &[u8], rng: &mut RandState<'_>) -> (r: Result<
        Self::Signature,
        CryptoError,
    >)
        requires
            Self::secret_key_usable(*sk),
    ;

    /// Checks a signature; a malformed signature is reported as `Ok(false)`.
    fn verify(pk: &Self::PublicKey, message: &[u8], signature: &Self::Signature) -> (r: Result<
        bool,
        CryptoError,
    >)
        requires
            Self::public_key_usable(*pk),
        ensures
            r is Ok,
    ;
}

/// A secret key that can be generated from a security level alone.
pub trait SecretKey {
    fn gen(sec_level: u64) -> Result<Self, CryptoError> where Self: std::marker::Sized;
}

/// A public key that can be generated from a security level alone.
pub trait PublicKey {
    fn gen(sec_level: u64) -> Result<Self, CryptoError> where Self: std::marker::Sized;
}

} // verus!
