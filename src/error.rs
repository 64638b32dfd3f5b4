use vstd::prelude::*;

verus! {

/// The one error type shared by every scheme of the library.
#[derive(Debug, Clone, Copy, PartialEq, Eq, Structural)]
pub enum CryptoError {
    /// The security level names none of the supported strengths.
    InvalidSecurityLevel,
    /// A sampling loop (prime search, domain parameters, nonces, padding)
    /// used up its retry budget.
    ParameterGenerationFailed,
    /// The message, read as a big-endian integer, lies outside the plaintext space.
    MessageOutOfRange,
    /// The ciphertext, read as a big-endian integer, lies outside the ciphertext space.
    CiphertextOutOfRange,
    /// The plaintext leaves fewer than eight bytes of padding.
    PlaintextTooLong,
    /// A decrypted block does not carry a well-formed padding.
    MalformedPadding,
    /// The ciphertext does not decode as a pair of byte arrays.
    MalformedCiphertext,
    /// A required modular inverse does not exist.
    NoModularInverse,
    /// Fewer than eight seed bits were asked for.
    SeedTooShort,
    /// The operating system's entropy source failed.
    EntropyUnavailable,
}

} // verus!
