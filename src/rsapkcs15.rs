use crate::arith::is_prime;
use crate::bignum::{
    be_bytes, be_value, lemma_be_bytes_minimal, lemma_be_bytes_of_minimal, lemma_be_value_at_least_first,
    lemma_be_value_lower, lemma_be_value_of_bytes, lemma_be_value_upper, lemma_drop_leading_zero,
    random_small,
};
use crate::error::CryptoError;
use crate::rsa::{
    lemma_rsa_round_trip, rsa_decrypt_value, rsa_encrypt_value, rsa_key_relations, RSAPublicKey,
    RSASecretKey, RSA,
};
use crate::traits::PublicEnc;
use rug::rand::RandState;
use vstd::prelude::*;

verus! {

/// Bytes of padding that the format asks for at the least.
pub const MIN_PADDING_BYTES: usize = 8;

/// Draws of one padding byte before encoding gives up.
pub const PADDING_BYTE_MAX_SAMPLES: u32 = 64;

/// `block` is the padded form of `plaintext` for a modulus of `mod_bytes`
/// bytes: `00 02`, non-zero padding bytes, `00`, then the plaintext.
pub open spec fn pkcs_padded(block: Seq<u8>, mod_bytes: nat, plaintext: Seq<u8>) -> bool {
    let sep = mod_bytes - plaintext.len() - 1;
    &&& block.len() == mod_bytes
    &&& plaintext.len() + 3 + MIN_PADDING_BYTES <= mod_bytes
    &&& block[0] == 0
    &&& block[1] == 2
    &&& forall|i: int| 2 <= i < sep ==> #[trigger] block[i] != 0
    &&& block[sep] == 0
    &&& block.subrange(sep + 1, mod_bytes as int) == plaintext
}

/// The index of the first zero byte of `s` at or after `i`, or `s.len()`.
pub open spec fn first_zero_from(s: Seq<u8>, i: int) -> int
    decreases s.len() - i,
{
    if i >= s.len() {
        s.len() as int
    } else if s[i] == 0 {
        i
    } else {
        first_zero_from(s, i + 1)
    }
}

/// Removes the padding from a decrypted block, whose leading zero byte the
/// RSA transform has dropped: the block must have `mod_bytes - 1` bytes and
/// start with `02`, and at least eight bytes must stand before the first
/// zero byte that follows.
pub open spec fn pkcs_unpad(mod_bytes: nat, block: Seq<u8>) -> Option<Seq<u8>> {
    if block.len() + 1 != mod_bytes || block.len() == 0 || block[0] != 2 {
        None
    } else {
        let z = first_zero_from(block, 1);
        if z >= block.len() || z - 1 < MIN_PADDING_BYTES {
            None
        } else {
            Some(block.subrange(z + 1, block.len() as int))
        }
    }
}

/// The byte length of the modulus.
pub open spec fn modulus_bytes(pk: RSAPublicKey) -> nat {
    be_bytes(pk.n@).len()
}

/// `c` is the RSA encryption of a padded form of `plaintext`.
pub open spec fn pkcs_encryption_of(pk: RSAPublicKey, plaintext: Seq<u8>, c: Seq<u8>) -> bool {
    exists|block: Seq<u8>|
        #![trigger pkcs_padded(block, modulus_bytes(pk), plaintext)]
        pkcs_padded(block, modulus_bytes(pk), plaintext) && c == be_bytes(
            rsa_encrypt_value(pk, be_value(block)),
        )
}

proof fn lemma_first_zero_at(s: Seq<u8>, i: int, z: int)
    requires
        0 <= i <= z < s.len(),
        s[z] == 0,
        forall|j: int| i <= j < z ==> #[trigger] s[j] != 0,
    ensures
        first_zero_from(s, i) == z,
    decreases z - i,
{
    if i < z {
        lemma_first_zero_at(s, i + 1, z);
    }
}

/// Unpadding the block, without its leading zero byte, gives the plaintext
/// back.
pub proof fn lemma_pkcs_unpad_padded(block: Seq<u8>, mod_bytes: nat, plaintext: Seq<u8>)
    requires
        pkcs_padded(block, mod_bytes, plaintext),
    ensures
        pkcs_unpad(mod_bytes, block.subrange(1, mod_bytes as int)) == Some(plaintext),
{
    let s = block.subrange(1, mod_bytes as int);
    let sep = mod_bytes - plaintext.len() - 1;
    assert forall|j: int| 1 <= j < sep - 1 implies #[trigger] s[j] != 0 by {
        assert(s[j] == block[j + 1]);
    }
    lemma_first_zero_at(s, 1, sep - 1);
    assert(s.subrange(sep, s.len() as int) =~= block.subrange(sep + 1, mod_bytes as int));
}

/// The value of a padded block lies in `(1, n)`, and its shortest bytes are
/// the block without its leading zero.
proof fn lemma_padded_block_value(pk: RSAPublicKey, block: Seq<u8>, plaintext: Seq<u8>)
    requires
        pkcs_padded(block, modulus_bytes(pk), plaintext),
    ensures
        1 < be_value(block) < pk.n@,
        be_bytes(be_value(block)) == block.subrange(1, block.len() as int),
{
    let l = modulus_bytes(pk);
    let rest = block.subrange(1, l as int);
    lemma_drop_leading_zero(block);
    lemma_be_value_at_least_first(rest);
    lemma_be_value_upper(rest);
    lemma_be_bytes_minimal(pk.n@);
    lemma_be_value_of_bytes(pk.n@);
    lemma_be_value_lower(be_bytes(pk.n@));
    lemma_be_bytes_of_minimal(rest);
}

pub struct RSAPKCS15;

impl RSAPKCS15 {
    /// A random non-zero byte, drawn again while it is zero.
    fn nonzero_byte(rng: &mut RandState<'_>) -> (r: Result<u8, CryptoError>)
        ensures
            r matches Ok(b) ==> b != 0,
            r matches Err(e) ==> e == CryptoError::ParameterGenerationFailed,
    {
        let mut tries: u32 = 0;
        while tries < PADDING_BYTE_MAX_SAMPLES
            decreases PADDING_BYTE_MAX_SAMPLES - tries,
        {
            tries = tries + 1;
            let x = random_small(8, rng);
            proof {
                vstd::arithmetic::power2::lemma2_to64();
            }
            if x != 0 {
                return Ok(x as u8);
            }
        }
        Err(CryptoError::ParameterGenerationFailed)
    }

    /// The padded form `00 02 || padding || 00 || plaintext` for the given
    /// non-zero padding bytes.
    pub fn pkcs_pad_with(mod_bytes: usize, plaintext: &[u8], padding: &[u8]) -> (r: Result<
        Vec<u8>,
        CryptoError,
    >)
        requires
            plaintext@.len() + 3 + MIN_PADDING_BYTES <= mod_bytes ==> padding@.len()
                + plaintext@.len() + 3 == mod_bytes,
            forall|i: int| 0 <= i < padding@.len() ==> #[trigger] padding@[i] != 0,
        ensures
            plaintext@.len() + 3 + MIN_PADDING_BYTES > mod_bytes ==> r == Err::<Vec<u8>, _>(
                CryptoError::PlaintextTooLong,
            ),
            plaintext@.len() + 3 + MIN_PADDING_BYTES <= mod_bytes ==> (r matches Ok(block)
                && block@ == seq![0u8, 2u8] + padding@ + seq![0u8] + plaintext@ && pkcs_padded(
                block@,
                mod_bytes as nat,
                plaintext@,
            )),
    {
        let plaintext_size = plaintext.len();
        if plaintext_size > mod_bytes || mod_bytes - plaintext_size < 3 + MIN_PADDING_BYTES {
            return Err(CryptoError::PlaintextTooLong);
        }
        let mut block: Vec<u8> = Vec::with_capacity(mod_bytes);
        block.push(0);
        block.push(2);
        let mut i: usize = 0;
        while i < padding.len()
            invariant
                i <= padding@.len(),
                block@ =~= seq![0u8, 2u8] + padding@.subrange(0, i as int),
            decreases padding@.len() - i,
        {
            block.push(padding[i]);
            i = i + 1;
        }
        block.push(0);
        let mut j: usize = 0;
        while j < plaintext_size
            invariant
                plaintext_size == plaintext@.len(),
                j <= plaintext_size,
                block@ =~= seq![0u8, 2u8] + padding@ + seq![0u8] + plaintext@.subrange(0, j as int),
            decreases plaintext_size - j,
        {
            block.push(plaintext[j]);
            j = j + 1;
        }
        proof {
            assert(padding@.subrange(0, padding@.len() as int) =~= padding@);
            assert(plaintext@.subrange(0, plaintext_size as int) =~= plaintext@);
            let b = block@;
            let sep = mod_bytes - plaintext@.len() - 1;
            assert forall|k: int| 2 <= k < sep implies #[trigger] b[k] != 0 by {
                assert(b[k] == padding@[k - 2]);
            }
            assert(b.subrange(sep + 1, mod_bytes as int) =~= plaintext@);
        }
        Ok(block)
    }

    /// Pads `plaintext` to exactly `mod_bytes` bytes with random non-zero
    /// padding bytes.
    pub fn pkcs_encode(mod_bytes: usize, plaintext: &[u8], rng: &mut RandState<'_>) -> (r: Result<
        Vec<u8>,
        CryptoError,
    >)
        ensures
            plaintext@.len() + 3 + MIN_PADDING_BYTES > mod_bytes ==> r == Err::<Vec<u8>, _>(
                CryptoError::PlaintextTooLong,
            ),
            r matches Ok(block) ==> pkcs_padded(block@, mod_bytes as nat, plaintext@),
            r matches Err(e) ==> e == CryptoError::PlaintextTooLong || e
                == CryptoError::ParameterGenerationFailed,
            plaintext@.len() + 3 + MIN_PADDING_BYTES <= mod_bytes ==> r != Err::<Vec<u8>, _>(
                CryptoError::PlaintextTooLong,
            ),
    {
        let plaintext_size = plaintext.len();
        if plaintext_size > mod_bytes || mod_bytes - plaintext_size < 3 + MIN_PADDING_BYTES {
            return Err(CryptoError::PlaintextTooLong);
        }
        let padding_size = mod_bytes - plaintext_size - 3;
        let mut padding: Vec<u8> = Vec::with_capacity(padding_size);
        while padding.len() < padding_size
            invariant
                plaintext_size == plaintext@.len(),
                plaintext_size + 3 + MIN_PADDING_BYTES <= mod_bytes,
                padding_size == mod_bytes - plaintext_size - 3,
                padding@.len() <= padding_size,
                forall|i: int| 0 <= i < padding@.len() ==> #[trigger] padding@[i] != 0,
            decreases padding_size - padding@.len(),
        {
            let x = RSAPKCS15::nonzero_byte(rng)?;
            padding.push(x);
        }
        RSAPKCS15::pkcs_pad_with(mod_bytes, plaintext, padding.as_slice())
    }

    /// Removes the padding from a decrypted block (see `pkcs_unpad`).
    pub fn pkcs_decode(mod_bytes: usize, plaintext: &[u8]) -> (r: Result<Vec<u8>, CryptoError>)
        ensures
            pkcs_unpad(mod_bytes as nat, plaintext@) is None ==> r == Err::<Vec<u8>, _>(
                CryptoError::MalformedPadding,
            ),
            pkcs_unpad(mod_bytes as nat, plaintext@) matches Some(m) ==> (r matches Ok(out)
                && out@ == m),
    {
        let plaintext_size = plaintext.len();
        if mod_bytes == 0 || plaintext_size == 0 || plaintext_size != mod_bytes - 1 || plaintext[0]
            != 2 {
            return Err(CryptoError::MalformedPadding);
        }
        let mut z: usize = 1;
        while z < plaintext_size && plaintext[z] != 0
            invariant
                1 <= z <= plaintext_size,
                plaintext_size == plaintext@.len(),
                first_zero_from(plaintext@, 1) == first_zero_from(plaintext@, z as int),
            decreases plaintext_size - z,
        {
            z = z + 1;
        }
        if z >= plaintext_size || z - 1 < MIN_PADDING_BYTES {
            return Err(CryptoError::MalformedPadding);
        }
        let mut out: Vec<u8> = Vec::new();
        let mut k: usize = z + 1;
        while k < plaintext_size
            invariant
                z + 1 <= k <= plaintext_size,
                plaintext_size == plaintext@.len(),
                out@ =~= plaintext@.subrange(z + 1, k as int),
            decreases plaintext_size - k,
        {
            out.push(plaintext[k]);
            k = k + 1;
        }
        Ok(out)
    }
}

impl PublicEnc for RSAPKCS15 {
    type SecretKey = RSASecretKey;
    type PublicKey = RSAPublicKey;

    open spec fn public_key_usable(pk: RSAPublicKey) -> bool {
        pk.usable()
    }

    open spec fn key_pair_usable(pk: RSAPublicKey, sk: RSASecretKey) -> bool {
        sk.usable()
    }

    /// The keys of RSA.
    fn keygen(sec_level: u64, rng: &mut RandState<'_>) -> (r: Result<
        (RSASecretKey, RSAPublicKey),
        CryptoError,
    >)
        ensures
            crate::params::modulus_bits(sec_level) is None ==> r == Err::<
                (RSASecretKey, RSAPublicKey),
                _,
            >(CryptoError::InvalidSecurityLevel),
            r matches Err(e) ==> crate::params::modulus_bits(sec_level) is None || e
                == CryptoError::ParameterGenerationFailed || e == CryptoError::NoModularInverse,
            r matches Ok((sk, pk)) ==> rsa_key_relations(sk, pk) && pk.usable() && sk.usable(),
    {
        RSA::keygen(sec_level, rng)
    }

    /// Pads the plaintext to the modulus length, then encrypts with RSA.
    fn encrypt(pk: &RSAPublicKey, plaintext: &[u8], rng: &mut RandState<'_>) -> (r: Result<
        Vec<u8>,
        CryptoError,
    >)
        ensures
            plaintext@.len() + 3 + MIN_PADDING_BYTES > modulus_bytes(*pk) ==> r == Err::<
                Vec<u8>,
                _,
            >(CryptoError::PlaintextTooLong),
            r matches Ok(c) ==> pkcs_encryption_of(*pk, plaintext@, c@),
            r matches Err(e) ==> e == CryptoError::PlaintextTooLong || e
                == CryptoError::ParameterGenerationFailed,
            plaintext@.len() + 3 + MIN_PADDING_BYTES <= modulus_bytes(*pk) ==> r != Err::<
                Vec<u8>,
                _,
            >(CryptoError::PlaintextTooLong),
    {
        let mod_bytes = pk.n.to_bytes_be().len();
        let padded = RSAPKCS15::pkcs_encode(mod_bytes, plaintext, rng)?;
        proof {
            lemma_padded_block_value(*pk, padded@, plaintext@);
        }
        let r = RSA::encrypt(pk, padded.as_slice(), rng);
        proof {
            assert(pkcs_padded(padded@, modulus_bytes(*pk), plaintext@));
            assert(r->Ok_0@ == be_bytes(rsa_encrypt_value(*pk, be_value(padded@))));
        }
        r
    }

    /// Decrypts with RSA, then removes the padding.
    fn decrypt(pk: &RSAPublicKey, sk: &RSASecretKey, ciphertext: &[u8]) -> (r: Result<
        Vec<u8>,
        CryptoError,
    >)
        ensures
            ({
                let block = be_bytes(rsa_decrypt_value(*sk, be_value(ciphertext@)));
                match pkcs_unpad(modulus_bytes(*pk), block) {
                    Some(m) => r matches Ok(out) && out@ == m,
                    None => r == Err::<Vec<u8>, _>(CryptoError::MalformedPadding),
                }
            }),
    {
        let padded = RSA::decrypt(pk, sk, ciphertext)?;
        let mod_bytes = pk.n.to_bytes_be().len();
        RSAPKCS15::pkcs_decode(mod_bytes, padded.as_slice())
    }
}

/// Decryption undoes encryption: for a generated key pair whose `p` and `q`
/// are prime, the padded plaintext comes back.
pub proof fn lemma_rsa_pkcs15_round_trip(
    sk: RSASecretKey,
    pk: RSAPublicKey,
    plaintext: Seq<u8>,
    c: Seq<u8>,
)
    requires
        rsa_key_relations(sk, pk),
        is_prime(sk.p@),
        is_prime(sk.q@),
        pkcs_encryption_of(pk, plaintext, c),
    ensures
        pkcs_unpad(modulus_bytes(pk), be_bytes(rsa_decrypt_value(sk, be_value(c))))
            == Some(plaintext),
{
    let block = choose|block: Seq<u8>|
        pkcs_padded(block, modulus_bytes(pk), plaintext) && c == be_bytes(
            rsa_encrypt_value(pk, be_value(block)),
        );
    lemma_padded_block_value(pk, block, plaintext);
    lemma_be_value_of_bytes(rsa_encrypt_value(pk, be_value(block)));
    lemma_rsa_round_trip(sk, pk, be_value(block));
    lemma_pkcs_unpad_padded(block, modulus_bytes(pk), plaintext);
}

} // verus!
