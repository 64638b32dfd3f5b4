//! Classical public-key schemes over big integers: RSA (raw and with
//! PKCS#1 v1.5 padding), ElGamal, Paillier and DSA, with their keys, and the
//! seeding of the random generator that they draw from.
pub mod arith;
pub mod bignum;
pub mod error;
pub mod params;
pub mod traits;
pub mod rsa;
pub mod dsa;
pub mod el_gamal;
pub mod paillier;
pub mod rsapkcs15;
pub mod randseed;
pub mod theorems;
