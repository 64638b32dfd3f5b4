use std::collections::hash_map::DefaultHasher;
use std::hash::{Hash, Hasher};
use pke_rust::bignum::BigNat;
use pke_rust::dsa::{DSAPublicKey, DSASecretKey, DSASignature, DSA};
use pke_rust::error::CryptoError;
use pke_rust::randseed::rug_randseed_os_rng;
use pke_rust::traits::DigitalSignature;
use rug::integer::{IsPrime, Order};
use rug::rand::RandState;
use rug::Integer;

fn to_int(b: &BigNat) -> Integer {
    Integer::from_digits(&b.to_bytes_be(), Order::MsfBe)
}

fn from_int(i: &Integer) -> BigNat {
    BigNat::from_bytes_be(&i.to_digits::<u8>(Order::MsfBe))
}

// Domain-parameter generation gives up after 4 * L candidates for p, which
// happens for a small fraction of seeds; tests of other properties draw again.
fn fresh_keys(level: u64, rng: &mut RandState) -> (DSASecretKey, DSAPublicKey) {
    for _ in 0..5 {
        match DSA::keygen(level, rng) {
            Ok(keys) => return keys,
            Err(e) => assert_eq!(e, CryptoError::ParameterGenerationFailed),
        }
    }
    panic!("key generation failed five times");
}

#[test]
fn test_dsa_keygen() {
    let mut rng = RandState::new();
    rug_randseed_os_rng(128, &mut rng).unwrap();

    let result = DSA::keygen(112, &mut rng);
    assert!(result.is_ok());

    let (sk, pk) = result.unwrap();

    assert!(to_int(&pk.p) > Integer::ZERO);
    assert!(to_int(&pk.q) > Integer::ZERO);
    assert!(to_int(&pk.g) > 1);
    assert!(to_int(&pk.y) > 1);
    assert!(to_int(&sk.x) > Integer::ZERO);
    assert!(to_int(&sk.x) < to_int(&pk.q));
}

#[test]
fn test_domain_params_generation() {
    let mut rng = RandState::new();
    rug_randseed_os_rng(128, &mut rng).unwrap();

    let result = DSA::generate_domain_params(1024, 160, &mut rng);
    assert!(result.is_ok());

    let (p, q, g) = result.unwrap();
    let (p, q, g) = (to_int(&p), to_int(&q), to_int(&g));

    assert_eq!(p.significant_bits(), 1024);
    assert_eq!(q.significant_bits(), 160);
    assert!(g > 1);

    let p_minus_one = Integer::from(&p - 1);
    let remainder = p_minus_one % &q;
    assert_eq!(remainder, Integer::ZERO);
}

#[test]
fn test_dsa_sign_verify() {
    let mut rng = RandState::new();
    rug_randseed_os_rng(128, &mut rng).unwrap();
    let result = DSA::keygen(80, &mut rng);
    assert!(result.is_ok());

    let (sk, pk) = result.unwrap();
    let message = b"Test message for DSA signing";

    let signature = DSA::sign(&sk, message, &mut rng);
    assert!(signature.is_ok(), "Signing should succeed");

    let sig = signature.unwrap();
    let q = to_int(&pk.q);

    assert!(to_int(&sig.r) > Integer::ZERO && to_int(&sig.r) < q);
    assert!(to_int(&sig.s) > Integer::ZERO && to_int(&sig.s) < q);

    let verification = DSA::verify(&pk, message, &sig);
    assert!(verification.is_ok(), "Verification should not error");
    assert!(verification.unwrap(), "Signature should be valid");

    let wrong_message = b"Wrong message for DSA signing";
    let wrong_verification = DSA::verify(&pk, wrong_message, &sig);
    assert!(wrong_verification.is_ok(), "Verification should not error");
    assert!(!wrong_verification.unwrap(), "Wrong message should fail verification");
}

#[test]
fn test_dsa_invalid_signature() {
    let mut rng = RandState::new();
    rug_randseed_os_rng(128, &mut rng).unwrap();

    let (_, pk) = DSA::keygen(80, &mut rng).unwrap();
    let message = b"Test message";

    let invalid_sig1 = DSASignature::new(from_int(&Integer::ZERO), from_int(&Integer::from(123)));
    let result1 = DSA::verify(&pk, message, &invalid_sig1).unwrap();
    assert!(!result1, "Signature with r=0 should be invalid");

    let invalid_sig2 = DSASignature::new(from_int(&Integer::from(123)), from_int(&Integer::ZERO));
    let result2 = DSA::verify(&pk, message, &invalid_sig2).unwrap();
    assert!(!result2, "Signature with s=0 should be invalid");

    let invalid_sig3 = DSASignature::new(pk.q.duplicate(), from_int(&Integer::from(123)));
    let result3 = DSA::verify(&pk, message, &invalid_sig3).unwrap();
    assert!(!result3, "Signature with r>=q should be invalid");
}

#[test]
fn test_dsa_mathematical_properties() {
    let mut rng = RandState::new();
    rug_randseed_os_rng(128, &mut rng).unwrap();

    let (sk, pk) = DSA::keygen(80, &mut rng).unwrap();
    let (p, q, g, y, x) = (to_int(&pk.p), to_int(&pk.q), to_int(&pk.g), to_int(&pk.y), to_int(&sk.x));

    let g_q: Integer = g.pow_mod_ref(&q, &p).unwrap().into();
    assert_eq!(g_q, Integer::from(1), "g^q should be 1 mod p");

    let p_minus_one = Integer::from(&p - 1);
    let remainder = Integer::from(&p_minus_one % &q);
    assert_eq!(remainder, Integer::ZERO, "q should divide (p-1)");

    assert_eq!(p.is_probably_prime(50), IsPrime::Probably, "p should be prime");
    assert_eq!(q.is_probably_prime(50), IsPrime::Probably, "q should be prime");

    let calculated_y: Integer = g.pow_mod_ref(&x, &p).unwrap().into();
    assert_eq!(calculated_y, y, "y should equal g^x mod p");

    assert!(x > Integer::ZERO && x < q, "Private key should be in range (0, q)");
}

#[test]
fn test_dsa_deterministic_verification() {
    let mut rng = RandState::new();
    rug_randseed_os_rng(128, &mut rng).unwrap();

    let (sk, pk) = DSA::keygen(80, &mut rng).unwrap();
    let message = b"Test message for deterministic verification";

    let mut signatures = Vec::new();
    for _ in 0..5 {
        let sig = DSA::sign(&sk, message, &mut rng).unwrap();
        signatures.push(sig);
    }

    for (i, sig) in signatures.iter().enumerate() {
        let is_valid = DSA::verify(&pk, message, sig).unwrap();
        assert!(is_valid, "Signature {} should be valid", i);
    }

    for i in 0..signatures.len() {
        for j in i + 1..signatures.len() {
            assert!(
                signatures[i].r != signatures[j].r || signatures[i].s != signatures[j].s,
                "Signatures {} and {} should be different due to randomness",
                i,
                j
            );
        }
    }
}

#[test]
fn dsa_scenario_1024_160_test_and_fail() {
    let mut rng = RandState::new();
    rug_randseed_os_rng(128, &mut rng).unwrap();

    let (sk, pk) = fresh_keys(80, &mut rng);
    assert_eq!(to_int(&pk.p).significant_bits(), 1024);
    assert_eq!(to_int(&pk.q).significant_bits(), 160);

    let sig = DSA::sign(&sk, b"test", &mut rng).unwrap();
    let q = to_int(&pk.q);
    assert!(to_int(&sig.r) > 0 && to_int(&sig.r) < q);
    assert!(to_int(&sig.s) > 0 && to_int(&sig.s) < q);
    assert!(DSA::verify(&pk, b"test", &sig).unwrap());
    assert!(!DSA::verify(&pk, b"fail", &sig).unwrap());
}

#[test]
fn dsa_tampered_signature_is_rejected() {
    let mut rng = RandState::new();
    rug_randseed_os_rng(128, &mut rng).unwrap();

    let (sk, pk) = fresh_keys(80, &mut rng);
    let sig = DSA::sign(&sk, b"message", &mut rng).unwrap();
    let q = to_int(&pk.q);

    let r2 = from_int(&Integer::from((to_int(&sig.r) + 1u32) % &q));
    let tampered_r = DSASignature::new(r2, sig.s.duplicate());
    assert!(!DSA::verify(&pk, b"message", &tampered_r).unwrap());

    let s2 = from_int(&Integer::from((to_int(&sig.s) + 1u32) % &q));
    let tampered_s = DSASignature::new(sig.r.duplicate(), s2);
    assert!(!DSA::verify(&pk, b"message", &tampered_s).unwrap());

    let too_big_s = DSASignature::new(sig.r.duplicate(), pk.q.duplicate());
    assert!(!DSA::verify(&pk, b"message", &too_big_s).unwrap());
}

#[test]
fn dsa_params_table() {
    assert_eq!(DSA::get_dsa_params(80), Ok((1024, 160)));
    assert_eq!(DSA::get_dsa_params(112), Ok((2048, 224)));
    assert_eq!(DSA::get_dsa_params(128), Ok((2048, 256)));
    assert_eq!(DSA::get_dsa_params(192), Ok((3072, 256)));
    assert_eq!(DSA::get_dsa_params(256), Ok((3072, 256)));
    assert_eq!(DSA::get_dsa_params(100), Err(CryptoError::InvalidSecurityLevel));
}

#[test]
fn dsa_keygen_rejects_unknown_level() {
    let mut rng = RandState::new();
    assert_eq!(DSA::keygen(64, &mut rng).err(), Some(CryptoError::InvalidSecurityLevel));
}

#[test]
fn dsa_hash_message_is_stable_and_distinguishes() {
    let a = DSA::hash_message(b"test");
    let b = DSA::hash_message(b"test");
    let c = DSA::hash_message(b"fail");
    assert_eq!(a, b);
    assert_ne!(a, c);
}

fn small(v: u64) -> BigNat {
    BigNat::from_bytes_be(&v.to_be_bytes())
}

#[test]
fn dsa_sign_with_nonce_on_small_parameters() {

    // p = 23, q = 11, g = 4 has order 11, x = 3, y = 4^3 mod 23 = 18
    let sk = DSASecretKey::new(small(3), small(23), small(11), small(4));
    let pk = DSAPublicKey::new(small(23), small(11), small(4), small(18));
    let mut hasher = DefaultHasher::new();
    (b"test" as &[u8]).hash(&mut hasher);
    let h = hasher.finish() % 11;
    assert_eq!(DSA::hash_message(b"test").to_bytes_be(), {
        let mut hasher = DefaultHasher::new();
        (b"test" as &[u8]).hash(&mut hasher);
        BigNat::from_bytes_be(&hasher.finish().to_be_bytes()).to_bytes_be()
    });

    // k = 5: r = (4^5 mod 23) mod 11 = 12 mod 11 = 1, k^-1 = 9, s = 9 (h + 3) mod 11
    let sig = DSA::sign_with_nonce(&sk, b"test", &small(5)).unwrap();
    assert_eq!(sig.r, small(1));
    let s = (9 * (h + 3)) % 11;
    if s == 0 {
        return;
    }
    assert_eq!(sig.s, small(s));
    assert!(DSA::verify(&pk, b"test", &sig).unwrap());

    // k = 0 has no inverse modulo q, so it gives no signature
    assert!(DSA::sign_with_nonce(&sk, b"test", &small(0)).is_none());
}
