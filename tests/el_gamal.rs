use pke_rust::el_gamal::{ElGamalPublicKey, ElGamalSecretKey};
use pke_rust::bignum::BigNat;
use pke_rust::el_gamal::ElGamal;
use pke_rust::error::CryptoError;
use pke_rust::randseed::rug_randseed_os_rng;
use pke_rust::traits::PublicEnc;
use rug::integer::Order;
use rug::rand::RandState;
use rug::Integer;

fn to_int(b: &BigNat) -> Integer {
    Integer::from_digits(&b.to_bytes_be(), Order::MsfBe)
}

#[test]
fn el_gamal_encrypt_failes_for_message_out_of_range() {
    let mut rng = RandState::new();

    match rug_randseed_os_rng(128, &mut rng) {
        Ok(()) => (),
        Err(e) => panic!("{:?}", e),
    };

    let (_, pk) = ElGamal::keygen(128, &mut rng).unwrap();

    let m: Vec<u8> = pk.p.to_bytes_be();
    assert!(ElGamal::encrypt(&pk, &m, &mut rng).is_err());
}

#[test]
fn el_gamal_encrypt_works_as_expected() {
    let mut rng = RandState::new();

    rug_randseed_os_rng(128, &mut rng).unwrap();

    let (sk, pk) = ElGamal::keygen(128, &mut rng).unwrap();
    let input = ["test1", "test2", "test3"];

    for s in input {
        let m = s.as_bytes();
        let c = ElGamal::encrypt(&pk, m, &mut rng).unwrap();

        let decrypted_message = ElGamal::decrypt(&pk, &sk, &c).unwrap();
        assert_eq!(m, &decrypted_message);
    }
}

#[test]
fn el_gamal_keys_have_the_stated_shape() {
    let mut rng = RandState::new();
    rug_randseed_os_rng(128, &mut rng).unwrap();

    let (sk, pk) = ElGamal::keygen(80, &mut rng).unwrap();
    let (p, q, g, h, x) = (to_int(&pk.p), to_int(&pk.q), to_int(&pk.g), to_int(&pk.h), to_int(&sk.x));
    assert_eq!(p.significant_bits(), 1024);
    assert_eq!(q.significant_bits(), 512);
    assert_ne!(p.is_probably_prime(30), rug::integer::IsPrime::No);
    assert_eq!(g, 4);
    assert!(x > 1 && x < Integer::from(&p - 1));
    let expected_h: Integer = g.pow_mod_ref(&x, &p).unwrap().into();
    assert_eq!(h, expected_h);
}

#[test]
fn el_gamal_largest_message_and_zero_round_trip() {
    let mut rng = RandState::new();
    rug_randseed_os_rng(128, &mut rng).unwrap();

    let (sk, pk) = ElGamal::keygen(80, &mut rng).unwrap();
    let largest = Integer::from(&to_int(&pk.p) - 1).to_digits::<u8>(Order::MsfBe);
    let c = ElGamal::encrypt(&pk, &largest, &mut rng).unwrap();
    assert_eq!(ElGamal::decrypt(&pk, &sk, &c).unwrap(), largest);

    let c = ElGamal::encrypt(&pk, &[], &mut rng).unwrap();
    assert_eq!(ElGamal::decrypt(&pk, &sk, &c).unwrap(), Vec::<u8>::new());
}

#[test]
fn el_gamal_ciphertexts_of_one_message_differ() {
    let mut rng = RandState::new();
    rug_randseed_os_rng(128, &mut rng).unwrap();

    let (sk, pk) = ElGamal::keygen(80, &mut rng).unwrap();
    let c1 = ElGamal::encrypt(&pk, b"same", &mut rng).unwrap();
    let c2 = ElGamal::encrypt(&pk, b"same", &mut rng).unwrap();
    assert_ne!(c1, c2);
    assert_eq!(ElGamal::decrypt(&pk, &sk, &c1).unwrap(), b"same".to_vec());
    assert_eq!(ElGamal::decrypt(&pk, &sk, &c2).unwrap(), b"same".to_vec());
}

#[test]
fn el_gamal_ciphertext_wire_form() {
    let mut rng = RandState::new();
    rug_randseed_os_rng(128, &mut rng).unwrap();

    let (_, pk) = ElGamal::keygen(80, &mut rng).unwrap();
    let c = ElGamal::encrypt(&pk, b"x", &mut rng).unwrap();
    let n1 = u64::from_le_bytes(c[0..8].try_into().unwrap()) as usize;
    let n2 = u64::from_le_bytes(c[8 + n1..16 + n1].try_into().unwrap()) as usize;
    assert_eq!(c.len(), 16 + n1 + n2);
    let p = to_int(&pk.p);
    assert!(Integer::from_digits(&c[8..8 + n1], Order::MsfBe) < p);
    assert!(Integer::from_digits(&c[16 + n1..], Order::MsfBe) < p);
}

#[test]
fn el_gamal_malformed_ciphertext() {
    let mut rng = RandState::new();
    rug_randseed_os_rng(128, &mut rng).unwrap();

    let (sk, pk) = ElGamal::keygen(80, &mut rng).unwrap();
    assert_eq!(ElGamal::decrypt(&pk, &sk, &[1, 2, 3]), Err(CryptoError::MalformedCiphertext));
    let mut short = vec![5u8, 0, 0, 0, 0, 0, 0, 0];
    short.extend_from_slice(&[1, 2]);
    assert_eq!(ElGamal::decrypt(&pk, &sk, &short), Err(CryptoError::MalformedCiphertext));
}

#[test]
fn el_gamal_mod_bits_and_unknown_level() {
    assert_eq!(ElGamal::get_mod_bits(80), Ok(1024));
    assert_eq!(ElGamal::get_mod_bits(256), Ok(15360));
    assert_eq!(ElGamal::get_mod_bits(1), Err(CryptoError::InvalidSecurityLevel));
    let mut rng = RandState::new();
    assert_eq!(ElGamal::keygen(100, &mut rng).err(), Some(CryptoError::InvalidSecurityLevel));
}

fn small(v: u64) -> BigNat {
    BigNat::from_bytes_be(&v.to_be_bytes())
}

#[test]
fn el_gamal_encrypt_with_nonce_on_small_key() {
    // p = 23, g = 4, x = 3, h = 4^3 mod 23 = 18
    let pk = ElGamalPublicKey::new(small(23), small(11), small(4), small(18));
    let sk = ElGamalSecretKey::new(small(3));
    // k = 2: c1 = 16, c2 = 18^2 * 5 mod 23 = 10
    let c = ElGamal::encrypt_with_nonce(&pk, &[5], &small(2)).unwrap();
    let mut expected = vec![1u8, 0, 0, 0, 0, 0, 0, 0, 16];
    expected.extend_from_slice(&[1u8, 0, 0, 0, 0, 0, 0, 0, 10]);
    assert_eq!(c, expected);
    assert_eq!(ElGamal::decrypt(&pk, &sk, &c).unwrap(), vec![5]);
    assert_eq!(
        ElGamal::encrypt_with_nonce(&pk, &[23], &small(2)),
        Err(CryptoError::MessageOutOfRange)
    );
    assert_eq!(ElGamal::encrypt_with_nonce(&pk, &[22], &small(2)).is_ok(), true);
}
