use pke_rust::bignum::BigNat;
use pke_rust::error::CryptoError;
use pke_rust::randseed::rug_randseed_os_rng;
use pke_rust::rsa::RSA;
use pke_rust::traits::PublicEnc;
use rug::integer::Order;
use rug::rand::RandState;
use rug::Integer;

fn to_int(b: &BigNat) -> Integer {
    Integer::from_digits(&b.to_bytes_be(), Order::MsfBe)
}

#[test]
fn rsa_encrypt_failes_for_message_out_of_range() {
    let mut rng = RandState::new();

    rug_randseed_os_rng(80, &mut rng).unwrap();

    let (_, pk) = RSA::keygen(80, &mut rng).unwrap();

    let m: Vec<u8> = pk.n.to_bytes_be();
    assert!(RSA::encrypt(&pk, &m, &mut rng).is_err());
}

#[test]
fn rsa_encrypt_works_as_expected() {
    let mut rng = RandState::new();

    rug_randseed_os_rng(80, &mut rng).unwrap();

    let (sk, pk) = RSA::keygen(80, &mut rng).unwrap();
    let input = ["test1", "test2", "test3"];

    for s in input {
        let m = s.as_bytes();
        let c = RSA::encrypt(&pk, m, &mut rng).unwrap();

        let decrypted_message = RSA::decrypt(&pk, &sk, &c).unwrap();
        assert_eq!(m, &decrypted_message);
    }
}

#[test]
fn rsa_key_invariants() {
    let mut rng = RandState::new();
    rug_randseed_os_rng(80, &mut rng).unwrap();

    let (sk, pk) = RSA::keygen(80, &mut rng).unwrap();
    let (p, q, n, e) = (to_int(&sk.p), to_int(&sk.q), to_int(&pk.n), to_int(&pk.e));
    assert_eq!(e, 65537);
    assert_eq!(n, Integer::from(&p * &q));
    assert_eq!(p.significant_bits(), 512);
    assert_eq!(q.significant_bits(), 512);
    let phi = Integer::from(&p - 1) * Integer::from(&q - 1);
    assert_eq!(Integer::from(e.gcd_ref(&phi)), 1);
    let d = Integer::from(e.invert_ref(&phi).unwrap());
    assert_eq!(to_int(&sk.d_p), Integer::from(&d % Integer::from(&p - 1)));
    assert_eq!(to_int(&sk.d_q), Integer::from(&d % Integer::from(&q - 1)));
    assert_eq!(Integer::from(&q * &to_int(&sk.q_inv)) % &p, 1);
}

#[test]
fn rsa_ciphertext_is_m_to_the_e() {
    let mut rng = RandState::new();
    rug_randseed_os_rng(80, &mut rng).unwrap();

    let (_, pk) = RSA::keygen(80, &mut rng).unwrap();
    let c = RSA::encrypt(&pk, &[0x01, 0x00], &mut rng).unwrap();
    let expected: Integer = Integer::from(256).pow_mod_ref(&to_int(&pk.e), &to_int(&pk.n)).unwrap().into();
    assert_eq!(Integer::from_digits(&c, Order::MsfBe), expected);
}

#[test]
fn rsa_message_bounds() {
    let mut rng = RandState::new();
    rug_randseed_os_rng(80, &mut rng).unwrap();

    let (sk, pk) = RSA::keygen(80, &mut rng).unwrap();
    assert_eq!(RSA::encrypt(&pk, &[1], &mut rng), Err(CryptoError::MessageOutOfRange));
    assert_eq!(RSA::encrypt(&pk, &[0, 0, 1], &mut rng), Err(CryptoError::MessageOutOfRange));
    assert_eq!(RSA::encrypt(&pk, &[], &mut rng), Err(CryptoError::MessageOutOfRange));
    let above = Integer::from(&to_int(&pk.n) + 7).to_digits::<u8>(Order::MsfBe);
    assert_eq!(RSA::encrypt(&pk, &above, &mut rng), Err(CryptoError::MessageOutOfRange));

    let two = RSA::encrypt(&pk, &[2], &mut rng).unwrap();
    assert_eq!(RSA::decrypt(&pk, &sk, &two).unwrap(), vec![2]);
    let largest = Integer::from(&to_int(&pk.n) - 1).to_digits::<u8>(Order::MsfBe);
    let c = RSA::encrypt(&pk, &largest, &mut rng).unwrap();
    assert_eq!(RSA::decrypt(&pk, &sk, &c).unwrap(), largest);
}

#[test]
fn rsa_mod_bits_table() {
    assert_eq!(RSA::get_mod_bits(80), Ok(1024));
    assert_eq!(RSA::get_mod_bits(112), Ok(2048));
    assert_eq!(RSA::get_mod_bits(128), Ok(3072));
    assert_eq!(RSA::get_mod_bits(192), Ok(7680));
    assert_eq!(RSA::get_mod_bits(256), Ok(15360));
    assert_eq!(RSA::get_mod_bits(81), Err(CryptoError::InvalidSecurityLevel));
    let mut rng = RandState::new();
    assert_eq!(RSA::keygen(81, &mut rng).err(), Some(CryptoError::InvalidSecurityLevel));
}

fn small(v: u64) -> BigNat {
    BigNat::from_bytes_be(&v.to_be_bytes())
}

#[test]
fn rsa_key_pair_from_small_primes() {
    // p = 61, q = 53: n = 3233, phi = 3120, d = 65537^-1 mod 3120 = 2753
    let (sk, pk) = RSA::key_pair_from_primes(small(61), small(53)).unwrap();
    assert_eq!(pk.n, small(3233));
    assert_eq!(pk.e, small(65537));
    assert_eq!(sk.d_p, small(2753 % 60));
    assert_eq!(sk.d_q, small(2753 % 52));
    assert_eq!(sk.q_inv, small(38)); // 53 * 38 = 2014 = 33 * 61 + 1
    let mut rng = RandState::new();
    let c = RSA::encrypt(&pk, &[65], &mut rng).unwrap();
    let expected: Integer = Integer::from(65).pow_mod_ref(&Integer::from(65537), &Integer::from(3233)).unwrap().into();
    assert_eq!(Integer::from_digits(&c, Order::MsfBe), expected);
    assert_eq!(RSA::decrypt(&pk, &sk, &c).unwrap(), vec![65]);

    assert_eq!(
        RSA::key_pair_from_primes(small(61), small(61)).err(),
        Some(CryptoError::ParameterGenerationFailed)
    );
    // 131074 = 2 * 65537, so e divides (p - 1)(q - 1)
    assert_eq!(
        RSA::key_pair_from_primes(small(131075), small(7)).err(),
        Some(CryptoError::ParameterGenerationFailed)
    );
    // q = 2 * 61 + 61 shares the factor 61 with p
    assert_eq!(
        RSA::key_pair_from_primes(small(61), small(183)).err(),
        Some(CryptoError::NoModularInverse)
    );
}
