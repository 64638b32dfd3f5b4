use pke_rust::paillier::{PaillierPublicKey, PaillierSecretKey};
use pke_rust::bignum::BigNat;
use pke_rust::error::CryptoError;
use pke_rust::paillier::Paillier;
use pke_rust::randseed::rug_randseed_os_rng;
use pke_rust::traits::PublicEnc;
use rug::integer::Order;
use rug::rand::RandState;
use rug::Integer;

fn to_int(b: &BigNat) -> Integer {
    Integer::from_digits(&b.to_bytes_be(), Order::MsfBe)
}

#[test]
fn paillier_encrypt_failes_for_message_out_of_range() {
    let mut rng = RandState::new();

    rug_randseed_os_rng(128, &mut rng).unwrap();

    let (_, pk) = Paillier::keygen(128, &mut rng).unwrap();

    let m: Vec<u8> = pk.n.to_bytes_be();
    assert!(Paillier::encrypt(&pk, &m, &mut rng).is_err());
}

#[test]
fn paillier_encrypt_works_as_expected() {
    let mut rng = RandState::new();

    rug_randseed_os_rng(128, &mut rng).unwrap();

    let (sk, pk) = Paillier::keygen(128, &mut rng).unwrap();
    let input = ["t1", "t1", "t1"];

    for s in input {
        let m = s.as_bytes();
        let c = Paillier::encrypt(&pk, m, &mut rng).unwrap();

        let decrypted_message = Paillier::decrypt(&pk, &sk, &c).unwrap();
        assert_eq!(m, &decrypted_message);
    }
}

#[test]
fn paillier_homomorphic_addition() {
    let mut rng = RandState::new();
    rug_randseed_os_rng(128, &mut rng).unwrap();

    let (sk, pk) = Paillier::keygen(80, &mut rng).unwrap();
    let n = to_int(&pk.n);
    let n_square = to_int(&pk.n_square);
    let m1 = Integer::from(123_456_789u64);
    let m2 = Integer::from(&n - 5u32);
    let c1 = Paillier::encrypt(&pk, &m1.to_digits::<u8>(Order::MsfBe), &mut rng).unwrap();
    let c2 = Paillier::encrypt(&pk, &m2.to_digits::<u8>(Order::MsfBe), &mut rng).unwrap();
    let product = Integer::from_digits(&c1, Order::MsfBe) * Integer::from_digits(&c2, Order::MsfBe);
    let product = product % &n_square;
    let sum = Paillier::decrypt(&pk, &sk, &product.to_digits::<u8>(Order::MsfBe)).unwrap();
    let expected = Integer::from(&m1 + &m2) % &n;
    assert_eq!(Integer::from_digits(&sum, Order::MsfBe), expected);
}

#[test]
fn paillier_zero_and_largest_message_round_trip() {
    let mut rng = RandState::new();
    rug_randseed_os_rng(128, &mut rng).unwrap();

    let (sk, pk) = Paillier::keygen(80, &mut rng).unwrap();
    let c = Paillier::encrypt(&pk, &[], &mut rng).unwrap();
    assert_eq!(Paillier::decrypt(&pk, &sk, &c).unwrap(), Vec::<u8>::new());

    let largest = Integer::from(&to_int(&pk.n) - 1).to_digits::<u8>(Order::MsfBe);
    let c = Paillier::encrypt(&pk, &largest, &mut rng).unwrap();
    assert_eq!(Paillier::decrypt(&pk, &sk, &c).unwrap(), largest);
}

#[test]
fn paillier_key_shape() {
    let mut rng = RandState::new();
    rug_randseed_os_rng(128, &mut rng).unwrap();

    let (sk, pk) = Paillier::keygen(80, &mut rng).unwrap();
    let n = to_int(&pk.n);
    assert_eq!(n.significant_bits() >= 1023, true);
    assert_eq!(to_int(&pk.n_square), Integer::from(n.square_ref()));
    assert_eq!(to_int(&pk.g), Integer::from(&n + 1));
    let lm = Integer::from(&to_int(&sk.lambda) * &to_int(&sk.mu)) % &n;
    assert_eq!(lm, 1);
}

#[test]
fn paillier_ciphertext_out_of_range() {
    let mut rng = RandState::new();
    rug_randseed_os_rng(128, &mut rng).unwrap();

    let (sk, pk) = Paillier::keygen(80, &mut rng).unwrap();
    assert_eq!(Paillier::decrypt(&pk, &sk, &[]), Err(CryptoError::CiphertextOutOfRange));
    assert_eq!(Paillier::decrypt(&pk, &sk, &[0, 0]), Err(CryptoError::CiphertextOutOfRange));
    let too_big = Integer::from(&to_int(&pk.n_square) + 1).to_digits::<u8>(Order::MsfBe);
    assert_eq!(Paillier::decrypt(&pk, &sk, &too_big), Err(CryptoError::CiphertextOutOfRange));
    let m = pk.n.to_bytes_be();
    assert_eq!(Paillier::encrypt(&pk, &m, &mut rng), Err(CryptoError::MessageOutOfRange));
}

#[test]
fn paillier_mod_bits_table() {
    assert_eq!(Paillier::get_mod_bits(112), Ok(2048));
    assert_eq!(Paillier::get_mod_bits(192), Ok(7680));
    assert_eq!(Paillier::get_mod_bits(0), Err(CryptoError::InvalidSecurityLevel));
}

fn small(v: u64) -> BigNat {
    BigNat::from_bytes_be(&v.to_be_bytes())
}

#[test]
fn paillier_encrypt_with_blinding_on_small_key() {
    // p = 3, q = 5: n = 15, n^2 = 225, g = 16, lambda = 8, mu = 2
    let pk = PaillierPublicKey::new(small(15), small(225), small(16));
    let sk = PaillierSecretKey::new(small(8), small(2));
    let c = Paillier::encrypt_with_blinding(&pk, &[7], &small(2)).unwrap();
    let g_m: Integer = Integer::from(16).pow_mod_ref(&Integer::from(7), &Integer::from(225)).unwrap().into();
    let r_n: Integer = Integer::from(2).pow_mod_ref(&Integer::from(15), &Integer::from(225)).unwrap().into();
    let expected = (g_m * r_n) % Integer::from(225);
    assert_eq!(Integer::from_digits(&c, Order::MsfBe), expected);
    assert_eq!(Paillier::decrypt(&pk, &sk, &c).unwrap(), vec![7]);
    assert_eq!(
        Paillier::encrypt_with_blinding(&pk, &[15], &small(2)),
        Err(CryptoError::MessageOutOfRange)
    );

    // homomorphic: 7 + 12 = 19 = 4 mod 15
    let c2 = Paillier::encrypt_with_blinding(&pk, &[12], &small(4)).unwrap();
    let product = Integer::from(Integer::from_digits(&c, Order::MsfBe) * Integer::from_digits(&c2, Order::MsfBe)) % Integer::from(225);
    let sum = Paillier::decrypt(&pk, &sk, &product.to_digits::<u8>(Order::MsfBe)).unwrap();
    assert_eq!(sum, vec![4]);
    let _ = to_int(&pk.n);
}

#[test]
fn paillier_key_pair_from_small_primes() {
    let (sk, pk) = Paillier::key_pair_from_primes(small(3), small(5)).unwrap();
    assert_eq!(pk.n, small(15));
    assert_eq!(pk.n_square, small(225));
    assert_eq!(pk.g, small(16));
    assert_eq!(sk.lambda, small(8));
    assert_eq!(sk.mu, small(2));
    assert_eq!(
        Paillier::key_pair_from_primes(small(5), small(5)).err(),
        Some(CryptoError::ParameterGenerationFailed)
    );
    // n = 21 and lambda = 12 share the factor 3
    assert_eq!(
        Paillier::key_pair_from_primes(small(3), small(7)).err(),
        Some(CryptoError::ParameterGenerationFailed)
    );
}
