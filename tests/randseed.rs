use pke_rust::bignum::BigNat;
use pke_rust::error::CryptoError;
use pke_rust::randseed::{get_randseed_os_rng, rug_randseed_os_rng};
use rug::integer::Order;
use rug::rand::RandState;
use rug::Integer;

#[test]
fn get_randseed_os_rng_seed_bits_error() {
    for i in 0..8 {
        let r = get_randseed_os_rng(i);
        assert!(r.is_err());
    }
}

#[test]
fn get_randseed_os_rng_works_as_expected() {
    for seed_bits in [1024, 2048, 3072, 4096] {
        let mut v: Vec<BigNat> = Vec::new();

        for _ in 0..100 {
            match get_randseed_os_rng(seed_bits) {
                Ok(s) => v.push(s),
                Err(e) => panic!("{:?}", e),
            }
        }

        for s in v.windows(2) {
            assert_ne!(s[0], s[1]);
        }
    }
}

#[test]
fn seed_errors_and_size() {
    assert_eq!(get_randseed_os_rng(7).err(), Some(CryptoError::SeedTooShort));
    let mut rng = RandState::new();
    assert_eq!(rug_randseed_os_rng(0, &mut rng), Err(CryptoError::SeedTooShort));
    assert_eq!(rug_randseed_os_rng(8, &mut rng), Ok(()));
    let s = get_randseed_os_rng(15).unwrap();
    assert!(s.to_bytes_be().len() <= 1);
    let s = get_randseed_os_rng(64).unwrap();
    assert!(Integer::from_digits(&s.to_bytes_be(), Order::MsfBe).significant_bits() <= 64);
}

#[test]
fn big_nat_bytes_round_trip() {
    let n = BigNat::from_bytes_be(&[0, 0, 1, 2, 3]);
    assert_eq!(n.to_bytes_be(), vec![1, 2, 3]);
    assert!(!n.is_zero());
    assert!(n.is_odd());
    let zero = BigNat::from_bytes_be(&[0, 0]);
    assert!(zero.is_zero());
    assert_eq!(zero.to_bytes_be(), Vec::<u8>::new());
    assert_eq!(n.duplicate(), n);
    let base = BigNat::from_bytes_be(&[7]);
    let e = BigNat::from_bytes_be(&[4]);
    let m = BigNat::from_bytes_be(&[13]);
    assert_eq!(base.pow_mod_secure(&e, &m).to_bytes_be(), vec![9]);
    assert_eq!(base.pow_mod_secure(&zero, &m).to_bytes_be(), vec![1]);
}
