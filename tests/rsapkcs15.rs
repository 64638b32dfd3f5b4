use pke_rust::error::CryptoError;
use pke_rust::randseed::rug_randseed_os_rng;
use pke_rust::rsapkcs15::RSAPKCS15;
use pke_rust::traits::PublicEnc;
use rug::rand::RandState;

#[test]
fn rsa_pkcs15_encrypt_failes_for_message_out_of_range() {
    let mut rng = RandState::new();

    match rug_randseed_os_rng(128, &mut rng) {
        Ok(()) => (),
        Err(e) => panic!("{:?}", e),
    };

    let (_, pk) = RSAPKCS15::keygen(128, &mut rng).unwrap();

    let m: Vec<u8> = pk.n.to_bytes_be();
    assert!(RSAPKCS15::encrypt(&pk, &m, &mut rng).is_err());
}

#[test]
fn rsa_pkcs15_encrypt_works_as_expected() {
    let mut rng = RandState::new();

    rug_randseed_os_rng(128, &mut rng).unwrap();

    let (sk, pk) = RSAPKCS15::keygen(128, &mut rng).unwrap();
    let input = ["test1", "test2", "test3"];

    for s in input {
        let m = s.as_bytes();
        let c = RSAPKCS15::encrypt(&pk, m, &mut rng).unwrap();

        let decrypted_message = RSAPKCS15::decrypt(&pk, &sk, &c).unwrap();
        assert_eq!(m, &decrypted_message);
    }
}

#[test]
fn rsa_pkcs15_scenario_eight_bytes_under_1024_bits() {
    let mut rng = RandState::new();
    rug_randseed_os_rng(128, &mut rng).unwrap();

    let (sk, pk) = RSAPKCS15::keygen(80, &mut rng).unwrap();
    assert_eq!(pk.n.to_bytes_be().len(), 128);
    let m = [1u8, 2, 3, 4, 5, 6, 7, 8];
    let c = RSAPKCS15::encrypt(&pk, &m, &mut rng).unwrap();
    assert_eq!(RSAPKCS15::decrypt(&pk, &sk, &c).unwrap(), m.to_vec());

    let longest = vec![7u8; 128 - 11];
    let c = RSAPKCS15::encrypt(&pk, &longest, &mut rng).unwrap();
    assert_eq!(RSAPKCS15::decrypt(&pk, &sk, &c).unwrap(), longest);

    let too_long = vec![7u8; 128 - 10];
    assert_eq!(RSAPKCS15::encrypt(&pk, &too_long, &mut rng), Err(CryptoError::PlaintextTooLong));
}

#[test]
fn pkcs_encode_layout() {
    let mut rng = RandState::new();
    rug_randseed_os_rng(128, &mut rng).unwrap();

    let block = RSAPKCS15::pkcs_encode(20, &[9, 8, 7], &mut rng).unwrap();
    assert_eq!(block.len(), 20);
    assert_eq!(block[0], 0);
    assert_eq!(block[1], 2);
    assert!(block[2..16].iter().all(|&b| b != 0));
    assert_eq!(block[16], 0);
    assert_eq!(&block[17..], &[9, 8, 7]);

    assert!(RSAPKCS15::pkcs_encode(13, &[1, 2, 3], &mut rng).is_err());
    assert_eq!(RSAPKCS15::pkcs_encode(13, &[1, 2], &mut rng).unwrap().len(), 13);
    assert_eq!(RSAPKCS15::pkcs_encode(5, &[], &mut rng), Err(CryptoError::PlaintextTooLong));
}

#[test]
fn pkcs_decode_accepts_and_rejects() {
    // the block as RSA decryption returns it: the leading zero byte is gone
    let mut block = vec![2u8];
    block.extend_from_slice(&[0x55; 8]);
    block.push(0);
    block.extend_from_slice(b"hi");
    assert_eq!(RSAPKCS15::pkcs_decode(block.len() + 1, &block), Ok(b"hi".to_vec()));

    let mut empty_message = vec![2u8];
    empty_message.extend_from_slice(&[0x55; 9]);
    empty_message.push(0);
    assert_eq!(RSAPKCS15::pkcs_decode(12, &empty_message), Ok(vec![]));

    let mut short_padding = vec![2u8];
    short_padding.extend_from_slice(&[0x55; 7]);
    short_padding.push(0);
    short_padding.extend_from_slice(b"hi");
    assert_eq!(
        RSAPKCS15::pkcs_decode(short_padding.len() + 1, &short_padding),
        Err(CryptoError::MalformedPadding)
    );

    let mut wrong_start = block.clone();
    wrong_start[0] = 1;
    assert_eq!(RSAPKCS15::pkcs_decode(block.len() + 1, &wrong_start), Err(CryptoError::MalformedPadding));

    let no_zero = vec![2u8; 20];
    assert_eq!(RSAPKCS15::pkcs_decode(21, &no_zero), Err(CryptoError::MalformedPadding));

    assert_eq!(RSAPKCS15::pkcs_decode(block.len(), &block), Err(CryptoError::MalformedPadding));
    assert_eq!(RSAPKCS15::pkcs_decode(0, &[]), Err(CryptoError::MalformedPadding));
}

#[test]
fn pkcs_pad_with_exact_block() {
    let padding = [9u8; 9];
    let block = RSAPKCS15::pkcs_pad_with(14, &[0xAB, 0xCD], &padding).unwrap();
    let mut expected = vec![0u8, 2];
    expected.extend_from_slice(&padding);
    expected.push(0);
    expected.extend_from_slice(&[0xAB, 0xCD]);
    assert_eq!(block, expected);
    assert_eq!(RSAPKCS15::pkcs_decode(14, &block[1..]), Ok(vec![0xAB, 0xCD]));
    assert_eq!(RSAPKCS15::pkcs_pad_with(12, &[1, 2], &[]), Err(CryptoError::PlaintextTooLong));
}
