use rune::crypto::{decrypt, decrypts_ok, derive_key, encrypt, open_data_file, seal_data_file};
use rune::models::{ArgonParams, EncryptedFile, ParamsError, RuneError};

fn test_params() -> ArgonParams {
    ArgonParams { memory_kib: 8_192, iterations: 1, parallelism: 1 }
}

#[test]
fn derive_key_is_deterministic_and_salt_separated() {
    let params = test_params();
    let first = derive_key("correct horse battery staple", &[1u8; 32], &params).unwrap();
    let repeated = derive_key("correct horse battery staple", &[1u8; 32], &params).unwrap();
    let other_salt = derive_key("correct horse battery staple", &[2u8; 32], &params).unwrap();

    assert_eq!(first, repeated);
    assert_ne!(first, other_salt);
}

#[test]
fn encrypt_decrypt_round_trip() {
    let key = [7u8; 32];
    let plaintext = b"private rune note";
    let encrypted = encrypt(&key, plaintext).unwrap();

    assert_ne!(encrypted.ciphertext, plaintext);
    assert_eq!(decrypt(&key, &encrypted).unwrap(), plaintext);
}

#[test]
fn wrong_key_and_tampering_are_rejected() {
    let key = [7u8; 32];
    let encrypted = encrypt(&key, b"authenticated payload").unwrap();

    assert!(decrypt(&[8u8; 32], &encrypted).is_err());

    let mut tampered = encrypted;
    tampered.ciphertext[0] ^= 0x80;
    assert!(decrypt(&key, &tampered).is_err());
}

#[test]
fn every_encryption_uses_a_fresh_nonce() {
    let key = [7u8; 32];
    let first = encrypt(&key, b"same plaintext").unwrap();
    let second = encrypt(&key, b"same plaintext").unwrap();

    assert_ne!(first.nonce, second.nonce);
    assert_ne!(first.ciphertext, second.ciphertext);
}

#[test]
fn derive_key_refuses_costs_argon2_rejects() {
    // Parallelism 0 and too little memory per lane are refused by Argon2.
    let bad = ArgonParams { memory_kib: 8_192, iterations: 1, parallelism: 0 };
    assert_eq!(derive_key("pw", &[0u8; 32], &bad), Err(RuneError::Crypto));
    let bad_iter = ArgonParams { memory_kib: 8_192, iterations: 0, parallelism: 1 };
    assert_eq!(derive_key("pw", &[0u8; 32], &bad_iter), Err(RuneError::Crypto));
}

#[test]
fn encryption_adds_a_sixteen_byte_tag() {
    let key = [9u8; 32];
    let enc = encrypt(&key, b"abc").unwrap();
    assert_eq!(enc.ciphertext.len(), 3 + 16);
    assert_eq!(enc.salt, [0u8; 32]);
}

#[test]
fn data_file_round_trip_and_errors() {
    let key = [4u8; 32];
    let file = seal_data_file(&key, b"board").unwrap();
    assert_eq!(file.len(), 5 + 28);
    assert_eq!(open_data_file(&key, &file).unwrap(), b"board");
    assert!(decrypts_ok(&key, &file));
    assert!(!decrypts_ok(&[5u8; 32], &file));
    assert_eq!(open_data_file(&[5u8; 32], &file), Err(RuneError::Crypto));
    assert_eq!(open_data_file(&key, &file[..27]), Err(RuneError::Format));
}

#[test]
fn params_presets_and_validation() {
    assert_eq!(ArgonParams::balanced(), ArgonParams { memory_kib: 65536, iterations: 3, parallelism: 4 });
    assert_eq!(ArgonParams::fast().memory_kib, 19456);
    assert_eq!(ArgonParams::strong().memory_kib, 262144);
    assert_eq!(ArgonParams::maximum().iterations, 6);
    assert!(ArgonParams::balanced().validate().is_ok());
    let small = ArgonParams { memory_kib: 8191, iterations: 0, parallelism: 0 };
    assert_eq!(small.validate(), Err(ParamsError::MemoryTooSmall));
    assert_eq!(small.validate().unwrap_err().message(), "Minimum memory is 8 MB");
    let no_iter = ArgonParams { memory_kib: 8192, iterations: 0, parallelism: 1 };
    assert_eq!(no_iter.validate(), Err(ParamsError::TooFewIterations));
    let wide = ArgonParams { memory_kib: 8192, iterations: 1, parallelism: 17 };
    assert_eq!(wide.validate(), Err(ParamsError::ParallelismOutOfRange));
    assert_eq!(wide.validate().unwrap_err().message(), "Parallelism must be between 1 and 16");
}

#[test]
fn blob_bytes_read_back() {
    let e = EncryptedFile { salt: [1u8; 32], nonce: [2u8; 12], ciphertext: vec![3, 4, 5] };
    let bytes = e.to_bytes();
    assert_eq!(bytes.len(), 47);
    let back = EncryptedFile::from_bytes(&bytes).unwrap();
    assert_eq!(back.salt, e.salt);
    assert_eq!(back.nonce, e.nonce);
    assert_eq!(back.ciphertext, e.ciphertext);
    assert_eq!(EncryptedFile::from_bytes(&bytes[..43]).err(), Some(RuneError::Format));
}
