use rune::crypto::{decrypt, derive_key, encrypt};
use rune::models::{ArgonParams, EncryptedFile, RuneError};
use rune::vault::{
    add_duress_password, create_vault_file,
    build_vault_file, check_duress_passwords, init_vault_file, open_real_meta, parse_vault_file, parse_vault_header,
    read_blob, sanitize_vault_id, seal_duress_vault, unlock_with_password, VaultError,
};

fn params() -> ArgonParams {
    ArgonParams { memory_kib: 8192, iterations: 1, parallelism: 1 }
}

fn header() -> Vec<u8> {
    br#"{"memory_kib":8192,"iterations":1,"parallelism":1}"#.to_vec()
}

fn blob(key: &[u8; 32], salt: [u8; 32], plain: &[u8]) -> EncryptedFile {
    let mut enc = encrypt(key, plain).unwrap();
    enc.salt = salt;
    enc
}

#[test]
fn vault_round_trip_real_only() {
    let real_key = [1u8; 32];
    let real = blob(&real_key, [9u8; 32], b"{\"real\":true}");
    let bytes = build_vault_file(&header(), &real, None);

    let parts = parse_vault_file(&bytes).unwrap();
    assert!(parts.duress.is_none());
    assert_eq!(parts.main_blob.salt, [9u8; 32]);
    assert_eq!(decrypt(&real_key, &parts.main_blob).unwrap(), b"{\"real\":true}");
}

#[test]
fn vault_round_trip_with_duress() {
    let real_key = [1u8; 32];
    let duress_key = [2u8; 32];
    let real = blob(&real_key, [9u8; 32], b"REAL");
    let duress = blob(&duress_key, [7u8; 32], b"DECOY");
    let bytes = build_vault_file(&header(), &real, Some(&duress));

    let parts = parse_vault_file(&bytes).unwrap();
    let duress_out = parts.duress.expect("duress blob present");
    assert_eq!(decrypt(&real_key, &parts.main_blob).unwrap(), b"REAL");
    assert_eq!(decrypt(&duress_key, &duress_out).unwrap(), b"DECOY");
    assert!(decrypt(&real_key, &duress_out).is_err());
    assert!(decrypt(&duress_key, &parts.main_blob).is_err());
}

#[test]
fn vault_legacy_single_blob_parses() {
    let real_key = [3u8; 32];
    let real = blob(&real_key, [5u8; 32], b"LEGACY");

    let h = header();
    let mut bytes = Vec::new();
    bytes.extend_from_slice(&(h.len() as u32).to_le_bytes());
    bytes.extend_from_slice(&h);
    bytes.extend_from_slice(&real.to_bytes());

    let parts = parse_vault_file(&bytes).unwrap();
    assert!(parts.duress.is_none());
    assert_eq!(decrypt(&real_key, &parts.main_blob).unwrap(), b"LEGACY");
}

#[test]
fn header_and_blob_framing() {
    let bytes = build_vault_file(&header(), &blob(&[1u8; 32], [2u8; 32], b"x"), None);
    let (h, rest) = parse_vault_header(&bytes).unwrap();
    assert_eq!(h, header());
    assert_eq!(&rest[..4], &((rest.len() - 4) as u32).to_le_bytes());
    let (e, end) = read_blob(&rest, 0).unwrap();
    assert_eq!(end, rest.len());
    assert_eq!(e.salt, [2u8; 32]);
    assert!(read_blob(&rest, 1).is_none());
    assert_eq!(parse_vault_header(&[1, 0]).unwrap_err(), RuneError::Format);
    assert_eq!(parse_vault_header(&[9, 0, 0, 0, 1]).unwrap_err(), RuneError::Format);
    assert!(parse_vault_file(&[0, 0, 0, 0, 1, 2, 3]).is_err());
}

#[test]
fn new_vault_unlocks_with_its_password_only() {
    let p = params();
    let (key, bytes) = init_vault_file("hunter2", [4u8; 32], &p, &header(), b"{\"version\":1}").unwrap();
    assert_eq!(key, derive_key("hunter2", &[4u8; 32], &p).unwrap());
    let parts = parse_vault_file(&bytes).unwrap();
    assert_eq!(parts.header, header());
    let ok = unlock_with_password("hunter2", &p, &parts.main_blob, None).unwrap();
    assert_eq!(ok, Some((key, false)));
    assert_eq!(unlock_with_password("wrong", &p, &parts.main_blob, None).unwrap(), None);
    let bad = ArgonParams { memory_kib: 8192, iterations: 0, parallelism: 1 };
    assert_eq!(unlock_with_password("hunter2", &bad, &parts.main_blob, None), Err(RuneError::Crypto));
}

#[test]
fn duress_password_unlocks_the_decoy() {
    let p = params();
    let (real_key, bytes) = init_vault_file("real-pw", [4u8; 32], &p, &header(), b"{\"has_duress\":false}").unwrap();
    let parts = parse_vault_file(&bytes).unwrap();
    let (rk, meta) = open_real_meta("real-pw", &p, &parts.main_blob).unwrap();
    assert_eq!(rk, real_key);
    assert_eq!(meta, b"{\"has_duress\":false}");
    assert_eq!(open_real_meta("nope", &p, &parts.main_blob).unwrap_err(), VaultError::InvalidPassword);

    let new_bytes = seal_duress_vault(
        &header(), &p, "real-pw", &real_key, parts.main_blob.salt, b"{\"has_duress\":true}", "fake-pw", [8u8; 32], b"{\"decoy\":1}",
    )
    .unwrap();
    let parts2 = parse_vault_file(&new_bytes).unwrap();
    let d = parts2.duress.as_ref().unwrap();
    assert_eq!(
        unlock_with_password("real-pw", &p, &parts2.main_blob, Some(d)).unwrap(),
        Some((real_key, false))
    );
    let dk = derive_key("fake-pw", &[8u8; 32], &p).unwrap();
    assert_eq!(decrypt(&dk, d).unwrap(), b"{\"decoy\":1}");
    assert_eq!(decrypt(&real_key, &parts2.main_blob).unwrap(), b"{\"has_duress\":true}");
    assert_eq!(unlock_with_password("fake-pw", &p, &parts2.main_blob, Some(d)).unwrap(), Some((dk, true)));
    assert_eq!(unlock_with_password("other", &p, &parts2.main_blob, Some(d)).unwrap(), None);
    assert_eq!(decrypt(&real_key, &parts2.main_blob).unwrap(), b"{\"has_duress\":true}");
}

#[test]
fn duress_password_rules() {
    assert_eq!(check_duress_passwords("a", ""), Err(VaultError::EmptyDuress));
    assert_eq!(check_duress_passwords("a", "a"), Err(VaultError::SameAsReal));
    assert!(check_duress_passwords("a", "b").is_ok());
    assert_eq!(VaultError::EmptyDuress.message(), "Duress password cannot be empty");
    assert_eq!(VaultError::SameAsReal.message(), "Duress password must differ from your real password");
    assert_eq!(VaultError::InvalidPassword.message(), "Invalid password");
}

#[test]
fn vault_ids_are_sanitized() {
    assert_eq!(sanitize_vault_id("../etc"), "etc");
    assert_eq!(sanitize_vault_id("My Vault_1"), "MyVault_1");
    assert_eq!(sanitize_vault_id(".."), "default");
    assert_eq!(sanitize_vault_id(""), "default");
    assert_eq!(sanitize_vault_id("żółw"), "w");
}

#[test]
fn sanitized_ids_stay_inside_the_data_directory() {
    for id in ["../../etc", "my vault!", "", "/", "a.b-c_d", "ząb"] {
        let s = sanitize_vault_id(id);
        assert!(!s.is_empty());
        assert!(s.chars().all(|c| c.is_ascii_alphanumeric() || c == '-' || c == '_'));
        assert_eq!(sanitize_vault_id(&s), s);
    }
    assert_eq!(sanitize_vault_id("../../etc"), "etc");
    assert_eq!(sanitize_vault_id("..."), "default");
    assert_eq!(sanitize_vault_id("ząb"), "zb");
}

#[test]
fn new_vault_and_duress_with_drawn_salts() {
    let p = params();
    let (key, salt, bytes) = create_vault_file("pw", &p, &header(), b"{\"has_duress\":false}").unwrap();
    let parts = parse_vault_file(&bytes).unwrap();
    assert_eq!(parts.header, header());
    assert_eq!(parts.main_blob.salt, salt);
    assert!(parts.duress.is_none());
    assert_eq!(unlock_with_password("pw", &p, &parts.main_blob, None).unwrap(), Some((key, false)));
    let (_, salt2, _) = create_vault_file("pw", &p, &header(), b"{}").unwrap();
    assert_ne!(salt, salt2);

    let with_duress = add_duress_password(&header(), &p, "pw", &key, salt, b"{\"has_duress\":true}", "decoy", b"{}").unwrap();
    let parts2 = parse_vault_file(&with_duress).unwrap();
    let d = parts2.duress.as_ref().unwrap();
    assert_eq!(unlock_with_password("pw", &p, &parts2.main_blob, Some(d)).unwrap(), Some((key, false)));
    let dk = derive_key("decoy", &d.salt, &p).unwrap();
    assert_eq!(unlock_with_password("decoy", &p, &parts2.main_blob, Some(d)).unwrap(), Some((dk, true)));
    let bad = ArgonParams { memory_kib: 8192, iterations: 0, parallelism: 1 };
    assert_eq!(create_vault_file("pw", &bad, &header(), b"{}").unwrap_err(), VaultError::KeyDerivation);
}
