//! Key derivation (Argon2id) and authenticated encryption (AES-256-GCM), and
//! the `[12 nonce][ciphertext+tag]` layout of every data file of a vault.
//!
//! The primitives themselves are the `argon2`, `ring` and `rand` crates; the
//! items marked as trusted below state what those crates do, and everything
//! else is proved from those statements.

use vstd::prelude::*;
use crate::models::{ArgonParams, EncryptedFile, RuneError, NONCE_LEN};
use rand::RngCore;
use ring::rand::SecureRandom;

verus! {

// ── Outside types ───────────────────────────────────────────────────────────

#[verifier::external_type_specification]
#[verifier::external_body]
pub struct ExArgon2Error(argon2::Error);

#[verifier::external_type_specification]
#[verifier::external_body]
pub struct ExRingUnspecified(ring::error::Unspecified);

#[verifier::external_type_specification]
#[verifier::external_body]
pub struct ExRandError(rand::Error);

// ── Names for what the primitives compute ───────────────────────────────────

/// The 32-byte Argon2id (version 0x13) output for a password, a salt and the
/// memory / iteration / parallelism costs.
pub uninterp spec fn argon2id_key(password: Seq<u8>, salt: Seq<u8>, memory_kib: u32, iterations: u32, parallelism: u32) -> Seq<u8>;

/// AES-256-GCM sealing (no associated data): ciphertext followed by the tag.
pub uninterp spec fn aes_gcm_seal_bytes(key: Seq<u8>, nonce: Seq<u8>, plaintext: Seq<u8>) -> Seq<u8>;

/// AES-256-GCM opening (no associated data): the plaintext when the tag
/// authenticates, `None` otherwise.
pub uninterp spec fn aes_gcm_open_bytes(key: Seq<u8>, nonce: Seq<u8>, sealed: Seq<u8>) -> Option<Seq<u8>>;

/// Largest input `ring` accepts for AES-GCM on 64-bit targets:
/// `(2^32 - 2) * 16` bytes (a 32-bit block counter).
pub open spec fn aes_gcm_max_input() -> int {
    68719476704
}

/// Length of the GCM tag.
pub const TAG_LEN: usize = 16;

/// Smallest data file: a nonce and a tag.
pub const MIN_DATA_FILE_LEN: usize = 28;

/// The cost parameters that `argon2::Params::new` accepts (memory at least
/// 8 KiB and at least 8 KiB per lane, at least one pass, 1 to 2^24-1 lanes).
pub open spec fn argon_costs_accepted(m: u32, t: u32, p: u32) -> bool {
    &&& m >= 8
    &&& m >= 8 * p
    &&& t >= 1
    &&& 1 <= p <= 0xFFFFFF
}

// ── Trusted wrappers ────────────────────────────────────────────────────────

/// Calls `argon2::Params::new(m, t, p, Some(32))`, `argon2::Argon2::new`
/// (Argon2id, version 0x13) and `Argon2::hash_password_into` with a 32-byte
/// output. Claimed: it succeeds exactly when `Params::new` accepts the costs
/// (the source checks them in this order) and the password is at most
/// `u32::MAX` bytes (the salt, 32 bytes, is always long enough); the output
/// is the Argon2id hash named `argon2id_key`. Not stated: that the block
/// allocation (`m` KiB) succeeds; the process aborts if it does not.
#[verifier::external_body]
fn argon2id_hash(password: &[u8], salt: &[u8; 32], m: u32, t: u32, p: u32) -> (r: Result<[u8; 32], argon2::Error>)
    requires
        p <= 0xFFFFFF,
    ensures
        r is Ok <==> (argon_costs_accepted(m, t, p) && password@.len() <= u32::MAX),
        r matches Ok(k) ==> k@ == argon2id_key(password@, salt@, m, t, p),
{
    let params = argon2::Params::new(m, t, p, Some(32))?;
    let argon = argon2::Argon2::new(argon2::Algorithm::Argon2id, argon2::Version::V0x13, params);
    let mut key = [0u8; 32];
    argon.hash_password_into(password, salt, &mut key)?;
    Ok(key)
}

/// Calls `ring::aead::UnboundKey::new(&AES_256_GCM, key)`, `LessSafeKey::new`
/// and `LessSafeKey::seal_in_place_append_tag` with the given nonce and no
/// associated data. Claimed: it fails exactly when the plaintext is longer
/// than `aes_gcm_max_input()` (the check in `gcm::Context::new`); the output
/// is the sealed text named `aes_gcm_seal_bytes`, 16 bytes longer than the
/// plaintext, and opening it with the same key and nonce gives the plaintext
/// back (AES-GCM's defining property).
#[verifier::external_body]
fn aes_gcm_seal(key: &[u8; 32], nonce: &[u8; 12], plaintext: &[u8]) -> (r: Result<Vec<u8>, ring::error::Unspecified>)
    ensures
        r is Ok <==> plaintext@.len() <= aes_gcm_max_input(),
        r matches Ok(c) ==> c@ == aes_gcm_seal_bytes(key@, nonce@, plaintext@),
        r matches Ok(c) ==> c@.len() == plaintext@.len() + 16,
        r matches Ok(c) ==> aes_gcm_open_bytes(key@, nonce@, c@) == Some(plaintext@),
{
    let unbound = ring::aead::UnboundKey::new(&ring::aead::AES_256_GCM, key)?;
    let sealing = ring::aead::LessSafeKey::new(unbound);
    let mut in_out = plaintext.to_vec();
    sealing.seal_in_place_append_tag(
        ring::aead::Nonce::assume_unique_for_key(*nonce),
        ring::aead::Aad::empty(),
        &mut in_out,
    )?;
    Ok(in_out)
}

/// Calls `ring::aead::UnboundKey::new(&AES_256_GCM, key)`, `LessSafeKey::new`
/// and `LessSafeKey::open_in_place` with the given nonce and no associated
/// data. Claimed: it returns the plaintext exactly when the opening named
/// `aes_gcm_open_bytes` is `Some`, and fails on input shorter than a tag
/// (`open_within` checks this first).
#[verifier::external_body]
fn aes_gcm_open(key: &[u8; 32], nonce: &[u8; 12], sealed: &[u8]) -> (r: Result<Vec<u8>, ring::error::Unspecified>)
    ensures
        match aes_gcm_open_bytes(key@, nonce@, sealed@) {
            Some(p) => r matches Ok(v) && v@ == p,
            None => r is Err,
        },
        sealed@.len() < 16 ==> r is Err,
{
    let unbound = ring::aead::UnboundKey::new(&ring::aead::AES_256_GCM, key)?;
    let opening = ring::aead::LessSafeKey::new(unbound);
    let mut in_out = sealed.to_vec();
    let plain = opening.open_in_place(
        ring::aead::Nonce::assume_unique_for_key(*nonce),
        ring::aead::Aad::empty(),
        &mut in_out,
    )?;
    Ok(plain.to_vec())
}

/// Calls `ring::rand::SecureRandom::fill` on a `SystemRandom` for a 12-byte
/// nonce. Nothing is claimed of the bytes or of whether the system generator
/// answers.
#[verifier::external_body]
fn random_nonce() -> (r: Result<[u8; 12], ring::error::Unspecified>) {
    let mut nonce = [0u8; 12];
    ring::rand::SystemRandom::new().fill(&mut nonce)?;
    Ok(nonce)
}

/// Calls `rand::RngCore::try_fill_bytes` on `rand::rngs::OsRng` for a
/// 32-byte salt. Nothing is claimed of the bytes or of whether the operating
/// system answers.
#[verifier::external_body]
pub(crate) fn random_salt() -> (r: Result<[u8; 32], rand::Error>) {
    let mut salt = [0u8; 32];
    rand::rngs::OsRng.try_fill_bytes(&mut salt)?;
    Ok(salt)
}

// ── Verified operations ─────────────────────────────────────────────────────

/// When `derive_key` succeeds: the costs are accepted and the password is
/// not longer than `u32::MAX` bytes.
pub open spec fn derive_key_succeeds(password: Seq<char>, params: ArgonParams) -> bool {
    &&& argon_costs_accepted(params.memory_kib, params.iterations, params.parallelism)
    &&& vstd::utf8::encode_utf8(password).len() <= u32::MAX
}

/// Derives the 32-byte vault key from a password and a salt with Argon2id.
pub fn derive_key(password: &str, salt: &[u8; 32], params: &ArgonParams) -> (r: Result<[u8; 32], RuneError>)
    ensures
        r is Ok <==> derive_key_succeeds(password@, *params),
        r matches Ok(k) ==> k@ == argon2id_key(
            vstd::utf8::encode_utf8(password@),
            salt@,
            params.memory_kib,
            params.iterations,
            params.parallelism,
        ),
        r matches Err(e) ==> e == RuneError::Crypto,
{
    if params.parallelism > 0xFFFFFF {
        return Err(RuneError::Crypto);
    }
    match argon2id_hash(password.as_bytes(), salt, params.memory_kib, params.iterations, params.parallelism) {
        Ok(k) => Ok(k),
        Err(_) => Err(RuneError::Crypto),
    }
}

/// Seals `plaintext` under `key` with the given nonce. Fails (`Crypto`)
/// exactly when the plaintext is too long for AES-GCM.
pub fn encrypt_with_nonce(key: &[u8; 32], nonce: [u8; 12], plaintext: &[u8]) -> (r: Result<EncryptedFile, RuneError>)
    ensures
        r is Ok <==> plaintext@.len() <= aes_gcm_max_input(),
        r matches Err(e) ==> e == RuneError::Crypto,
        r matches Ok(e) ==> {
            &&& e.salt@ == Seq::new(32, |i: int| 0u8)
            &&& e.nonce@ == nonce@
            &&& e.ciphertext@ == aes_gcm_seal_bytes(key@, nonce@, plaintext@)
            &&& e.ciphertext@.len() == plaintext@.len() + 16
            &&& aes_gcm_open_bytes(key@, e.nonce@, e.ciphertext@) == Some(plaintext@)
        },
{
    match aes_gcm_seal(key, &nonce, plaintext) {
        Ok(ciphertext) => {
            let e = EncryptedFile { salt: [0u8; 32], nonce, ciphertext };
            assert(e.salt@ =~= Seq::new(32, |i: int| 0u8));
            Ok(e)
        },
        Err(_) => Err(RuneError::Crypto),
    }
}

/// Seals `plaintext` under `key` with a fresh random nonce. Whatever the
/// system generator returns, a success carries a nonce and a sealed text
/// that opens to the plaintext again; a plaintext that is too long for
/// AES-GCM always fails.
pub fn encrypt(key: &[u8; 32], plaintext: &[u8]) -> (r: Result<EncryptedFile, RuneError>)
    ensures
        plaintext@.len() > aes_gcm_max_input() ==> r is Err,
        r matches Err(e) ==> e == RuneError::Crypto,
        r matches Ok(e) ==> {
            &&& e.salt@ == Seq::new(32, |i: int| 0u8)
            &&& e.ciphertext@ == aes_gcm_seal_bytes(key@, e.nonce@, plaintext@)
            &&& e.ciphertext@.len() == plaintext@.len() + 16
            &&& aes_gcm_open_bytes(key@, e.nonce@, e.ciphertext@) == Some(plaintext@)
        },
{
    let nonce = match random_nonce() {
        Ok(n) => n,
        Err(_) => return Err(RuneError::Crypto),
    };
    encrypt_with_nonce(key, nonce, plaintext)
}

/// Opens an `EncryptedFile` (its salt is not used). The error is the same
/// `Crypto` for a wrong key and for damaged data.
pub fn decrypt(key: &[u8; 32], file: &EncryptedFile) -> (r: Result<Vec<u8>, RuneError>)
    ensures
        match aes_gcm_open_bytes(key@, file.nonce@, file.ciphertext@) {
            Some(p) => r matches Ok(v) && v@ == p,
            None => r == Err::<Vec<u8>, RuneError>(RuneError::Crypto),
        },
{
    match aes_gcm_open(key, &file.nonce, file.ciphertext.as_slice()) {
        Ok(p) => Ok(p),
        Err(_) => Err(RuneError::Crypto),
    }
}

// ── Data files: `[12 nonce][ciphertext+tag]` ────────────────────────────────

/// The bytes of a data file holding `file` (its salt is dropped).
pub open spec fn data_file_bytes(nonce: Seq<u8>, ciphertext: Seq<u8>) -> Seq<u8> {
    nonce + ciphertext
}

/// What opening the bytes of a data file gives: `Format` below 28 bytes,
/// otherwise the AES-GCM opening of the rest under the leading nonce, or
/// `Crypto` when it does not authenticate.
pub open spec fn open_data_file_spec(key: Seq<u8>, data: Seq<u8>) -> Result<Seq<u8>, RuneError> {
    if data.len() < MIN_DATA_FILE_LEN {
        Err(RuneError::Format)
    } else {
        match aes_gcm_open_bytes(key, data.subrange(0, 12), data.subrange(12, data.len() as int)) {
            Some(p) => Ok(p),
            None => Err(RuneError::Crypto),
        }
    }
}

/// The plaintext bytes a data-file open returned, as a spec value.
pub open spec fn view_result(r: Result<Vec<u8>, RuneError>) -> Result<Seq<u8>, RuneError> {
    match r {
        Ok(v) => Ok(v@),
        Err(e) => Err(e),
    }
}

/// Lays out a data file: `[12 nonce][ciphertext]`.
pub fn build_data_file(enc: &EncryptedFile) -> (out: Vec<u8>)
    ensures
        out@ == data_file_bytes(enc.nonce@, enc.ciphertext@),
{
    let mut out: Vec<u8> = Vec::new();
    let mut j: usize = 0;
    while j < 12
        invariant
            j <= 12,
            out@ == enc.nonce@.subrange(0, j as int),
        decreases 12 - j,
    {
        out.push(enc.nonce[j]);
        j = j + 1;
    }
    assert(enc.nonce@.subrange(0, 12) == enc.nonce@);
    let mut k: usize = 0;
    while k < enc.ciphertext.len()
        invariant
            k <= enc.ciphertext@.len(),
            out@ == enc.nonce@ + enc.ciphertext@.subrange(0, k as int),
        decreases enc.ciphertext@.len() - k,
    {
        out.push(enc.ciphertext[k]);
        k = k + 1;
    }
    assert(enc.ciphertext@.subrange(0, enc.ciphertext@.len() as int) == enc.ciphertext@);
    out
}

/// Splits data-file bytes into an `EncryptedFile` with a zero salt.
fn split_data_file(data: &[u8]) -> (e: EncryptedFile)
    requires
        data@.len() >= 12,
    ensures
        e.nonce@ == data@.subrange(0, 12),
        e.ciphertext@ == data@.subrange(12, data@.len() as int),
{
    let mut nonce = [0u8; 12];
    let mut j: usize = 0;
    while j < 12
        invariant
            j <= 12,
            data@.len() >= 12,
            forall|t: int| 0 <= t < j ==> nonce@[t] == data@[t],
        decreases 12 - j,
    {
        nonce[j] = data[j];
        j = j + 1;
    }
    let mut ciphertext: Vec<u8> = Vec::new();
    let mut k: usize = 12;
    while k < data.len()
        invariant
            12 <= k <= data@.len(),
            ciphertext@ == data@.subrange(12, k as int),
        decreases data@.len() - k,
    {
        ciphertext.push(data[k]);
        k = k + 1;
    }
    let e = EncryptedFile { salt: [0u8; 32], nonce, ciphertext };
    assert(e.nonce@ =~= data@.subrange(0, 12));
    e
}

/// Opens the bytes of a data file (note, folder list, kanban board, time
/// log, attachment, whiteboard scene or one of their indexes).
pub fn open_data_file(key: &[u8; 32], data: &[u8]) -> (r: Result<Vec<u8>, RuneError>)
    ensures
        view_result(r) == open_data_file_spec(key@, data@),
{
    if data.len() < MIN_DATA_FILE_LEN {
        return Err(RuneError::Format);
    }
    let enc = split_data_file(data);
    decrypt(key, &enc)
}

/// Whether the bytes open as a complete, untampered data file under `key`.
pub fn decrypts_ok(key: &[u8; 32], data: &[u8]) -> (b: bool)
    ensures
        b == open_data_file_spec(key@, data@) is Ok,
{
    open_data_file(key, data).is_ok()
}

/// Seals `plaintext` with a fresh nonce and lays it out as a data file.
/// Whatever nonce the generator gave, the bytes open to the plaintext again.
pub fn seal_data_file(key: &[u8; 32], plaintext: &[u8]) -> (r: Result<Vec<u8>, RuneError>)
    ensures
        plaintext@.len() > aes_gcm_max_input() ==> r is Err,
        r matches Err(e) ==> e == RuneError::Crypto,
        r matches Ok(bytes) ==> open_data_file_spec(key@, bytes@) == Ok::<Seq<u8>, RuneError>(plaintext@),
        r matches Ok(bytes) ==> bytes@.len() == plaintext@.len() + 28,
{
    let enc = encrypt(key, plaintext)?;
    let bytes = build_data_file(&enc);
    proof {
        assert(bytes@.subrange(0, 12) =~= enc.nonce@);
        assert(bytes@.subrange(12, bytes@.len() as int) =~= enc.ciphertext@);
    }
    Ok(bytes)
}

} // verus!
