//! The `vault.rune` file and the decisions taken on it: creating a vault,
//! unlocking it with the real or the duress password, and adding a duress
//! password.
//!
//! Layout of `vault.rune`:
//! ```text
//! [4 LE: header length][header: JSON of the Argon2 parameters]
//! [4 LE: length][real blob]([4 LE: length][duress blob])
//! ```
//! A blob is an `EncryptedFile` (`[32 salt][12 nonce][ciphertext]`). Files
//! written before duress passwords existed hold a single blob with no
//! length prefix; they are still read.

use vstd::prelude::*;
use crate::bytes::{le32_bytes, le32_value, le32_encode, le32_decode, push_all, copy_range, lemma_le32_round_trip};
use crate::crypto::{random_salt, aes_gcm_open_bytes, aes_gcm_max_input, argon2id_key, derive_key, derive_key_succeeds, decrypt, encrypt};
use crate::models::{ArgonParams, EncryptedFile, RuneError, BLOB_HEADER_LEN};

verus! {

/// A blob preceded by its length (truncated to 32 bits).
pub open spec fn framed(blob: Seq<u8>) -> Seq<u8> {
    le32_bytes(blob.len() as u32) + blob
}

/// The bytes of a vault file.
pub open spec fn vault_file_bytes(header: Seq<u8>, main_blob: Seq<u8>, duress: Option<Seq<u8>>) -> Seq<u8> {
    le32_bytes(header.len() as u32) + header + framed(main_blob) + match duress {
        Some(d) => framed(d),
        None => Seq::<u8>::empty(),
    }
}

/// The serialised form of an optional blob.
pub open spec fn opt_blob(o: Option<&EncryptedFile>) -> Option<Seq<u8>> {
    match o {
        Some(e) => Some(e.spec_bytes()),
        None => None,
    }
}

/// Appends `[4 LE length][blob bytes]` to `out`.
pub fn append_blob(out: &mut Vec<u8>, enc: &EncryptedFile)
    ensures
        final(out)@ == old(out)@ + framed(enc.spec_bytes()),
{
    let bytes = enc.to_bytes();
    let len = bytes.len() as u32;
    let prefix = le32_encode(len);
    push_all(out, &prefix);
    push_all(out, bytes.as_slice());
    assert(out@ =~= old(out)@ + framed(enc.spec_bytes()));
}

/// Lays out a vault file: the header bytes (the JSON of the Argon2
/// parameters), the real blob and, when configured, the duress blob.
pub fn build_vault_file(header: &[u8], main_blob: &EncryptedFile, duress: Option<&EncryptedFile>) -> (out: Vec<u8>)
    ensures
        out@ == vault_file_bytes(header@, main_blob.spec_bytes(), opt_blob(duress)),
{
    let mut out: Vec<u8> = Vec::new();
    let prefix = le32_encode(header.len() as u32);
    push_all(&mut out, &prefix);
    push_all(&mut out, header);
    append_blob(&mut out, main_blob);
    match duress {
        Some(d) => append_blob(&mut out, d),
        None => {},
    }
    assert(out@ =~= vault_file_bytes(header@, main_blob.spec_bytes(), opt_blob(duress)));
    out
}

/// The blob that starts at `offset` and where it ends: `None` when the
/// length prefix does not fit, announces fewer than 44 bytes, or runs past
/// the end of `data`.
pub open spec fn read_blob_spec(data: Seq<u8>, offset: int) -> Option<(Seq<u8>, int)> {
    if offset + 4 > data.len() {
        None
    } else {
        let len = le32_value(data.subrange(offset, offset + 4)) as int;
        if len < 44 || offset + 4 + len > data.len() {
            None
        } else {
            Some((data.subrange(offset + 4, offset + 4 + len), offset + 4 + len))
        }
    }
}

/// Reads one `[4 len][len bytes]` blob at `offset`; returns it with the
/// offset just past it.
pub fn read_blob(data: &[u8], offset: usize) -> (r: Option<(EncryptedFile, usize)>)
    ensures
        match read_blob_spec(data@, offset as int) {
            Some((blob, end)) => r matches Some((e, o)) && e.spec_bytes() == blob && o == end,
            None => r is None,
        },
{
    if data.len() < 4 || offset > data.len() - 4 {
        return None;
    }
    let start = offset + 4;
    let len = le32_decode(data, offset) as usize;
    if len < BLOB_HEADER_LEN {
        return None;
    }
    if len > data.len() - start {
        return None;
    }
    let end = start + len;
    let blob = copy_range(data, start, end);
    match EncryptedFile::from_bytes(blob.as_slice()) {
        Ok(e) => Some((e, end)),
        Err(_) => None,
    }
}

/// Where the header of a vault file ends, when the file is long enough.
pub open spec fn header_end_spec(data: Seq<u8>) -> Option<int> {
    if data.len() < 4 {
        None
    } else {
        let end = 4 + le32_value(data.subrange(0, 4)) as int;
        if data.len() < end {
            None
        } else {
            Some(end)
        }
    }
}

/// Splits a vault file into its header bytes and the bytes after it.
pub fn parse_vault_header(data: &[u8]) -> (r: Result<(Vec<u8>, Vec<u8>), RuneError>)
    ensures
        match header_end_spec(data@) {
            Some(end) => r matches Ok((h, rest)) && h@ == data@.subrange(4, end) && rest@
                == data@.subrange(end, data@.len() as int),
            None => r == Err::<(Vec<u8>, Vec<u8>), RuneError>(RuneError::Format),
        },
{
    if data.len() < 4 {
        return Err(RuneError::Format);
    }
    let header_len = le32_decode(data, 0) as usize;
    if header_len > usize::MAX - 4 {
        return Err(RuneError::Format);
    }
    let end = 4 + header_len;
    if data.len() < end {
        return Err(RuneError::Format);
    }
    Ok((copy_range(data, 4, end), copy_range(data, end, data.len())))
}

/// The parts of a vault file: header bytes, real blob, optional duress blob.
pub struct VaultFileParts {
    pub header: Vec<u8>,
    pub main_blob: EncryptedFile,
    pub duress: Option<EncryptedFile>,
}

impl VaultFileParts {
    pub open spec fn view_parts(&self) -> (Seq<u8>, Seq<u8>, Option<Seq<u8>>) {
        (
            self.header@,
            self.main_blob.spec_bytes(),
            match self.duress {
                Some(d) => Some(d.spec_bytes()),
                None => None,
            },
        )
    }
}

/// How the bytes after the header are read: length-prefixed blobs when the
/// prefixes cover the rest exactly (one or two of them), otherwise the rest
/// as a single unprefixed blob (the older layout), which needs 44 bytes.
pub open spec fn parse_blobs_spec(rest: Seq<u8>) -> Option<(Seq<u8>, Option<Seq<u8>>)> {
    let legacy = if rest.len() < 44 {
        None
    } else {
        Some((rest, None))
    };
    match read_blob_spec(rest, 0) {
        Some((main_blob, off)) => if off == rest.len() {
            Some((main_blob, None))
        } else {
            match read_blob_spec(rest, off) {
                Some((d, off2)) => if off2 == rest.len() {
                    Some((main_blob, Some(d)))
                } else {
                    legacy
                },
                None => legacy,
            }
        },
        None => legacy,
    }
}

/// What parsing a whole vault file gives.
pub open spec fn parse_vault_file_spec(data: Seq<u8>) -> Result<(Seq<u8>, Seq<u8>, Option<Seq<u8>>), RuneError> {
    match header_end_spec(data) {
        None => Err(RuneError::Format),
        Some(end) => match parse_blobs_spec(data.subrange(end, data.len() as int)) {
            Some((main_blob, duress)) => Ok((data.subrange(4, end), main_blob, duress)),
            None => Err(RuneError::Format),
        },
    }
}

/// Parses a vault file into header bytes, real blob and optional duress
/// blob (see `parse_blobs_spec` for the two layouts).
pub fn parse_vault_file(data: &[u8]) -> (r: Result<VaultFileParts, RuneError>)
    ensures
        match parse_vault_file_spec(data@) {
            Ok(parts) => r matches Ok(p) && p.view_parts() == parts,
            Err(e) => r matches Err(x) && x == e,
        },
{
    let (header, rest) = parse_vault_header(data)?;
    let ghost end = header_end_spec(data@)->0;
    assert(rest@ =~= data@.subrange(end, data@.len() as int));
    if let Some((main_blob, off)) = read_blob(rest.as_slice(), 0) {
        if off == rest.len() {
            return Ok(VaultFileParts { header, main_blob, duress: None });
        }
        if let Some((duress, off2)) = read_blob(rest.as_slice(), off) {
            if off2 == rest.len() {
                return Ok(VaultFileParts { header, main_blob, duress: Some(duress) });
            }
        }
    }
    let main_blob = EncryptedFile::from_bytes(rest.as_slice())?;
    Ok(VaultFileParts { header, main_blob, duress: None })
}

/// Reading a vault file back gives the header and the blobs it was built
/// from, whenever each of them fits its 32-bit length prefix.
pub proof fn lemma_vault_file_round_trip(header: Seq<u8>, main_blob: Seq<u8>, duress: Option<Seq<u8>>)
    requires
        header.len() <= u32::MAX,
        44 <= main_blob.len() <= u32::MAX,
        duress matches Some(d) ==> 44 <= d.len() <= u32::MAX,
    ensures
        parse_vault_file_spec(vault_file_bytes(header, main_blob, duress)) == Ok::<
            (Seq<u8>, Seq<u8>, Option<Seq<u8>>),
            RuneError,
        >((header, main_blob, duress)),
{
    let data = vault_file_bytes(header, main_blob, duress);
    let hl = header.len() as u32;
    lemma_le32_round_trip(hl);
    assert(data.subrange(0, 4) =~= le32_bytes(hl));
    let end: int = 4 + header.len() as int;
    assert(header_end_spec(data) == Some(end));
    assert(data.subrange(4, end) =~= header);
    let rest = data.subrange(end, data.len() as int);
    let tail = match duress {
        Some(d) => framed(d),
        None => Seq::<u8>::empty(),
    };
    assert(rest =~= framed(main_blob) + tail);
    let rl = main_blob.len() as u32;
    lemma_le32_round_trip(rl);
    assert(rest.subrange(0, 4) =~= le32_bytes(rl));
    assert(rest.subrange(4, 4 + main_blob.len() as int) =~= main_blob);
    assert(read_blob_spec(rest, 0) == Some((main_blob, 4 + main_blob.len() as int)));
    match duress {
        None => {
            assert(parse_blobs_spec(rest) == Some((main_blob, None::<Seq<u8>>)));
        },
        Some(d) => {
            let off: int = 4 + main_blob.len() as int;
            let dl = d.len() as u32;
            lemma_le32_round_trip(dl);
            assert(rest.subrange(off, off + 4) =~= le32_bytes(dl));
            assert(rest.subrange(off + 4, off + 4 + d.len() as int) =~= d);
            assert(read_blob_spec(rest, off) == Some((d, off + 4 + d.len() as int)));
            assert(parse_blobs_spec(rest) == Some((main_blob, Some(d))));
        },
    }
}

/// The character allowed in vault ids (and so in their directory names).
pub open spec fn is_id_char(c: char) -> bool {
    ('a' <= c <= 'z') || ('A' <= c <= 'Z') || ('0' <= c <= '9') || c == '-' || c == '_'
}

/// What `sanitize_vault_id` returns: the id's allowed characters in order,
/// or `default` when none is left.
pub open spec fn sanitized_id(id: Seq<char>) -> Seq<char> {
    let clean = id.filter(|c: char| is_id_char(c));
    if clean.len() == 0 {
        "default"@
    } else {
        clean
    }
}

/// Keeps only `[A-Za-z0-9_-]` of a vault id; an empty result becomes
/// `default`. The id names a directory, so nothing else may pass.
pub fn sanitize_vault_id(id: &str) -> (s: String)
    ensures
        s@ == sanitized_id(id@),
{
    let chars = crate::text::chars_of(id);
    let mut clean: Vec<char> = Vec::new();
    let mut i: usize = 0;
    while i < chars.len()
        invariant
            i <= chars@.len(),
            chars@ == id@,
            clean@ == id@.subrange(0, i as int).filter(|c: char| is_id_char(c)),
        decreases chars@.len() - i,
    {
        let c = chars[i];
        proof {
            reveal_with_fuel(Seq::<_>::filter, 1);
            assert(id@.subrange(0, i + 1).drop_last() =~= id@.subrange(0, i as int));
            assert(id@.subrange(0, i + 1).last() == c);
        }
        if ('a' <= c && c <= 'z') || ('A' <= c && c <= 'Z') || ('0' <= c && c <= '9') || c == '-'
            || c == '_' {
            clean.push(c);
        }
        i = i + 1;
    }
    assert(id@.subrange(0, id@.len() as int) =~= id@);
    if clean.len() == 0 {
        String::from_str("default")
    } else {
        crate::text::string_from(clean.as_slice())
    }
}

/// A sequence whose items all pass `pred` is its own filter.
proof fn lemma_filter_keeps_all(s: Seq<char>, pred: spec_fn(char) -> bool)
    requires
        forall|i: int| 0 <= i < s.len() ==> pred(#[trigger] s[i]),
    ensures
        s.filter(pred) == s,
    decreases s.len(),
{
    reveal(Seq::filter);
    if s.len() > 0 {
        assert forall|i: int| 0 <= i < s.drop_last().len() implies pred(#[trigger] s.drop_last()[i]) by {
            assert(s.drop_last()[i] == s[i]);
        }
        lemma_filter_keeps_all(s.drop_last(), pred);
        assert(pred(s[s.len() - 1]));
        assert(s.drop_last().push(s.last()) =~= s);
    } else {
        assert(s.filter(pred) =~= s);
    }
}

/// A sanitized vault id is never empty, holds only `[A-Za-z0-9_-]` (so it
/// names one directory inside the data directory and cannot leave it), and
/// sanitizing it again changes nothing.
pub proof fn lemma_sanitized_id_is_clean(id: Seq<char>)
    ensures
        sanitized_id(id).len() > 0,
        forall|i: int| 0 <= i < sanitized_id(id).len() ==> is_id_char(#[trigger] sanitized_id(id)[i]),
        sanitized_id(sanitized_id(id)) == sanitized_id(id),
{
    reveal_strlit("default");
    let pred = |c: char| is_id_char(c);
    let clean = id.filter(pred);
    broadcast use vstd::seq_lib::group_filter_ensures;
    let r = sanitized_id(id);
    assert(forall|i: int| 0 <= i < r.len() ==> is_id_char(#[trigger] r[i]));
    lemma_filter_keeps_all(r, pred);
    assert(r.filter(pred) == r);
}

// ── Passwords ───────────────────────────────────────────────────────────────

/// Why a vault operation on passwords failed.
#[derive(Debug, Clone, Copy, PartialEq, Eq, Structural)]
pub enum VaultError {
    KeyDerivation,
    Encryption,
    InvalidPassword,
    EmptyDuress,
    SameAsReal,
    /// The operating system gave no random bytes for a salt.
    Random,
}

impl VaultError {
    pub open spec fn spec_message(&self) -> Seq<char> {
        match self {
            VaultError::KeyDerivation => "Key derivation error"@,
            VaultError::Encryption => "Encryption error"@,
            VaultError::InvalidPassword => "Invalid password"@,
            VaultError::EmptyDuress => "Duress password cannot be empty"@,
            VaultError::SameAsReal => "Duress password must differ from your real password"@,
            VaultError::Random => "Random number generator failed"@,
        }
    }

    /// The user-facing message for this error.
    pub fn message(&self) -> (s: String)
        ensures
            s@ == self.spec_message(),
    {
        match self {
            VaultError::KeyDerivation => String::from_str("Key derivation error"),
            VaultError::Encryption => String::from_str("Encryption error"),
            VaultError::InvalidPassword => String::from_str("Invalid password"),
            VaultError::EmptyDuress => String::from_str("Duress password cannot be empty"),
            VaultError::SameAsReal => String::from_str(
                "Duress password must differ from your real password",
            ),
            VaultError::Random => String::from_str("Random number generator failed"),
        }
    }
}

/// The key Argon2id derives from a password, a salt and the parameters.
pub open spec fn password_key(password: Seq<char>, salt: Seq<u8>, params: ArgonParams) -> Seq<u8> {
    argon2id_key(
        vstd::utf8::encode_utf8(password),
        salt,
        params.memory_kib,
        params.iterations,
        params.parallelism,
    )
}

/// Whether `key` opens the blob `[32 salt][12 nonce][ciphertext]`.
pub open spec fn key_opens(key: Seq<u8>, blob: Seq<u8>) -> bool {
    aes_gcm_open_bytes(key, blob.subrange(32, 44), blob.subrange(44, blob.len() as int)) is Some
}

/// What unlocking gives: a key-derivation failure; the real key (not
/// duress) when it opens the real blob; otherwise the duress key when a
/// duress blob is there and it opens it; otherwise nothing (a wrong password
/// and damaged data look the same).
pub open spec fn unlock_outcome(password: Seq<char>, params: ArgonParams, main_blob: Seq<u8>, duress: Option<Seq<u8>>) -> Result<Option<(Seq<u8>, bool)>, RuneError> {
    if !derive_key_succeeds(password, params) {
        Err(RuneError::Crypto)
    } else {
        let rk = password_key(password, main_blob.subrange(0, 32), params);
        if key_opens(rk, main_blob) {
            Ok(Some((rk, false)))
        } else {
            match duress {
                Some(d) => {
                    let dk = password_key(password, d.subrange(0, 32), params);
                    if key_opens(dk, d) {
                        Ok(Some((dk, true)))
                    } else {
                        Ok(None)
                    }
                },
                None => Ok(None),
            }
        }
    }
}

/// The spec view of an unlock result.
pub open spec fn view_unlock(r: Result<Option<([u8; 32], bool)>, RuneError>) -> Result<Option<(Seq<u8>, bool)>, RuneError> {
    match r {
        Ok(Some((k, d))) => Ok(Some((k@, d))),
        Ok(None) => Ok(None),
        Err(e) => Err(e),
    }
}

/// Tries the password on the real blob first, then on the duress blob;
/// returns the key that opened one of them and whether it was the duress
/// one.
pub fn unlock_with_password(password: &str, params: &ArgonParams, main_blob: &EncryptedFile, duress: Option<&EncryptedFile>) -> (r: Result<Option<([u8; 32], bool)>, RuneError>)
    ensures
        view_unlock(r) == unlock_outcome(password@, *params, main_blob.spec_bytes(), opt_blob(duress)),
{
    let real_key = derive_key(password, &main_blob.salt, params)?;
    proof {
        assert(main_blob.spec_bytes().subrange(0, 32) =~= main_blob.salt@);
        assert(main_blob.spec_bytes().subrange(32, 44) =~= main_blob.nonce@);
        assert(main_blob.spec_bytes().subrange(44, main_blob.spec_bytes().len() as int) =~= main_blob.ciphertext@);
    }
    if decrypt(&real_key, main_blob).is_ok() {
        return Ok(Some((real_key, false)));
    }
    match duress {
        Some(d) => {
            let duress_key = derive_key(password, &d.salt, params)?;
            proof {
                assert(d.spec_bytes().subrange(0, 32) =~= d.salt@);
                assert(d.spec_bytes().subrange(32, 44) =~= d.nonce@);
                assert(d.spec_bytes().subrange(44, d.spec_bytes().len() as int) =~= d.ciphertext@);
            }
            if decrypt(&duress_key, d).is_ok() {
                Ok(Some((duress_key, true)))
            } else {
                Ok(None)
            }
        },
        None => Ok(None),
    }
}

/// A vault opens with the password it was sealed with: when the real blob
/// was sealed under the key derived from a password and the blob's salt,
/// unlocking with that password gives that key, not in duress mode.
pub proof fn lemma_sealed_vault_unlocks(password: Seq<char>, params: ArgonParams, main_blob: Seq<u8>, duress: Option<Seq<u8>>, meta: Seq<u8>)
    requires
        derive_key_succeeds(password, params),
        main_blob.len() >= 44,
        aes_gcm_open_bytes(
            password_key(password, main_blob.subrange(0, 32), params),
            main_blob.subrange(32, 44),
            main_blob.subrange(44, main_blob.len() as int),
        ) == Some(meta),
    ensures
        unlock_outcome(password, params, main_blob, duress) == Ok::<Option<(Seq<u8>, bool)>, RuneError>(
            Some((password_key(password, main_blob.subrange(0, 32), params), false)),
        ),
{
}

/// Checks a new duress password: it must not be empty and must differ
/// from the real password.
pub fn check_duress_passwords(real_password: &str, duress_password: &str) -> (r: Result<(), VaultError>)
    ensures
        duress_password@.len() == 0 ==> r == Err::<(), VaultError>(VaultError::EmptyDuress),
        duress_password@.len() != 0 && duress_password@ == real_password@ ==> r == Err::<(), VaultError>(VaultError::SameAsReal),
        duress_password@.len() != 0 && duress_password@ != real_password@ ==> r is Ok,
{
    if duress_password.is_empty() {
        return Err(VaultError::EmptyDuress);
    }
    if crate::text::str_eq(duress_password, real_password) {
        return Err(VaultError::SameAsReal);
    }
    Ok(())
}

/// Authenticates with the real password: derives its key from the real
/// blob's salt and opens the real blob. Returns the key and the plaintext
/// metadata.
pub fn open_real_meta(real_password: &str, params: &ArgonParams, main_blob: &EncryptedFile) -> (r: Result<([u8; 32], Vec<u8>), VaultError>)
    ensures
        !derive_key_succeeds(real_password@, *params) ==> r == Err::<([u8; 32], Vec<u8>), VaultError>(VaultError::KeyDerivation),
        derive_key_succeeds(real_password@, *params) ==> {
            let k = password_key(real_password@, main_blob.salt@, *params);
            match aes_gcm_open_bytes(k, main_blob.nonce@, main_blob.ciphertext@) {
                Some(p) => r matches Ok((rk, m)) && rk@ == k && m@ == p,
                None => r == Err::<([u8; 32], Vec<u8>), VaultError>(VaultError::InvalidPassword),
            }
        },
{
    let key = match derive_key(real_password, &main_blob.salt, params) {
        Ok(k) => k,
        Err(_) => return Err(VaultError::KeyDerivation),
    };
    match decrypt(&key, main_blob) {
        Ok(p) => Ok((key, p)),
        Err(_) => Err(VaultError::InvalidPassword),
    }
}

/// Seals `plaintext` under `key` with a fresh nonce and records `salt` as
/// the blob's salt (the salt `key` was derived from).
pub fn seal_with_salt(key: &[u8; 32], salt: [u8; 32], plaintext: &[u8]) -> (r: Result<EncryptedFile, VaultError>)
    ensures
        plaintext@.len() > aes_gcm_max_input() ==> r is Err,
        r matches Err(e) ==> e == VaultError::Encryption,
        r matches Ok(e) ==> e.salt@ == salt@ && aes_gcm_open_bytes(key@, e.nonce@, e.ciphertext@)
            == Some(plaintext@) && e.ciphertext@.len() == plaintext@.len() + 16,
{
    match encrypt(key, plaintext) {
        Ok(mut e) => {
            e.salt = salt;
            Ok(e)
        },
        Err(_) => Err(VaultError::Encryption),
    }
}

/// Derives a key from `password` and `salt` and seals `plaintext` under it
/// (the blob records the salt). Used for a new vault and for a duress blob.
pub fn derive_and_seal(password: &str, salt: [u8; 32], params: &ArgonParams, plaintext: &[u8]) -> (r: Result<([u8; 32], EncryptedFile), VaultError>)
    ensures
        !derive_key_succeeds(password@, *params) ==> r == Err::<([u8; 32], EncryptedFile), VaultError>(VaultError::KeyDerivation),
        derive_key_succeeds(password@, *params) && plaintext@.len() > aes_gcm_max_input() ==> r == Err::<([u8; 32], EncryptedFile), VaultError>(VaultError::Encryption),
        r matches Err(e) ==> e == VaultError::KeyDerivation || e == VaultError::Encryption,
        r == Err::<([u8; 32], EncryptedFile), VaultError>(VaultError::KeyDerivation) ==> !derive_key_succeeds(password@, *params),
        r matches Ok((k, e)) ==> {
            &&& derive_key_succeeds(password@, *params)
            &&& k@ == password_key(password@, salt@, *params)
            &&& e.salt@ == salt@
            &&& aes_gcm_open_bytes(k@, e.nonce@, e.ciphertext@) == Some(plaintext@)
            &&& e.ciphertext@.len() == plaintext@.len() + 16
        },
{
    let key = match derive_key(password, &salt, params) {
        Ok(k) => k,
        Err(_) => return Err(VaultError::KeyDerivation),
    };
    let e = seal_with_salt(&key, salt, plaintext)?;
    Ok((key, e))
}

/// Builds the bytes of a new vault: the key derived from `password` and
/// `salt`, and a vault file with the given header and one real blob that
/// holds `meta`. Reading the file back gives that header and a blob that
/// the returned key opens to `meta`.
pub fn init_vault_file(password: &str, salt: [u8; 32], params: &ArgonParams, header: &[u8], meta: &[u8]) -> (r: Result<([u8; 32], Vec<u8>), VaultError>)
    ensures
        !derive_key_succeeds(password@, *params) ==> r == Err::<([u8; 32], Vec<u8>), VaultError>(VaultError::KeyDerivation),
        derive_key_succeeds(password@, *params) && meta@.len() > aes_gcm_max_input() ==> r == Err::<([u8; 32], Vec<u8>), VaultError>(VaultError::Encryption),
        r matches Err(e) ==> e == VaultError::KeyDerivation || e == VaultError::Encryption,
        r == Err::<([u8; 32], Vec<u8>), VaultError>(VaultError::KeyDerivation) ==> !derive_key_succeeds(password@, *params),
        r matches Ok((k, bytes)) ==> k@ == password_key(password@, salt@, *params),
        r matches Ok((k, bytes)) ==> (header@.len() <= u32::MAX && meta@.len() + 60 <= u32::MAX
            ==> (parse_vault_file_spec(bytes@) matches Ok((h, b, d)) && h == header@ && d is None
                && b.subrange(0, 32) == salt@ && unlock_outcome(password@, *params, b, None)
                == Ok::<Option<(Seq<u8>, bool)>, RuneError>(Some((k@, false))))),
{
    let (key, enc) = derive_and_seal(password, salt, params, meta)?;
    let bytes = build_vault_file(header, &enc, None);
    proof {
        let b = enc.spec_bytes();
        if header@.len() <= u32::MAX && meta@.len() + 60 <= u32::MAX {
            lemma_vault_file_round_trip(header@, b, None);
            assert(b.subrange(0, 32) =~= enc.salt@);
            assert(b.subrange(32, 44) =~= enc.nonce@);
            assert(b.subrange(44, b.len() as int) =~= enc.ciphertext@);
            lemma_sealed_vault_unlocks(password@, *params, b, None, meta@);
        }
    }
    Ok((key, bytes))
}

/// `bytes` hold `header`, a real blob with salt `real_salt` that `real_key`
/// opens to `real_meta`, and a duress blob with salt `duress_salt` that the
/// key of the duress password and that salt opens to `decoy_meta`; the real
/// password unlocks the real blob (not in duress mode), and the duress
/// password, unless its key happens to open the real blob, unlocks the
/// duress blob in duress mode.
#[verifier::opaque]
pub open spec fn duress_vault_reads_back(
    bytes: Seq<u8>,
    header: Seq<u8>,
    params: ArgonParams,
    real_password: Seq<char>,
    real_key: Seq<u8>,
    real_salt: Seq<u8>,
    real_meta: Seq<u8>,
    duress_password: Seq<char>,
    duress_salt: Seq<u8>,
    decoy_meta: Seq<u8>,
) -> bool {
    &&& parse_vault_file_spec(bytes) matches Ok((h, b, Some(d)))
    &&& h == header
    &&& b.subrange(0, 32) == real_salt
    &&& d.subrange(0, 32) == duress_salt
    &&& aes_gcm_open_bytes(real_key, b.subrange(32, 44), b.subrange(44, b.len() as int)) == Some(real_meta)
    &&& aes_gcm_open_bytes(password_key(duress_password, duress_salt, params), d.subrange(32, 44), d.subrange(44, d.len() as int))
        == Some(decoy_meta)
    &&& unlock_outcome(real_password, params, b, Some(d)) == Ok::<Option<(Seq<u8>, bool)>, RuneError>(
        Some((real_key, false)),
    )
    &&& !key_opens(password_key(duress_password, real_salt, params), b) ==> unlock_outcome(
        duress_password,
        params,
        b,
        Some(d),
    ) == Ok::<Option<(Seq<u8>, bool)>, RuneError>(Some((password_key(duress_password, duress_salt, params), true)))
}

/// The file with a real and a duress blob reads back as both, and each
/// password unlocks its own blob.
proof fn lemma_duress_file(
    header: Seq<u8>,
    params: ArgonParams,
    real_password: Seq<char>,
    real_key: Seq<u8>,
    real_salt: Seq<u8>,
    real_meta: Seq<u8>,
    duress_password: Seq<char>,
    duress_salt: Seq<u8>,
    decoy_meta: Seq<u8>,
    b: Seq<u8>,
    d: Seq<u8>,
)
    requires
        derive_key_succeeds(real_password, params),
        derive_key_succeeds(duress_password, params),
        real_key == password_key(real_password, real_salt, params),
        header.len() <= u32::MAX,
        44 <= b.len() <= u32::MAX,
        44 <= d.len() <= u32::MAX,
        b.subrange(0, 32) == real_salt,
        d.subrange(0, 32) == duress_salt,
        aes_gcm_open_bytes(real_key, b.subrange(32, 44), b.subrange(44, b.len() as int)) == Some(real_meta),
        aes_gcm_open_bytes(password_key(duress_password, duress_salt, params), d.subrange(32, 44), d.subrange(44, d.len() as int))
            == Some(decoy_meta),
    ensures
        duress_vault_reads_back(
            vault_file_bytes(header, b, Some(d)),
            header,
            params,
            real_password,
            real_key,
            real_salt,
            real_meta,
            duress_password,
            duress_salt,
            decoy_meta,
        ),
{
    reveal(duress_vault_reads_back);
    lemma_vault_file_round_trip(header, b, Some(d));
    lemma_sealed_vault_unlocks(real_password, params, b, Some(d), real_meta);
}

/// Builds the vault file that adds a duress password: the real metadata
/// sealed again under the real key (fresh nonce, the real salt kept), and a
/// duress blob holding the decoy metadata under the key derived from the
/// duress password and `duress_salt`.
///
/// Reading the file back gives the header, the two blobs; the real
/// password still unlocks the real blob (not in duress mode), and the
/// duress password, when its key does not happen to open the real blob,
/// unlocks the decoy in duress mode.
pub fn seal_duress_vault(
    header: &[u8],
    params: &ArgonParams,
    real_password: &str,
    real_key: &[u8; 32],
    real_salt: [u8; 32],
    real_meta: &[u8],
    duress_password: &str,
    duress_salt: [u8; 32],
    decoy_meta: &[u8],
) -> (r: Result<Vec<u8>, VaultError>)
    requires
        derive_key_succeeds(real_password@, *params),
        real_key@ == password_key(real_password@, real_salt@, *params),
    ensures
        real_meta@.len() > aes_gcm_max_input() ==> r == Err::<Vec<u8>, VaultError>(VaultError::Encryption),
        !derive_key_succeeds(duress_password@, *params) ==> r is Err,
        r matches Err(e) ==> e == VaultError::KeyDerivation || e == VaultError::Encryption,
        r matches Ok(bytes) ==> (header@.len() <= u32::MAX && real_meta@.len() + 60 <= u32::MAX
            && decoy_meta@.len() + 60 <= u32::MAX ==> duress_vault_reads_back(
            bytes@,
            header@,
            *params,
            real_password@,
            real_key@,
            real_salt@,
            real_meta@,
            duress_password@,
            duress_salt@,
            decoy_meta@,
        )),
        r == Err::<Vec<u8>, VaultError>(VaultError::KeyDerivation) ==> !derive_key_succeeds(duress_password@, *params),
{
    let new_real = seal_with_salt(real_key, real_salt, real_meta)?;
    let (duress_key, duress_blob) = derive_and_seal(duress_password, duress_salt, params, decoy_meta)?;
    let bytes = build_vault_file(header, &new_real, Some(&duress_blob));
    proof {
        let b = new_real.spec_bytes();
        let d = duress_blob.spec_bytes();
        assert(b.subrange(0, 32) =~= new_real.salt@);
        assert(b.subrange(32, 44) =~= new_real.nonce@);
        assert(b.subrange(44, b.len() as int) =~= new_real.ciphertext@);
        assert(d.subrange(0, 32) =~= duress_blob.salt@);
        assert(d.subrange(32, 44) =~= duress_blob.nonce@);
        assert(d.subrange(44, d.len() as int) =~= duress_blob.ciphertext@);
        if header@.len() <= u32::MAX && real_meta@.len() + 60 <= u32::MAX && decoy_meta@.len() + 60 <= u32::MAX {
            lemma_duress_file(header@, *params, real_password@, real_key@, real_salt@, real_meta@, duress_password@, duress_salt@, decoy_meta@, b, d);
        }
    }
    Ok(bytes)
}


/// A fresh salt from the operating system; `Random` when it gives none.
pub(crate) fn fresh_salt() -> (r: Result<[u8; 32], VaultError>)
    ensures
        r matches Err(e) ==> e == VaultError::Random,
{
    match random_salt() {
        Ok(s) => Ok(s),
        Err(_) => Err(VaultError::Random),
    }
}

/// Builds a new vault (see `init_vault_file`) under a salt drawn from the
/// operating system, and returns the key, that salt and the file.
pub fn create_vault_file(password: &str, params: &ArgonParams, header: &[u8], meta: &[u8]) -> (r: Result<([u8; 32], [u8; 32], Vec<u8>), VaultError>)
    ensures
        !derive_key_succeeds(password@, *params) ==> r is Err,
        derive_key_succeeds(password@, *params) && meta@.len() > aes_gcm_max_input() ==> r is Err,
        r matches Err(e) ==> e == VaultError::KeyDerivation || e == VaultError::Encryption || e == VaultError::Random,
        r == Err::<([u8; 32], [u8; 32], Vec<u8>), VaultError>(VaultError::KeyDerivation) ==> !derive_key_succeeds(password@, *params),
        r matches Ok((k, salt, bytes)) ==> k@ == password_key(password@, salt@, *params),
        r matches Ok((k, salt, bytes)) ==> (header@.len() <= u32::MAX && meta@.len() + 60 <= u32::MAX
            ==> (parse_vault_file_spec(bytes@) matches Ok((h, b, d)) && h == header@ && d is None
                && b.subrange(0, 32) == salt@ && unlock_outcome(password@, *params, b, None)
                == Ok::<Option<(Seq<u8>, bool)>, RuneError>(Some((k@, false))))),
{
    let salt = fresh_salt()?;
    let (key, bytes) = init_vault_file(password, salt, params, header, meta)?;
    Ok((key, salt, bytes))
}

/// Adds a duress password to a vault (see `seal_duress_vault`), its blob
/// under a salt drawn from the operating system.
pub fn add_duress_password(
    header: &[u8],
    params: &ArgonParams,
    real_password: &str,
    real_key: &[u8; 32],
    real_salt: [u8; 32],
    real_meta: &[u8],
    duress_password: &str,
    decoy_meta: &[u8],
) -> (r: Result<Vec<u8>, VaultError>)
    requires
        derive_key_succeeds(real_password@, *params),
        real_key@ == password_key(real_password@, real_salt@, *params),
    ensures
        !derive_key_succeeds(duress_password@, *params) ==> r is Err,
        r matches Err(e) ==> e == VaultError::KeyDerivation || e == VaultError::Encryption || e == VaultError::Random,
        r matches Ok(bytes) ==> exists|duress_salt: Seq<u8>| #![trigger duress_vault_reads_back(bytes@, header@, *params, real_password@, real_key@, real_salt@, real_meta@, duress_password@, duress_salt, decoy_meta@)]
            duress_salt.len() == 32 && (header@.len() <= u32::MAX && real_meta@.len() + 60 <= u32::MAX
            && decoy_meta@.len() + 60 <= u32::MAX ==> duress_vault_reads_back(
            bytes@,
            header@,
            *params,
            real_password@,
            real_key@,
            real_salt@,
            real_meta@,
            duress_password@,
            duress_salt,
            decoy_meta@,
        )),
        r == Err::<Vec<u8>, VaultError>(VaultError::KeyDerivation) ==> !derive_key_succeeds(duress_password@, *params),
{
    let duress_salt = fresh_salt()?;
    let r = seal_duress_vault(header, params, real_password, real_key, real_salt, real_meta, duress_password, duress_salt, decoy_meta);
    proof {
        if r is Ok {
            // The drawn salt is the witness.
            assert(duress_salt@.len() == 32 && (header@.len() <= u32::MAX && real_meta@.len() + 60 <= u32::MAX
                && decoy_meta@.len() + 60 <= u32::MAX ==> duress_vault_reads_back(
                r->Ok_0@,
                header@,
                *params,
                real_password@,
                real_key@,
                real_salt@,
                real_meta@,
                duress_password@,
                duress_salt@,
                decoy_meta@,
            )));
        }
    }
    r
}

} // verus!
