//! The portable `.vault` export file, and the steps of merging an import
//! into the open vault.
//!
//! Layout:
//! ```text
//! [8 magic "RUNEVLT\0"][4 LE version][4 LE header length][header JSON]
//! [32 salt][12 nonce][ciphertext+tag]   <- payload under the export password
//! ```

use vstd::prelude::*;
use crate::bytes::{le32_bytes, le32_value, le32_encode, le32_decode, push_all, copy_range, lemma_le32_round_trip};
use crate::crypto::{aes_gcm_open_bytes, aes_gcm_max_input, derive_key, derive_key_succeeds, decrypt};
use crate::models::{ArgonParams, EncryptedFile, BLOB_HEADER_LEN};
use crate::vault::{password_key, derive_and_seal, fresh_salt, VaultError};
use crate::text::{chars_of, push_chars, str_eq, replace_all, replace_text};
use crate::folders::FolderData;
use crate::notes::{last_index_of, NoteData, clone_strings};
use crate::order::key_views;

verus! {

/// The first bytes of an export file: `RUNEVLT` and a zero byte.
pub const MAGIC: [u8; 8] = [82u8, 85u8, 78u8, 69u8, 86u8, 76u8, 84u8, 0u8];

/// The version written into export files.
pub const EXPORT_VERSION: u32 = 1;

/// What goes wrong with an export or an import.
#[derive(Debug, Clone, Copy, PartialEq, Eq, Structural)]
pub enum ExportError {
    /// Too short, or not starting with the magic bytes.
    NotVault,
    /// The header length runs past the end, or the payload blob is cut.
    Corrupted,
    /// Argon2 refused the parameters or the password.
    KeyDerivation,
    /// Sealing the payload failed.
    Encryption,
    /// The payload does not open with this password.
    InvalidPassword,
    /// The operating system gave no random bytes for a salt.
    Random,
}

impl ExportError {
    pub open spec fn spec_message(&self) -> Seq<char> {
        match self {
            ExportError::NotVault => "Not a valid .vault file"@,
            ExportError::Corrupted => "Corrupted export file"@,
            ExportError::KeyDerivation => "Key derivation error"@,
            ExportError::Encryption => "Encryption error"@,
            ExportError::InvalidPassword => "Invalid password or corrupted export file"@,
            ExportError::Random => "Random number generator failed"@,
        }
    }

    /// The message shown to the user.
    pub fn message(&self) -> (s: String)
        ensures
            s@ == self.spec_message(),
    {
        match self {
            ExportError::NotVault => String::from_str("Not a valid .vault file"),
            ExportError::Corrupted => String::from_str("Corrupted export file"),
            ExportError::KeyDerivation => String::from_str("Key derivation error"),
            ExportError::Encryption => String::from_str("Encryption error"),
            ExportError::InvalidPassword => String::from_str("Invalid password or corrupted export file"),
            ExportError::Random => String::from_str("Random number generator failed"),
        }
    }
}

/// What an import added.
pub struct ImportResult {
    pub note_count: u32,
    pub folder_count: u32,
    pub attachment_count: u32,
}

// ── Where an export goes, where an import comes from ───────────────────────

/// The code of `c`, with an ASCII capital taken as its small letter.
pub open spec fn ascii_lower(c: char) -> int {
    if 'A' <= c <= 'Z' {
        c as int + 32
    } else {
        c as int
    }
}

/// Whether `a` and `b` are equal but for the case of ASCII letters (as
/// `str::eq_ignore_ascii_case`).
pub open spec fn eq_ignore_ascii_case(a: Seq<char>, b: Seq<char>) -> bool {
    a.len() == b.len() && forall|i: int| 0 <= i < a.len() ==> ascii_lower(#[trigger] a[i]) == ascii_lower(b[i])
}

/// The code of `c`, with an ASCII capital taken as its small letter.
fn lower_ascii_code(c: char) -> (r: u32)
    ensures
        r == ascii_lower(c),
{
    let u = c as u32;
    if 'A' <= c && c <= 'Z' {
        u + 32
    } else {
        u
    }
}

/// Whether a path's extension (`None` when it has none) is `expected`,
/// ignoring the case of ASCII letters.
pub fn has_extension(extension: Option<&str>, expected: &str) -> (b: bool)
    ensures
        b == (extension matches Some(e) && eq_ignore_ascii_case(e@, expected@)),
{
    match extension {
        None => false,
        Some(e) => {
            let a = chars_of(e);
            let x = chars_of(expected);
            if a.len() != x.len() {
                return false;
            }
            let mut i: usize = 0;
            while i < a.len()
                invariant
                    i <= a@.len() == x@.len(),
                    extension == Some(e),
                    a@ == e@,
                    x@ == expected@,
                    forall|k: int| 0 <= k < i ==> ascii_lower(#[trigger] a@[k]) == ascii_lower(x@[k]),
                decreases a@.len() - i,
            {
                if lower_ascii_code(a[i]) != lower_ascii_code(x[i]) {
                    assert(ascii_lower(e@[i as int]) != ascii_lower(expected@[i as int]));
                    return false;
                }
                i = i + 1;
            }
            true
        },
    }
}

/// The message when an export destination is refused for its form.
pub open spec fn destination_form_message(expected: Seq<char>) -> Seq<char> {
    "Destination must be an absolute ."@ + expected + " file path"@
}

/// Whether an export may be written to a path, from what the file system
/// says of it: the path must be absolute with the `expected` extension
/// (else `destination_form_message`), and have a parent that is a
/// directory, and not name something that exists but is no file (else
/// `Destination directory not found`).
pub fn validate_export_destination(
    is_absolute: bool,
    extension: Option<&str>,
    expected: &str,
    parent_is_dir: Option<bool>,
    exists: bool,
    is_file: bool,
) -> (r: Result<(), String>)
    ensures
        !(is_absolute && (extension matches Some(e) && eq_ignore_ascii_case(e@, expected@))) ==> (r matches Err(m)
            && m@ == destination_form_message(expected@)),
        (is_absolute && (extension matches Some(e) && eq_ignore_ascii_case(e@, expected@))) ==> match r {
            Ok(_) => parent_is_dir == Some(true) && !(exists && !is_file),
            Err(m) => !(parent_is_dir == Some(true) && !(exists && !is_file)) && m@ == "Destination directory not found"@,
        },
{
    if !is_absolute || !has_extension(extension, expected) {
        let mut m = chars_of("Destination must be an absolute .");
        push_chars(&mut m, chars_of(expected).as_slice());
        push_chars(&mut m, chars_of(" file path").as_slice());
        return Err(crate::text::string_from(m.as_slice()));
    }
    match parent_is_dir {
        Some(true) => {
            if exists && !is_file {
                Err(String::from_str("Destination directory not found"))
            } else {
                Ok(())
            }
        },
        _ => Err(String::from_str("Destination directory not found")),
    }
}

/// Whether an import may read a path: an absolute path with the `vault`
/// extension that names an existing file.
pub fn validate_import_source(is_absolute: bool, extension: Option<&str>, is_file: bool) -> (r: Result<(), String>)
    ensures
        r is Ok <==> (is_absolute && (extension matches Some(e) && eq_ignore_ascii_case(e@, "vault"@)) && is_file),
        (r matches Err(m) ==> m@ == "Source must be an existing .vault file"@),
{
    if !is_absolute || !has_extension(extension, "vault") || !is_file {
        return Err(String::from_str("Source must be an existing .vault file"));
    }
    Ok(())
}

// ── The file ────────────────────────────────────────────────────────────────

/// The bytes of an export file holding `header` and the payload blob.
pub open spec fn export_file_bytes(header: Seq<u8>, blob: Seq<u8>) -> Seq<u8> {
    MAGIC@ + le32_bytes(EXPORT_VERSION) + le32_bytes(header.len() as u32) + header + blob
}

/// Lays out an export file: magic, version, header length, header (the
/// JSON of the export header) and the sealed payload.
pub fn build_export_file(header: &[u8], payload: &EncryptedFile) -> (out: Vec<u8>)
    ensures
        out@ == export_file_bytes(header@, payload.spec_bytes()),
{
    let mut out: Vec<u8> = Vec::new();
    let magic = MAGIC;
    push_all(&mut out, &magic);
    push_all(&mut out, &le32_encode(EXPORT_VERSION));
    push_all(&mut out, &le32_encode(header.len() as u32));
    push_all(&mut out, header);
    let blob = payload.to_bytes();
    push_all(&mut out, blob.as_slice());
    assert(out@ =~= export_file_bytes(header@, payload.spec_bytes()));
    out
}

/// How an export file is read: `NotVault` when it is shorter than 16 bytes
/// or does not start with the magic; `Corrupted` when the header runs past
/// the end or fewer than 44 bytes of payload follow it; otherwise the
/// header bytes and the payload blob. The version field is not checked.
pub open spec fn parse_export_spec(data: Seq<u8>) -> Result<(Seq<u8>, Seq<u8>), ExportError> {
    if data.len() < 16 || data.subrange(0, 8) != MAGIC@ {
        Err(ExportError::NotVault)
    } else {
        let hend = 16 + le32_value(data.subrange(12, 16)) as int;
        if hend > data.len() || data.len() - hend < 44 {
            Err(ExportError::Corrupted)
        } else {
            Ok((data.subrange(16, hend), data.subrange(hend, data.len() as int)))
        }
    }
}

/// Whether `data` starts with the magic bytes.
fn has_magic(data: &[u8]) -> (b: bool)
    requires
        data@.len() >= 8,
    ensures
        b == (data@.subrange(0, 8) == MAGIC@),
{
    let magic = MAGIC;
    let mut i: usize = 0;
    while i < 8
        invariant
            i <= 8 <= data@.len(),
            magic@ == MAGIC@,
            forall|k: int| 0 <= k < i ==> data@[k] == magic@[k],
        decreases 8 - i,
    {
        if data[i] != magic[i] {
            assert(data@.subrange(0, 8)[i as int] != MAGIC@[i as int]);
            return false;
        }
        i = i + 1;
    }
    assert(data@.subrange(0, 8) =~= MAGIC@);
    true
}

/// Splits an export file into its header bytes and its payload blob (see
/// `parse_export_spec`).
pub fn parse_export_file(data: &[u8]) -> (r: Result<(Vec<u8>, EncryptedFile), ExportError>)
    ensures
        match parse_export_spec(data@) {
            Ok((h, b)) => r matches Ok((hv, e)) && hv@ == h && e.spec_bytes() == b,
            Err(x) => r matches Err(y) && y == x,
        },
{
    if data.len() < 16 || !has_magic(data) {
        return Err(ExportError::NotVault);
    }
    let header_len = le32_decode(data, 12) as usize;
    if header_len > data.len() - 16 {
        return Err(ExportError::Corrupted);
    }
    let hend = 16 + header_len;
    if data.len() - hend < BLOB_HEADER_LEN {
        return Err(ExportError::Corrupted);
    }
    let header = copy_range(data, 16, hend);
    let rest = copy_range(data, hend, data.len());
    match EncryptedFile::from_bytes(rest.as_slice()) {
        Ok(e) => Ok((header, e)),
        Err(_) => Err(ExportError::Corrupted),
    }
}

/// Reading an export file back gives the header and the payload blob it
/// was built from, whenever the header fits its 32-bit length.
pub proof fn lemma_export_file_round_trip(header: Seq<u8>, blob: Seq<u8>)
    requires
        header.len() <= u32::MAX,
        blob.len() >= 44,
    ensures
        parse_export_spec(export_file_bytes(header, blob)) == Ok::<(Seq<u8>, Seq<u8>), ExportError>((header, blob)),
{
    let data = export_file_bytes(header, blob);
    let hl = header.len() as u32;
    lemma_le32_round_trip(hl);
    lemma_le32_round_trip(EXPORT_VERSION);
    assert(data.subrange(0, 8) =~= MAGIC@);
    assert(data.subrange(12, 16) =~= le32_bytes(hl));
    assert(data.subrange(16, 16 + header.len() as int) =~= header);
    assert(data.subrange(16 + header.len() as int, data.len() as int) =~= blob);
}

// ── The payload ─────────────────────────────────────────────────────────────

/// Seals the export payload under the key derived from the export password
/// and `salt`; the blob records the salt.
pub fn seal_export(password: &str, salt: [u8; 32], params: &ArgonParams, payload: &[u8]) -> (r: Result<EncryptedFile, ExportError>)
    ensures
        !derive_key_succeeds(password@, *params) ==> r == Err::<EncryptedFile, ExportError>(ExportError::KeyDerivation),
        derive_key_succeeds(password@, *params) && payload@.len() > aes_gcm_max_input() ==> r == Err::<
            EncryptedFile,
            ExportError,
        >(ExportError::Encryption),
        r matches Err(e) ==> e == ExportError::KeyDerivation || e == ExportError::Encryption,
        r == Err::<EncryptedFile, ExportError>(ExportError::KeyDerivation) ==> !derive_key_succeeds(password@, *params),
        r matches Ok(e) ==> {
            &&& e.salt@ == salt@
            &&& aes_gcm_open_bytes(password_key(password@, salt@, *params), e.nonce@, e.ciphertext@) == Some(payload@)
            &&& e.ciphertext@.len() == payload@.len() + 16
        },
{
    match derive_and_seal(password, salt, params, payload) {
        Ok((_, e)) => Ok(e),
        Err(VaultError::KeyDerivation) => Err(ExportError::KeyDerivation),
        Err(_) => Err(ExportError::Encryption),
    }
}

/// Seals the export payload (see `seal_export`) under a salt drawn from
/// the operating system; the blob records that salt.
pub fn seal_new_export(password: &str, params: &ArgonParams, payload: &[u8]) -> (r: Result<EncryptedFile, ExportError>)
    ensures
        !derive_key_succeeds(password@, *params) ==> r is Err,
        derive_key_succeeds(password@, *params) && payload@.len() > aes_gcm_max_input() ==> r is Err,
        r matches Err(e) ==> e == ExportError::KeyDerivation || e == ExportError::Encryption || e == ExportError::Random,
        r == Err::<EncryptedFile, ExportError>(ExportError::KeyDerivation) ==> !derive_key_succeeds(password@, *params),
        r matches Ok(e) ==> {
            &&& aes_gcm_open_bytes(password_key(password@, e.salt@, *params), e.nonce@, e.ciphertext@) == Some(payload@)
            &&& e.ciphertext@.len() == payload@.len() + 16
        },
{
    let salt = match fresh_salt() {
        Ok(s) => s,
        Err(_) => return Err(ExportError::Random),
    };
    seal_export(password, salt, params, payload)
}

/// What opening an export payload gives: a key-derivation failure, the
/// payload, or `InvalidPassword` when the key does not open it.
pub open spec fn open_export_spec(password: Seq<char>, params: ArgonParams, blob: Seq<u8>) -> Result<Seq<u8>, ExportError> {
    if !derive_key_succeeds(password, params) {
        Err(ExportError::KeyDerivation)
    } else {
        match aes_gcm_open_bytes(
            password_key(password, blob.subrange(0, 32), params),
            blob.subrange(32, 44),
            blob.subrange(44, blob.len() as int),
        ) {
            Some(p) => Ok(p),
            None => Err(ExportError::InvalidPassword),
        }
    }
}

/// Opens the payload of an export file with the import password and the
/// Argon2 parameters from its header.
pub fn open_export(password: &str, params: &ArgonParams, blob: &EncryptedFile) -> (r: Result<Vec<u8>, ExportError>)
    ensures
        match open_export_spec(password@, *params, blob.spec_bytes()) {
            Ok(p) => r matches Ok(v) && v@ == p,
            Err(e) => r matches Err(x) && x == e,
        },
{
    proof {
        let b = blob.spec_bytes();
        assert(b.subrange(0, 32) =~= blob.salt@);
        assert(b.subrange(32, 44) =~= blob.nonce@);
        assert(b.subrange(44, b.len() as int) =~= blob.ciphertext@);
    }
    let key = match derive_key(password, &blob.salt, params) {
        Ok(k) => k,
        Err(_) => return Err(ExportError::KeyDerivation),
    };
    match decrypt(&key, blob) {
        Ok(p) => Ok(p),
        Err(_) => Err(ExportError::InvalidPassword),
    }
}

/// An export opens with the password it was made with: the file built from
/// a header and a payload sealed by `seal_export` reads back as that header,
/// and its payload opens to the original bytes.
pub proof fn lemma_export_import_round_trip(
    password: Seq<char>,
    params: ArgonParams,
    salt: Seq<u8>,
    header: Seq<u8>,
    blob: Seq<u8>,
    payload: Seq<u8>,
)
    requires
        derive_key_succeeds(password, params),
        header.len() <= u32::MAX,
        blob.len() >= 44,
        blob.subrange(0, 32) == salt,
        aes_gcm_open_bytes(password_key(password, salt, params), blob.subrange(32, 44), blob.subrange(44, blob.len() as int))
            == Some(payload),
    ensures
        parse_export_spec(export_file_bytes(header, blob)) == Ok::<(Seq<u8>, Seq<u8>), ExportError>((header, blob)),
        open_export_spec(password, params, blob) == Ok::<Seq<u8>, ExportError>(payload),
{
    lemma_export_file_round_trip(header, blob);
}

// ── Merging an import ───────────────────────────────────────────────────────

/// The highest `order` among `folders`, or -1 when there is none.
pub open spec fn max_order(folders: Seq<FolderData>) -> int
    decreases folders.len(),
{
    if folders.len() == 0 {
        -1
    } else if folders.len() == 1 {
        folders[0].order as int
    } else {
        let m = max_order(folders.drop_last());
        if folders.last().order > m {
            folders.last().order as int
        } else {
            m
        }
    }
}

/// The highest `order` is at least each of them, is one of them when there
/// are folders, and lies within `i32`.
proof fn lemma_max_order(folders: Seq<FolderData>)
    ensures
        i32::MIN <= max_order(folders) <= i32::MAX,
        forall|k: int| 0 <= k < folders.len() ==> #[trigger] folders[k].order <= max_order(folders),
        folders.len() > 0 ==> exists|k: int| 0 <= k < folders.len() && folders[k].order == max_order(folders),
    decreases folders.len(),
{
    if folders.len() == 1 {
        assert(folders[0].order == max_order(folders));
    } else if folders.len() > 1 {
        lemma_max_order(folders.drop_last());
        assert forall|k: int| 0 <= k < folders.len() implies #[trigger] folders[k].order <= max_order(folders) by {
            if k < folders.len() - 1 {
                assert(folders.drop_last()[k] == folders[k]);
            }
        }
        if max_order(folders) != folders.last().order {
            let k = choose|k: int| 0 <= k < folders.drop_last().len() && folders.drop_last()[k].order == max_order(folders.drop_last());
            assert(folders[k] == folders.drop_last()[k]);
        } else {
            assert(folders[folders.len() - 1].order == max_order(folders));
        }
    }
}

/// The highest folder order, or -1 for no folders.
fn highest_order(folders: &Vec<FolderData>) -> (m: i32)
    ensures
        m == max_order(folders@),
{
    if folders.len() == 0 {
        return -1;
    }
    let mut m: i32 = folders[0].order;
    let mut i: usize = 1;
    while i < folders.len()
        invariant
            1 <= i <= folders@.len(),
            m == max_order(folders@.subrange(0, i as int)),
        decreases folders@.len() - i,
    {
        proof {
            assert(folders@.subrange(0, i + 1).drop_last() =~= folders@.subrange(0, i as int));
        }
        if folders[i].order > m {
            m = folders[i].order;
        }
        i = i + 1;
    }
    assert(folders@.subrange(0, folders@.len() as int) =~= folders@);
    m
}

/// `f` is the imported copy of folder `src`: the new id, the same name and
/// creation time, and the given order.
pub open spec fn is_imported_folder(f: FolderData, src: FolderData, id: String, order: int) -> bool {
    f.id == id && f.name == src.name && f.created_at == src.created_at && f.order == order
}

/// Appends the imported folders to `existing` with fresh ids, ordered after
/// the existing ones (in their import order); returns the map from each
/// imported folder id to its new id.
pub fn merge_folders(existing: &mut Vec<FolderData>, imported: &Vec<FolderData>, new_ids: Vec<String>) -> (map: Vec<(String, String)>)
    requires
        new_ids@.len() == imported@.len(),
        imported@.len() <= i32::MAX,
        max_order(old(existing)@) + imported@.len() <= i32::MAX,
    ensures
        final(existing)@.len() == old(existing)@.len() + imported@.len(),
        final(existing)@.subrange(0, old(existing)@.len() as int) == old(existing)@,
        forall|i: int| 0 <= i < imported@.len() ==> is_imported_folder(
            #[trigger] final(existing)@[old(existing)@.len() + i],
            imported@[i],
            new_ids@[i],
            max_order(old(existing)@) + 1 + i,
        ),
        map@.len() == imported@.len(),
        forall|i: int| 0 <= i < imported@.len() ==> (#[trigger] map@[i]).0 == imported@[i].id && map@[i].1 == new_ids@[i],
{
    let base = highest_order(existing);
    let ghost start = existing@;
    let n0 = existing.len();
    let mut map: Vec<(String, String)> = Vec::new();
    let mut i: usize = 0;
    while i < imported.len()
        invariant
            i <= imported@.len() == new_ids@.len(),
            base == max_order(start),
            imported@.len() <= i32::MAX,
            max_order(start) + imported@.len() <= i32::MAX,
            n0 == start.len(),
            existing@.len() == start.len() + i,
            existing@.subrange(0, start.len() as int) == start,
            forall|k: int| 0 <= k < i ==> is_imported_folder(
                #[trigger] existing@[start.len() + k],
                imported@[k],
                new_ids@[k],
                max_order(start) + 1 + k,
            ),
            map@.len() == i,
            forall|k: int| 0 <= k < i ==> (#[trigger] map@[k]).0 == imported@[k].id && map@[k].1 == new_ids@[k],
        decreases imported@.len() - i,
    {
        proof {
            lemma_max_order(start);
        }
        let src = &imported[i];
        let order = base + 1 + i as i32;
        let ghost before = existing@;
        existing.push(FolderData {
            id: new_ids[i].clone(),
            name: src.name.clone(),
            created_at: src.created_at.clone(),
            order,
        });
        map.push((src.id.clone(), new_ids[i].clone()));
        proof {
            assert(existing@.subrange(0, start.len() as int) =~= before.subrange(0, start.len() as int));
            assert forall|k: int| 0 <= k < i + 1 implies is_imported_folder(
                #[trigger] existing@[start.len() + k],
                imported@[k],
                new_ids@[k],
                max_order(start) + 1 + k,
            ) by {
                if k < i {
                    assert(existing@[start.len() + k] == before[start.len() + k]);
                }
            }
        }
        i = i + 1;
    }
    map
}

/// The value of the last entry of `map` with key `key` (a `HashMap` filled
/// in order keeps the last value put under a key).
pub open spec fn map_lookup(map: Seq<(String, String)>, key: Seq<char>) -> Option<String> {
    match last_index_of(map.map_values(|e: (String, String)| e.0@), key) {
        Some(t) => Some(map[t].1),
        None => None,
    }
}

/// Looks `key` up in `map` (see `map_lookup`).
pub fn lookup(map: &Vec<(String, String)>, key: &str) -> (r: Option<String>)
    ensures
        r == map_lookup(map@, key@),
{
    let ghost keys = map@.map_values(|e: (String, String)| e.0@);
    let mut j = map.len();
    assert(keys.subrange(0, j as int) =~= keys);
    while j > 0
        invariant
            j <= map@.len(),
            keys == map@.map_values(|e: (String, String)| e.0@),
            last_index_of(keys.subrange(0, j as int), key@) == last_index_of(keys, key@),
        decreases j,
    {
        let ghost pre = keys.subrange(0, j as int);
        assert(pre.drop_last() =~= keys.subrange(0, j - 1));
        assert(pre.last() == map@[j - 1].0@);
        if str_eq(map[j - 1].0.as_str(), key) {
            return Some(map[j - 1].1.clone());
        }
        j = j - 1;
    }
    None
}

/// `attachment://` followed by `id`.
pub open spec fn attachment_ref(id: Seq<char>) -> Seq<char> {
    "attachment://"@ + id
}

/// The characters of `attachment://{id}`.
fn attachment_ref_chars(id: &str) -> (r: Vec<char>)
    ensures
        r@ == attachment_ref(id@),
{
    let mut out: Vec<char> = Vec::new();
    push_chars(&mut out, &['a', 't', 't', 'a', 'c', 'h', 'm', 'e', 'n', 't', ':', '/', '/']);
    let v = chars_of(id);
    push_chars(&mut out, v.as_slice());
    proof {
        reveal_strlit("attachment://");
        assert(out@ =~= attachment_ref(id@));
    }
    out
}

/// Points the references `attachment://{old_id}` in a note at the
/// attachment's new id.
pub fn relink_attachment(content: &str, old_id: &str, new_id: &str) -> (r: String)
    ensures
        r@ == replace_all(content@, attachment_ref(old_id@), attachment_ref(new_id@)),
{
    let from = attachment_ref_chars(old_id);
    let to = attachment_ref_chars(new_id);
    proof {
        reveal_strlit("attachment://");
    }
    replace_text(content, from.as_slice(), to.as_slice())
}


/// `content` with the references of each stored attachment pointed at its
/// new id, the pairs `(old id, new id)` taken in order.
pub open spec fn relinked(content: Seq<char>, relinks: Seq<(String, String)>) -> Seq<char>
    decreases relinks.len(),
{
    if relinks.len() == 0 {
        content
    } else {
        replace_all(
            relinked(content, relinks.drop_last()),
            attachment_ref(relinks.last().0@),
            attachment_ref(relinks.last().1@),
        )
    }
}

/// The folder an imported note goes into: the new id of its folder when
/// the import brought that folder, otherwise none.
pub open spec fn imported_folder(folder_id: Option<String>, folder_map: Seq<(String, String)>) -> Option<String> {
    match folder_id {
        Some(f) => map_lookup(folder_map, f@),
        None => None,
    }
}

/// The note that importing `src` writes: the new id, the content with the
/// stored attachments relinked (see `relinked`), the folder mapped (see
/// `imported_folder`), and everything else as it was.
pub fn imported_note(src: &NoteData, new_id: &str, folder_map: &Vec<(String, String)>, relinks: &Vec<(String, String)>) -> (n: NoteData)
    ensures
        n.id@ == new_id@,
        n.title == src.title,
        n.content@ == relinked(src.content@, relinks@),
        n.tags@ == src.tags@,
        n.folder_id == imported_folder(src.folder_id, folder_map@),
        n.pinned == src.pinned,
        n.created_at == src.created_at,
        n.updated_at == src.updated_at,
{
    let mut content = src.content.clone();
    let mut i: usize = 0;
    while i < relinks.len()
        invariant
            i <= relinks@.len(),
            content@ == relinked(src.content@, relinks@.subrange(0, i as int)),
        decreases relinks@.len() - i,
    {
        proof {
            assert(relinks@.subrange(0, i + 1).drop_last() =~= relinks@.subrange(0, i as int));
        }
        content = relink_attachment(content.as_str(), relinks[i].0.as_str(), relinks[i].1.as_str());
        i = i + 1;
    }
    assert(relinks@.subrange(0, relinks@.len() as int) =~= relinks@);
    let folder_id = match &src.folder_id {
        Some(f) => lookup(folder_map, f.as_str()),
        None => None,
    };
    NoteData {
        id: new_id.to_string(),
        title: src.title.clone(),
        content,
        tags: clone_strings(&src.tags),
        folder_id,
        pinned: src.pinned,
        created_at: src.created_at.clone(),
        updated_at: src.updated_at.clone(),
    }
}

} // verus!
