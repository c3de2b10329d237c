//! Encrypted attachments (images, PDFs). Each is a data file
//! `attachments/{id}.rune` under the vault key; an encrypted index lists
//! their metadata. Files and the index are read and written by the caller.

use vstd::prelude::*;
use crate::codec::{new_id, is_uuid_v4_text, encode_attachment, base64_text};
use crate::crypto::{seal_data_file, open_data_file_spec, aes_gcm_max_input};
use crate::models::RuneError;
use crate::notes::{clean_id, clean_id_spec, data_file_in, join_path, rune_file_name};
use crate::text::{chars_of, string_from, push_chars, str_eq};
use crate::timeutil::{decimal, decimal_chars, now_millis};

verus! {

/// The largest attachment accepted: 20 MiB.
pub const MAX_SIZE: usize = 20971520;

/// Metadata of an attachment.
pub struct AttachmentMeta {
    pub id: String,
    pub original_filename: String,
    pub mime_type: String,
    pub size_bytes: u64,
    pub note_id: String,
    pub created_at: String,
}

/// What goes wrong when storing an attachment.
#[derive(Debug, Clone, Copy, PartialEq, Eq, Structural)]
pub enum AttachmentError {
    /// Larger than `MAX_SIZE`.
    TooLarge,
    /// Sealing failed.
    Encryption,
    /// The system generator gave no random bytes for the id.
    Random,
}

impl AttachmentError {
    pub open spec fn spec_message(&self) -> Seq<char> {
        match self {
            AttachmentError::TooLarge => "File too large (max 20MB)"@,
            AttachmentError::Encryption => "Encryption error"@,
            AttachmentError::Random => "Random number generator failed"@,
        }
    }

    /// The message shown to the user.
    pub fn message(&self) -> (s: String)
        ensures
            s@ == self.spec_message(),
    {
        match self {
            AttachmentError::TooLarge => String::from_str("File too large (max 20MB)"),
            AttachmentError::Encryption => String::from_str("Encryption error"),
            AttachmentError::Random => String::from_str("Random number generator failed"),
        }
    }
}

/// The creation time recorded for an attachment: the clock in milliseconds
/// since the epoch, in decimal (0 when the clock is before 1970).
pub fn now_string() -> (s: String)
    ensures
        exists|ms: u128| s@ == decimal(ms as nat),
{
    let ms = now_millis();
    string_from(decimal_chars(ms).as_slice())
}

/// The path of attachment `id` in `dir`; `Format` for an id that is not
/// clean.
pub fn attachment_file(dir: &str, id: &str) -> (r: Result<String, RuneError>)
    ensures
        clean_id_spec(id@) ==> (r matches Ok(p) && p@ == join_path(dir@, rune_file_name(id@))),
        !clean_id_spec(id@) ==> r == Err::<String, RuneError>(RuneError::Format),
{
    data_file_in(dir, id)
}

/// Seals a new attachment under the vault key: refuses more than
/// `MAX_SIZE` bytes, draws a fresh id, and returns it with the bytes of the
/// data file. Opening that file with the same key gives the attachment
/// back.
pub fn seal_attachment(key: &[u8; 32], bytes: &[u8]) -> (r: Result<(String, Vec<u8>), AttachmentError>)
    ensures
        bytes@.len() > MAX_SIZE <==> r == Err::<(String, Vec<u8>), AttachmentError>(AttachmentError::TooLarge),
        r matches Err(e) ==> e == AttachmentError::TooLarge || e == AttachmentError::Encryption || e == AttachmentError::Random,
        r matches Ok((id, file)) ==> bytes@.len() <= MAX_SIZE && is_uuid_v4_text(id@) && clean_id_spec(id@)
            && open_data_file_spec(key@, file@) == Ok::<Seq<u8>, RuneError>(bytes@),
{
    if bytes.len() > MAX_SIZE {
        return Err(AttachmentError::TooLarge);
    }
    let id = match new_id() {
        Some(id) => id,
        None => return Err(AttachmentError::Random),
    };
    proof {
        assert forall|i: int| 0 <= i < id@.len() implies crate::vault::is_id_char(#[trigger] id@[i]) by {
            assert(crate::codec::uuid_char_ok(i, id@[i]));
        }
    }
    match seal_data_file(key, bytes) {
        Ok(file) => Ok((id, file)),
        Err(_) => Err(AttachmentError::Encryption),
    }
}

/// `data:{mime};base64,{text}`.
pub open spec fn data_url_spec(mime: Seq<char>, bytes: Seq<u8>) -> Seq<char> {
    "data:"@ + mime + ";base64,"@ + base64_text(bytes)
}

/// A `data:` URL holding the attachment, to show it in the page directly.
pub fn data_url(mime: &str, bytes: &[u8]) -> (r: String)
    requires
        bytes@.len() <= usize::MAX / 2,
    ensures
        r@ == data_url_spec(mime@, bytes@),
{
    let b64 = encode_attachment(bytes);
    let mut out: Vec<char> = Vec::new();
    push_chars(&mut out, &['d', 'a', 't', 'a', ':']);
    push_chars(&mut out, chars_of(mime).as_slice());
    push_chars(&mut out, &[';', 'b', 'a', 's', 'e', '6', '4', ',']);
    push_chars(&mut out, chars_of(b64.as_str()).as_slice());
    proof {
        reveal_strlit("data:");
        reveal_strlit(";base64,");
        assert(out@ =~= data_url_spec(mime@, bytes@));
    }
    string_from(out.as_slice())
}

/// The MIME type recorded for attachment `id`: that of the first entry with
/// this id, or `application/octet-stream`.
pub open spec fn mime_of(list: Seq<AttachmentMeta>, id: Seq<char>) -> Seq<char>
    decreases list.len(),
{
    if list.len() == 0 {
        "application/octet-stream"@
    } else if list[0].id@ == id {
        list[0].mime_type@
    } else {
        mime_of(list.drop_first(), id)
    }
}

/// The MIME type of attachment `id` according to the index.
pub fn mime_for(list: &Vec<AttachmentMeta>, id: &str) -> (r: String)
    ensures
        r@ == mime_of(list@, id@),
{
    let mut i: usize = 0;
    assert(list@.subrange(0, list@.len() as int) =~= list@);
    while i < list.len()
        invariant
            i <= list@.len(),
            mime_of(list@.subrange(i as int, list@.len() as int), id@) == mime_of(list@, id@),
        decreases list@.len() - i,
    {
        let ghost rest = list@.subrange(i as int, list@.len() as int);
        assert(rest[0] == list@[i as int]);
        assert(rest.drop_first() =~= list@.subrange(i + 1, list@.len() as int));
        if str_eq(list[i].id.as_str(), id) {
            return list[i].mime_type.clone();
        }
        i = i + 1;
    }
    String::from_str("application/octet-stream")
}

/// A copy of attachment metadata.
pub fn clone_meta(a: &AttachmentMeta) -> (r: AttachmentMeta)
    ensures
        r == *a,
{
    AttachmentMeta {
        id: a.id.clone(),
        original_filename: a.original_filename.clone(),
        mime_type: a.mime_type.clone(),
        size_bytes: a.size_bytes,
        note_id: a.note_id.clone(),
        created_at: a.created_at.clone(),
    }
}

/// The entries of `list` that belong to note `note_id`, in order.
pub open spec fn of_note(list: Seq<AttachmentMeta>, note_id: Seq<char>) -> Seq<AttachmentMeta> {
    list.filter(|a: AttachmentMeta| a.note_id@ == note_id)
}

/// The attachments of a note.
pub fn list_attachments_for_note(list: &Vec<AttachmentMeta>, note_id: &str) -> (r: Vec<AttachmentMeta>)
    ensures
        r@ == of_note(list@, note_id@),
{
    let mut out: Vec<AttachmentMeta> = Vec::new();
    let mut i: usize = 0;
    while i < list.len()
        invariant
            i <= list@.len(),
            out@ == of_note(list@.subrange(0, i as int), note_id@),
        decreases list@.len() - i,
    {
        proof {
            reveal(Seq::filter);
            assert(list@.subrange(0, i + 1).drop_last() =~= list@.subrange(0, i as int));
        }
        if str_eq(list[i].note_id.as_str(), note_id) {
            out.push(clone_meta(&list[i]));
        }
        i = i + 1;
    }
    assert(list@.subrange(0, list@.len() as int) =~= list@);
    out
}

/// Drops the index entries with id `id`; says whether any was dropped.
pub fn remove_attachment_meta(list: &mut Vec<AttachmentMeta>, id: &str) -> (changed: bool)
    ensures
        final(list)@ == old(list)@.filter(|a: AttachmentMeta| a.id@ != id@),
        changed == (final(list)@.len() != old(list)@.len()),
{
    let ghost orig = list@;
    let mut kept: Vec<AttachmentMeta> = Vec::new();
    let n = list.len();
    let mut i: usize = 0;
    while i < n
        invariant
            i <= n == orig.len(),
            list@ == orig,
            kept@ == orig.subrange(0, i as int).filter(|a: AttachmentMeta| a.id@ != id@),
        decreases n - i,
    {
        proof {
            reveal(Seq::filter);
            assert(orig.subrange(0, i + 1).drop_last() =~= orig.subrange(0, i as int));
        }
        if !str_eq(list[i].id.as_str(), id) {
            kept.push(clone_meta(&list[i]));
        }
        i = i + 1;
    }
    assert(orig.subrange(0, n as int) =~= orig);
    let changed = kept.len() != n;
    *list = kept;
    changed
}

/// Splits the index into the entries to keep and the ids of the entries
/// whose note is gone: an entry is kept when its note id is clean and its
/// note file exists (`note_file_exists[i]` for entry `i`).
pub fn split_orphans(list: &Vec<AttachmentMeta>, note_file_exists: &Vec<bool>) -> (r: (Vec<AttachmentMeta>, Vec<String>))
    requires
        note_file_exists@.len() == list@.len(),
    ensures
        r.0@ == keep_of(list@, note_file_exists@),
        crate::text::string_views(r.1@) == orphan_ids(list@, note_file_exists@),
{
    let mut keep: Vec<AttachmentMeta> = Vec::new();
    let mut gone: Vec<String> = Vec::new();
    let mut i: usize = 0;
    while i < list.len()
        invariant
            i <= list@.len() == note_file_exists@.len(),
            keep@ == keep_of(list@.subrange(0, i as int), note_file_exists@.subrange(0, i as int)),
            crate::text::string_views(gone@) == orphan_ids(list@.subrange(0, i as int), note_file_exists@.subrange(0, i as int)),
        decreases list@.len() - i,
    {
        proof {
            assert(list@.subrange(0, i + 1).drop_last() =~= list@.subrange(0, i as int));
            assert(note_file_exists@.subrange(0, i + 1).drop_last() =~= note_file_exists@.subrange(0, i as int));
        }
        let ghost gv = crate::text::string_views(gone@);
        if clean_id(list[i].note_id.as_str()) && note_file_exists[i] {
            keep.push(clone_meta(&list[i]));
        } else {
            gone.push(list[i].id.clone());
            assert(crate::text::string_views(gone@) =~= gv.push(list@[i as int].id@));
        }
        i = i + 1;
    }
    assert(list@.subrange(0, list@.len() as int) =~= list@);
    assert(note_file_exists@.subrange(0, list@.len() as int) =~= note_file_exists@);
    (keep, gone)
}

/// Whether index entry `a` stays: its note id is clean and the note file
/// exists.
pub open spec fn stays(a: AttachmentMeta, exists: bool) -> bool {
    clean_id_spec(a.note_id@) && exists
}

/// The entries that stay, in order.
pub open spec fn keep_of(list: Seq<AttachmentMeta>, exists: Seq<bool>) -> Seq<AttachmentMeta>
    decreases list.len(),
{
    if list.len() == 0 {
        Seq::empty()
    } else {
        let prev = keep_of(list.drop_last(), exists.drop_last());
        if stays(list.last(), exists.last()) {
            prev.push(list.last())
        } else {
            prev
        }
    }
}

/// The ids of the entries that go, in order.
pub open spec fn orphan_ids(list: Seq<AttachmentMeta>, exists: Seq<bool>) -> Seq<Seq<char>>
    decreases list.len(),
{
    if list.len() == 0 {
        Seq::empty()
    } else {
        let prev = orphan_ids(list.drop_last(), exists.drop_last());
        if stays(list.last(), exists.last()) {
            prev
        } else {
            prev.push(list.last().id@)
        }
    }
}

/// Splits the index into the entries of other notes and the ids of the
/// entries of note `note_id` (which go with the note).
pub fn split_note_attachments(list: &Vec<AttachmentMeta>, note_id: &str) -> (r: (Vec<AttachmentMeta>, Vec<String>))
    ensures
        r.0@ == list@.filter(|a: AttachmentMeta| a.note_id@ != note_id@),
        crate::text::string_views(r.1@) == of_note(list@, note_id@).map_values(|a: AttachmentMeta| a.id@),
{
    let mut keep: Vec<AttachmentMeta> = Vec::new();
    let mut gone: Vec<String> = Vec::new();
    let mut i: usize = 0;
    while i < list.len()
        invariant
            i <= list@.len(),
            keep@ == list@.subrange(0, i as int).filter(|a: AttachmentMeta| a.note_id@ != note_id@),
            crate::text::string_views(gone@) == of_note(list@.subrange(0, i as int), note_id@).map_values(
                |a: AttachmentMeta| a.id@,
            ),
        decreases list@.len() - i,
    {
        proof {
            reveal(Seq::filter);
            assert(list@.subrange(0, i + 1).drop_last() =~= list@.subrange(0, i as int));
        }
        let ghost gv = crate::text::string_views(gone@);
        let ghost prev = of_note(list@.subrange(0, i as int), note_id@);
        if str_eq(list[i].note_id.as_str(), note_id) {
            gone.push(list[i].id.clone());
            proof {
                assert(of_note(list@.subrange(0, i + 1), note_id@) =~= prev.push(list@[i as int]));
                assert(crate::text::string_views(gone@) =~= gv.push(list@[i as int].id@));
                assert(of_note(list@.subrange(0, i + 1), note_id@).map_values(|a: AttachmentMeta| a.id@) =~= prev.map_values(
                    |a: AttachmentMeta| a.id@,
                ).push(list@[i as int].id@));
            }
        } else {
            keep.push(clone_meta(&list[i]));
            proof {
                assert(of_note(list@.subrange(0, i + 1), note_id@) =~= prev);
            }
        }
        i = i + 1;
    }
    assert(list@.subrange(0, list@.len() as int) =~= list@);
    (keep, gone)
}

/// Whether `c` is an ASCII letter or digit.
pub open spec fn is_ascii_alnum(c: char) -> bool {
    ('a' <= c <= 'z') || ('A' <= c <= 'Z') || ('0' <= c <= '9')
}

/// `c` with ASCII upper case turned to lower case.
pub open spec fn ascii_lower(c: char) -> char {
    if 'A' <= c <= 'Z' {
        ((c as u32) + 32) as char
    } else {
        c
    }
}

/// The position of the last `.` in `s`.
pub open spec fn last_dot(s: Seq<char>) -> Option<int>
    decreases s.len(),
{
    if s.len() == 0 {
        None
    } else if s.last() == '.' {
        Some(s.len() - 1)
    } else {
        last_dot(s.drop_last())
    }
}

/// The file extension for an attachment: the part of the original name
/// after its last `.`, lower-cased, when it is non-empty ASCII letters and
/// digits; otherwise one chosen from the MIME type (`bin` when unknown).
pub open spec fn ext_for_spec(filename: Seq<char>, mime: Seq<char>) -> Seq<char> {
    let from_name = match last_dot(filename) {
        Some(d) => {
            let ext = filename.subrange(d + 1, filename.len() as int);
            if ext.len() > 0 && forall|k: int| 0 <= k < ext.len() ==> is_ascii_alnum(#[trigger] ext[k]) {
                Some(ext.map_values(|c: char| ascii_lower(c)))
            } else {
                None
            }
        },
        None => None,
    };
    match from_name {
        Some(e) => e,
        None => if mime == "application/pdf"@ {
            "pdf"@
        } else if mime == "image/png"@ {
            "png"@
        } else if mime == "image/jpeg"@ {
            "jpg"@
        } else if mime == "image/gif"@ {
            "gif"@
        } else if mime == "image/webp"@ {
            "webp"@
        } else if mime == "image/svg+xml"@ {
            "svg"@
        } else {
            "bin"@
        },
    }
}

/// The extension of a previewed attachment file (see `ext_for_spec`).
pub fn ext_for(filename: &str, mime: &str) -> (r: String)
    ensures
        r@ == ext_for_spec(filename@, mime@),
{
    let v = chars_of(filename);
    let n = v.len();
    let mut j = n;
    assert(v@.subrange(0, n as int) =~= v@);
    while j > 0 && v[j - 1] != '.'
        invariant
            j <= n == v@.len(),
            last_dot(v@.subrange(0, j as int)) == last_dot(v@),
        decreases j,
    {
        assert(v@.subrange(0, j as int).drop_last() =~= v@.subrange(0, j - 1));
        j = j - 1;
    }
    if j > 0 {
        assert(last_dot(v@.subrange(0, j as int)) == Some(j - 1));
        let ghost ext = v@.subrange(j as int, n as int);
        let mut ok = j < n;
        let mut out: Vec<char> = Vec::new();
        let mut k = j;
        while k < n
            invariant
                j <= k <= n == v@.len(),
                ext == v@.subrange(j as int, n as int),
                ok == (j < n && forall|t: int| 0 <= t < k - j ==> is_ascii_alnum(#[trigger] ext[t])),
                out@ == ext.subrange(0, k - j).map_values(|c: char| ascii_lower(c)),
            decreases n - k,
        {
            let c = v[k];
            let alnum = ('a' <= c && c <= 'z') || ('A' <= c && c <= 'Z') || ('0' <= c && c <= '9');
            if !alnum {
                ok = false;
            }
            let lc = if 'A' <= c && c <= 'Z' {
                let code = (c as u32) + 32;
                (code as u8) as char
            } else {
                c
            };
            out.push(lc);
            proof {
                assert(ext[k - j] == c);
                assert(out@ =~= ext.subrange(0, k + 1 - j).map_values(|c: char| ascii_lower(c)));
            }
            k = k + 1;
        }
        if ok {
            assert(ext.subrange(0, n - j) =~= ext);
            return string_from(out.as_slice());
        }
    }
    let r = if str_eq(mime, "application/pdf") {
        "pdf"
    } else if str_eq(mime, "image/png") {
        "png"
    } else if str_eq(mime, "image/jpeg") {
        "jpg"
    } else if str_eq(mime, "image/gif") {
        "gif"
    } else if str_eq(mime, "image/webp") {
        "webp"
    } else if str_eq(mime, "image/svg+xml") {
        "svg"
    } else {
        "bin"
    };
    String::from_str(r)
}

} // verus!
