//! Notes: file names, search snippets, `[[wikilinks]]`, backlinks and the
//! note graph. The notes themselves are read and decrypted by the caller;
//! everything here works on their plain contents.

use vstd::prelude::*;
use crate::models::{RuneError, EncryptedFile, NONCE_LEN};
use crate::crypto::{build_data_file, open_data_file, data_file_bytes, open_data_file_spec, view_result, aes_gcm_open_bytes};
use crate::text::{
    chars_of, string_from, trim, trim_end, trim_range, chars_range, find_from, first_match,
    is_ws, push_chars, esc_html_spec, esc_html, lowercase, to_lowercase, occurs_at,
    lemma_first_match_occurs, string_views, contains_text, contains_chars, trim_lower, str_eq,
};
use crate::vault::is_id_char;
use crate::order::{is_stable_sort, key_views, lemma_keyed_sort, sort_by_keys};

verus! {

/// A whole note.
pub struct NoteData {
    pub id: String,
    pub title: String,
    pub content: String,
    pub tags: Vec<String>,
    pub folder_id: Option<String>,
    pub pinned: bool,
    pub created_at: String,
    pub updated_at: String,
}

/// A note without its content (for the sidebar list).
pub struct NoteMetadata {
    pub id: String,
    pub title: String,
    pub tags: Vec<String>,
    pub folder_id: Option<String>,
    pub pinned: bool,
    pub created_at: String,
    pub updated_at: String,
}

/// A search result: metadata and a snippet of the content.
pub struct SearchHit {
    pub id: String,
    pub title: String,
    pub tags: Vec<String>,
    pub folder_id: Option<String>,
    pub pinned: bool,
    pub created_at: String,
    pub updated_at: String,
    pub snippet: String,
}

/// A note linking to a given one, with the line that holds the link.
pub struct BacklinkHit {
    pub id: String,
    pub title: String,
    pub folder_id: Option<String>,
    pub pinned: bool,
    pub context: String,
}

/// A node of the note graph.
pub struct GraphNode {
    pub id: String,
    pub title: String,
    pub folder_id: Option<String>,
}

/// An edge of the note graph: a `[[wikilink]]` from one note to another.
pub struct GraphEdge {
    pub source: String,
    pub target: String,
}

/// The note graph.
pub struct GraphData {
    pub nodes: Vec<GraphNode>,
    pub edges: Vec<GraphEdge>,
}

// ── Ids and file names ──────────────────────────────────────────────────────

/// A "clean" id: 1 to 128 characters, each ASCII alphanumeric, `-` or `_`.
/// Ids come from the frontend and name files, so nothing else may pass.
pub open spec fn clean_id_spec(id: Seq<char>) -> bool {
    &&& 0 < id.len() <= 128
    &&& forall|i: int| 0 <= i < id.len() ==> is_id_char(#[trigger] id[i])
}

/// Whether `id` is clean (see `clean_id_spec`).
pub fn clean_id(id: &str) -> (b: bool)
    ensures
        b == clean_id_spec(id@),
{
    let v = chars_of(id);
    if v.len() == 0 || v.len() > 128 {
        return false;
    }
    let mut i: usize = 0;
    while i < v.len()
        invariant
            i <= v@.len(),
            v@ == id@,
            forall|k: int| 0 <= k < i ==> is_id_char(#[trigger] v@[k]),
        decreases v@.len() - i,
    {
        let c = v[i];
        if !(('a' <= c && c <= 'z') || ('A' <= c && c <= 'Z') || ('0' <= c && c <= '9') || c == '-'
            || c == '_') {
            return false;
        }
        i = i + 1;
    }
    true
}

/// `{id}.rune`.
pub open spec fn rune_file_name(id: Seq<char>) -> Seq<char> {
    id + seq!['.', 'r', 'u', 'n', 'e']
}

/// `dir` joined with `name` by `/` (no separator is added to an empty
/// directory or one that already ends with `/`).
pub open spec fn join_path(dir: Seq<char>, name: Seq<char>) -> Seq<char> {
    if dir.len() == 0 {
        name
    } else if dir.last() == '/' {
        dir + name
    } else {
        dir + seq!['/'] + name
    }
}

/// The path of the data file `{id}.rune` in `dir`, refused (`Format`) when
/// the id is not clean: it comes from the frontend, and must not leave the
/// directory.
pub fn data_file_in(dir: &str, id: &str) -> (r: Result<String, RuneError>)
    ensures
        clean_id_spec(id@) ==> (r matches Ok(p) && p@ == join_path(dir@, rune_file_name(id@))),
        !clean_id_spec(id@) ==> r == Err::<String, RuneError>(RuneError::Format),
{
    if !clean_id(id) {
        return Err(RuneError::Format);
    }
    let mut out = chars_of(dir);
    let n = out.len();
    if n > 0 && out[n - 1] != '/' {
        out.push('/');
    }
    let name = chars_of(id);
    push_chars(&mut out, name.as_slice());
    push_chars(&mut out, &['.', 'r', 'u', 'n', 'e']);
    proof {
        assert(out@ =~= join_path(dir@, rune_file_name(id@)));
    }
    Ok(string_from(out.as_slice()))
}

/// The path of note `id` in the notes directory `dir` (see `data_file_in`).
pub fn note_path_in(dir: &str, id: &str) -> (r: Result<String, RuneError>)
    ensures
        clean_id_spec(id@) ==> (r matches Ok(p) && p@ == join_path(dir@, rune_file_name(id@))),
        !clean_id_spec(id@) ==> r == Err::<String, RuneError>(RuneError::Format),
{
    data_file_in(dir, id)
}

// ── Note files ──────────────────────────────────────────────────────────────

/// The bytes of a note file: `[12 nonce][ciphertext]` (the vault key seals
/// notes, so no salt is stored).
pub fn build_note_file(enc: &EncryptedFile) -> (out: Vec<u8>)
    ensures
        out@ == data_file_bytes(enc.nonce@, enc.ciphertext@),
{
    build_data_file(enc)
}

/// Opens the bytes of a note file: `Format` below 28 bytes, `Crypto` when
/// they do not authenticate under `key`; otherwise the note's serialised
/// form.
pub fn decrypt_note_file(key: &[u8; 32], data: &[u8]) -> (r: Result<Vec<u8>, RuneError>)
    ensures
        view_result(r) == open_data_file_spec(key@, data@),
{
    open_data_file(key, data)
}

/// A note file reads back: the file laid out from a sealed note opens, under
/// the key that sealed it, to the note's bytes.
pub proof fn lemma_note_file_round_trip(key: Seq<u8>, nonce: Seq<u8>, ciphertext: Seq<u8>, plaintext: Seq<u8>)
    requires
        nonce.len() == 12,
        ciphertext.len() == plaintext.len() + 16,
        aes_gcm_open_bytes(key, nonce, ciphertext) == Some(plaintext),
    ensures
        data_file_bytes(nonce, ciphertext).subrange(0, 12) == nonce,
        data_file_bytes(nonce, ciphertext).len() == plaintext.len() + 28,
        open_data_file_spec(key, data_file_bytes(nonce, ciphertext)) == Ok::<Seq<u8>, RuneError>(plaintext),
{
    let data = data_file_bytes(nonce, ciphertext);
    assert(data.subrange(0, 12) =~= nonce);
    assert(data.subrange(12, data.len() as int) =~= ciphertext);
}

// ── Snippets ────────────────────────────────────────────────────────────────

/// The ellipsis `…` put where a snippet was cut.
pub const ELLIPSIS: char = '\u{2026}';

/// Newlines, carriage returns and tabs turned into spaces.
pub open spec fn flatten_ws(s: Seq<char>) -> Seq<char> {
    Seq::new(s.len(), |i: int| if s[i] == '\n' || s[i] == '\r' || s[i] == '\t' { ' ' } else { s[i] })
}

/// The first `n` characters of `s` (all of it when shorter).
pub open spec fn take_chars(s: Seq<char>, n: int) -> Seq<char> {
    if n < s.len() { s.subrange(0, n) } else { s }
}

/// The start of the content as a preview: the first `width` characters,
/// flattened to one line and trimmed, with `…` when the content is longer.
#[verifier::opaque]
pub open spec fn leading_snippet_spec(content: Seq<char>, width: int) -> Seq<char> {
    let body = trim(flatten_ws(take_chars(content, width)));
    if content.len() > width { body.push(ELLIPSIS) } else { body }
}

/// Copies `v[from..to]` flattened to one line and trimmed.
fn flat_trimmed(v: &[char], from: usize, to: usize) -> (r: Vec<char>)
    requires
        from <= to <= v@.len(),
    ensures
        r@ == trim(flatten_ws(v@.subrange(from as int, to as int))),
{
    let mut flat: Vec<char> = Vec::new();
    let mut k = from;
    while k < to
        invariant
            from <= k <= to <= v@.len(),
            flat@ == flatten_ws(v@.subrange(from as int, k as int)),
        decreases to - k,
    {
        let c = v[k];
        if c == '\n' || c == '\r' || c == '\t' {
            flat.push(' ');
        } else {
            flat.push(c);
        }
        k = k + 1;
        assert(flat@ =~= flatten_ws(v@.subrange(from as int, k as int)));
    }
    let (a, b) = trim_range(flat.as_slice(), 0, flat.len());
    assert(flat@.subrange(0, flat@.len() as int) =~= flat@);
    chars_range(flat.as_slice(), a, b)
}

/// Start of the content as a preview (used when the match was in the title
/// or the tags).
pub fn leading_snippet(content: &str, width: usize) -> (s: String)
    ensures
        s@ == leading_snippet_spec(content@, width as int),
{
    let v = chars_of(content);
    let total = v.len();
    let take = if width < total { width } else { total };
    let mut body = flat_trimmed(v.as_slice(), 0, take);
    assert(v@.subrange(0, total as int) =~= v@);
    if total > width {
        body.push(ELLIPSIS);
    }
    proof {
        reveal(leading_snippet_spec);
    }
    string_from(body.as_slice())
}

/// `content[start..end]` flattened and trimmed, with `…` on each side that
/// was cut (an empty window leaves the body empty).
#[verifier::opaque]
pub open spec fn window_snippet(content: Seq<char>, start: int, end: int) -> Seq<char> {
    let body = trim(flatten_ws(if start < end { content.subrange(start, end) } else { Seq::empty() }));
    (if start > 0 { seq![ELLIPSIS] } else { Seq::empty() }) + body + (if end < content.len() { seq![ELLIPSIS] } else { Seq::empty() })
}

/// A snippet around the first match of `q` in the lower-cased content:
/// `width / 2` characters on each side of the match (positions taken from
/// the lower-cased text, characters from the original), flattened and
/// trimmed, with `…` on each side that was cut. Without a match, the
/// leading snippet.
pub open spec fn snippet_around_spec(content: Seq<char>, lower: Seq<char>, q: Seq<char>, width: int) -> Seq<char> {
    match first_match(lower, q) {
        None => leading_snippet_spec(content, width),
        Some(p) => {
            let total = content.len() as int;
            let half = width / 2;
            let start = if p >= half { p - half } else { 0 };
            let end = if p + q.len() + half < total { p + q.len() + half } else { total };
            window_snippet(content, start, end)
        },
    }
}

/// Builds `window_snippet(v, start, end)`.
fn window(v: &[char], start: usize, end: usize) -> (r: Vec<char>)
    requires
        end <= v@.len(),
    ensures
        r@ == window_snippet(v@, start as int, end as int),
{
    let mut out: Vec<char> = Vec::new();
    if start > 0 {
        out.push(ELLIPSIS);
    }
    let body = if start < end {
        flat_trimmed(v, start, end)
    } else {
        proof {
            assert(flatten_ws(Seq::<char>::empty()) =~= Seq::<char>::empty());
            assert(trim(Seq::<char>::empty()) == Seq::<char>::empty());
        }
        Vec::new()
    };
    push_chars(&mut out, body.as_slice());
    if end < v.len() {
        out.push(ELLIPSIS);
    }
    proof {
        reveal(window_snippet);
        assert(out@ =~= window_snippet(v@, start as int, end as int));
    }
    out
}

/// Snippet of the content around the first match (see `snippet_around_spec`).
/// Counts characters, so it never cuts inside a UTF-8 sequence.
pub fn snippet_around(content: &str, content_lower: &str, q: &str, width: usize) -> (s: String)
    ensures
        s@ == snippet_around_spec(content@, content_lower@, q@, width as int),
{
    let lower = chars_of(content_lower);
    let needle = chars_of(q);
    assert(lower@.subrange(0, lower@.len() as int) =~= lower@);
    let found = find_from(lower.as_slice(), needle.as_slice(), 0);
    assert(first_match(lower@, needle@) == first_match(lower@.subrange(0, lower@.len() as int), needle@));
    match found {
        None => {
            assert(first_match(content_lower@, q@) is None);
            assert(snippet_around_spec(content@, content_lower@, q@, width as int) == leading_snippet_spec(content@, width as int));
            leading_snippet(content, width)
        },
        Some(p) => {
            let n = lower.len();
            assert(p + needle@.len() <= n);
            let v = chars_of(content);
            let total = v.len();
            let half = width / 2;
            let start = if p >= half { p - half } else { 0 };
            let matched_end = p + needle.len();
            let end = if matched_end < total && half < total - matched_end {
                matched_end + half
            } else {
                total
            };
            let out = window(v.as_slice(), start, end);
            string_from(out.as_slice())
        },
    }
}

/// The context line of a backlink: trimmed, and cut to `width` characters
/// (trimmed again at the cut) with `…` when longer.
pub open spec fn trim_context_spec(line: Seq<char>, width: int) -> Seq<char> {
    let l = trim(line);
    if l.len() <= width {
        l
    } else {
        trim_end(l.subrange(0, width)).push(ELLIPSIS)
    }
}

/// Context line around a link, cut to a reasonable length.
pub fn trim_context(line: &str, width: usize) -> (s: String)
    ensures
        s@ == trim_context_spec(line@, width as int),
{
    let v = chars_of(line);
    let (a, b) = trim_range(v.as_slice(), 0, v.len());
    assert(v@.subrange(0, v@.len() as int) =~= v@);
    if b - a <= width {
        return string_from(chars_range(v.as_slice(), a, b).as_slice());
    }
    let l = chars_range(v.as_slice(), a, b);
    let (a2, b2) = trim_range(l.as_slice(), 0, width);
    proof {
        lemma_trim_end_of_start_clean(l@.subrange(0, width as int));
    }
    let mut out = chars_range(l.as_slice(), a2, b2);
    out.push(ELLIPSIS);
    string_from(out.as_slice())
}

/// Trimming a text that starts with a non-space character only trims its
/// end.
proof fn lemma_trim_end_of_start_clean(s: Seq<char>)
    requires
        s.len() > 0 ==> !is_ws(s[0]),
    ensures
        trim(s) == trim_end(s),
{
}

// ── Wikilinks ───────────────────────────────────────────────────────────────

/// The titles of the `[[wikilinks]]` in `s`, in order: after each `[[`, up
/// to the next `]]`, trimmed; empty titles are dropped, and an unclosed
/// `[[` ends the scan.
pub open spec fn wikilinks(s: Seq<char>) -> Seq<Seq<char>>
    decreases s.len(),
{
    match first_match(s, seq!['[', '[']) {
        None => Seq::empty(),
        Some(i) => {
            proof {
                lemma_first_match_occurs(s, seq!['[', '[']);
            }
            let after = s.subrange(i + 2, s.len() as int);
            match first_match(after, seq![']', ']']) {
                None => Seq::empty(),
                Some(e) => {
                    proof {
                        lemma_first_match_occurs(after, seq![']', ']']);
                    }
                    let title = trim(after.subrange(0, e));
                    let rest = after.subrange(e + 2, after.len() as int);
                    (if title.len() > 0 { seq![title] } else { Seq::empty() }) + wikilinks(rest)
                },
            }
        },
    }
}

/// The titles of the `[[wikilinks]]` in `content`.
pub fn extract_wikilink_titles(content: &str) -> (r: Vec<String>)
    ensures
        string_views(r@) == wikilinks(content@),
{
    let v = chars_of(content);
    let open: [char; 2] = ['[', '['];
    let close: [char; 2] = [']', ']'];
    assert(open@ =~= seq!['[', '[']);
    assert(close@ =~= seq![']', ']']);
    let mut out: Vec<String> = Vec::new();
    let mut pos: usize = 0;
    let n = v.len();
    assert(v@.subrange(0, v@.len() as int) =~= v@);
    assert(string_views(out@) + wikilinks(content@) =~= wikilinks(content@));
    loop
        invariant
            pos <= v@.len(),
            n == v@.len(),
            v@ == content@,
            open@ == seq!['[', '['],
            close@ == seq![']', ']'],
            string_views(out@) + wikilinks(v@.subrange(pos as int, v@.len() as int)) == wikilinks(content@),
        ensures
            string_views(out@) == wikilinks(content@),
        decreases v@.len() - pos,
    {
        let ghost s = v@.subrange(pos as int, v@.len() as int);
        let found = find_from(v.as_slice(), open.as_slice(), pos);
        let start = match found {
            None => {
                assert(wikilinks(s) == Seq::<Seq<char>>::empty());
                assert(string_views(out@) + Seq::<Seq<char>>::empty() =~= string_views(out@));
                break;
            },
            Some(start) => start,
        };
        proof {
            lemma_first_match_occurs(s, open@);
            assert(occurs_at(v@, open@, start as int));
        }
        let ghost after = s.subrange(start + 2 - pos, s.len() as int);
        assert(after =~= v@.subrange(start + 2, v@.len() as int));
        let closing = find_from(v.as_slice(), close.as_slice(), start + 2);
        let end = match closing {
            None => {
                assert(wikilinks(s) == Seq::<Seq<char>>::empty());
                assert(string_views(out@) + Seq::<Seq<char>>::empty() =~= string_views(out@));
                break;
            },
            Some(end) => end,
        };
        proof {
            lemma_first_match_occurs(after, close@);
            assert(occurs_at(v@, close@, end as int));
        }
        let ghost e = end - (start + 2);
        assert(after.subrange(0, e) =~= v@.subrange(start + 2, end as int));
        assert(after.subrange(e + 2, after.len() as int) =~= v@.subrange(end + 2, v@.len() as int));
        let (a, b) = trim_range(v.as_slice(), start + 2, end);
        let ghost before = string_views(out@);
        if a < b {
            let t = chars_range(v.as_slice(), a, b);
            out.push(string_from(t.as_slice()));
            assert(string_views(out@) =~= before + seq![v@.subrange(a as int, b as int)]);
        }
        proof {
            let title = trim(after.subrange(0, e));
            let rest = after.subrange(e + 2, after.len() as int);
            assert(wikilinks(s) == (if title.len() > 0 { seq![title] } else { Seq::<Seq<char>>::empty() }) + wikilinks(rest));
            if a < b {
                assert(string_views(out@) + wikilinks(rest) =~= before + (seq![title] + wikilinks(rest)));
            } else {
                assert(string_views(out@) + wikilinks(rest) =~= before + (Seq::<Seq<char>>::empty() + wikilinks(rest)));
            }
        }
        pos = end + 2;
    }
    out
}

// ── Search and listing ──────────────────────────────────────────────────────

/// Whether note `n` matches the search key `q` (already trimmed and
/// lower-cased): in its title, one of its tags or its content, ignoring
/// case.
pub open spec fn search_match(n: NoteData, q: Seq<char>) -> bool {
    ||| contains_text(lowercase(n.title@), q)
    ||| exists|k: int| 0 <= k < n.tags@.len() && contains_text(lowercase(#[trigger] n.tags@[k]@), q)
    ||| contains_text(lowercase(n.content@), q)
}

/// The snippet of a search hit, escaped for HTML: around the first match
/// in the content, or the start of the content when the match was only in
/// the title or the tags.
pub open spec fn search_snippet(n: NoteData, q: Seq<char>) -> Seq<char> {
    let lower = lowercase(n.content@);
    esc_html_spec(
        if contains_text(lower, q) {
            snippet_around_spec(n.content@, lower, q, 80)
        } else {
            leading_snippet_spec(n.content@, 80)
        },
    )
}

/// `h` is the search hit of note `n` for `q`.
pub open spec fn is_search_hit(h: SearchHit, n: NoteData, q: Seq<char>) -> bool {
    &&& h.id == n.id
    &&& h.title == n.title
    &&& h.tags@ == n.tags@
    &&& h.folder_id == n.folder_id
    &&& h.pinned == n.pinned
    &&& h.created_at == n.created_at
    &&& h.updated_at == n.updated_at
    &&& h.snippet@ == search_snippet(n, q)
}

/// `hits` are the search hits of the matching `notes`, in note order.
pub open spec fn collected_hits(hits: Seq<SearchHit>, notes: Seq<NoteData>, q: Seq<char>) -> bool
    decreases notes.len(),
{
    if notes.len() == 0 {
        hits.len() == 0
    } else if search_match(notes.last(), q) {
        hits.len() > 0 && is_search_hit(hits.last(), notes.last(), q) && collected_hits(
            hits.drop_last(),
            notes.drop_last(),
            q,
        )
    } else {
        collected_hits(hits, notes.drop_last(), q)
    }
}

/// A copy of a list of strings.
pub fn clone_strings(v: &Vec<String>) -> (r: Vec<String>)
    ensures
        r@ == v@,
{
    let mut out: Vec<String> = Vec::new();
    let mut k: usize = 0;
    while k < v.len()
        invariant
            k <= v@.len(),
            out@ == v@.subrange(0, k as int),
        decreases v@.len() - k,
    {
        out.push(v[k].clone());
        k = k + 1;
    }
    assert(v@.subrange(0, v@.len() as int) =~= v@);
    out
}

/// Whether one of `tags` contains `q` (ignoring case).
fn tag_matches(tags: &Vec<String>, q: &[char]) -> (b: bool)
    ensures
        b == exists|k: int| 0 <= k < tags@.len() && contains_text(lowercase(#[trigger] tags@[k]@), q@),
{
    let mut k: usize = 0;
    while k < tags.len()
        invariant
            k <= tags@.len(),
            forall|j: int| 0 <= j < k ==> !contains_text(lowercase(#[trigger] tags@[j]@), q@),
        decreases tags@.len() - k,
    {
        let lower = chars_of(to_lowercase(tags[k].as_str()).as_str());
        if contains_chars(lower.as_slice(), q) {
            return true;
        }
        k = k + 1;
    }
    false
}

/// The search hit of one note, if it matches `q`.
fn search_hit_of(n: &NoteData, q: &str) -> (r: Option<SearchHit>)
    ensures
        search_match(*n, q@) ==> r is Some && is_search_hit(r->0, *n, q@),
        !search_match(*n, q@) ==> r is None,
{
    let needle = chars_of(q);
    let title_lower = chars_of(to_lowercase(n.title.as_str()).as_str());
    let title_match = contains_chars(title_lower.as_slice(), needle.as_slice());
    let tag_match = tag_matches(&n.tags, needle.as_slice());
    let content_lower = to_lowercase(n.content.as_str());
    let lower_chars = chars_of(content_lower.as_str());
    let content_match = contains_chars(lower_chars.as_slice(), needle.as_slice());
    if !(title_match || tag_match || content_match) {
        return None;
    }
    let snippet = if content_match {
        snippet_around(n.content.as_str(), content_lower.as_str(), q, 80)
    } else {
        leading_snippet(n.content.as_str(), 80)
    };
    Some(SearchHit {
        id: n.id.clone(),
        title: n.title.clone(),
        tags: clone_strings(&n.tags),
        folder_id: clone_opt(&n.folder_id),
        pinned: n.pinned,
        created_at: n.created_at.clone(),
        updated_at: n.updated_at.clone(),
        snippet: esc_html(snippet.as_str()),
    })
}

/// The sort key of search hits and note listings: the last update time.
pub open spec fn hit_sort_key(h: SearchHit) -> Seq<char> {
    h.updated_at@
}

/// Full-text search by scanning the notes: the notes whose title, tags or
/// content contain the trimmed query (ignoring case), each with a snippet,
/// newest (by `updated_at`) first. A blank query finds nothing.
pub fn search_notes(notes: &Vec<NoteData>, query: &str) -> (r: Vec<SearchHit>)
    ensures
        title_key(query@).len() == 0 ==> r@.len() == 0,
        title_key(query@).len() > 0 ==> exists|u: Seq<SearchHit>|
            collected_hits(u, notes@, title_key(query@))
                && is_stable_sort(r@, u, |h: SearchHit| hit_sort_key(h), true),
{
    let q = trim_lower(query);
    if q.as_str().is_empty() {
        return Vec::new();
    }
    let mut hits: Vec<SearchHit> = Vec::new();
    let mut keys: Vec<Vec<char>> = Vec::new();
    let mut i: usize = 0;
    while i < notes.len()
        invariant
            i <= notes@.len(),
            q@ == title_key(query@),
            hits@.len() == keys@.len(),
            collected_hits(hits@, notes@.subrange(0, i as int), q@),
            key_views(keys@) == hits@.map_values(|h: SearchHit| hit_sort_key(h)),
        decreases notes@.len() - i,
    {
        let ghost before = hits@;
        let found = search_hit_of(&notes[i], q.as_str());
        proof {
            let pre = notes@.subrange(0, i + 1);
            assert(pre.drop_last() =~= notes@.subrange(0, i as int));
            assert(pre.last() == notes@[i as int]);
        }
        match found {
            None => {},
            Some(h) => {
                let k = chars_of(h.updated_at.as_str());
                let ghost old_keys = keys@;
                let ghost hk = hit_sort_key(h);
                hits.push(h);
                keys.push(k);
                proof {
                    assert(hits@.drop_last() =~= before);
                    assert(key_views(keys@) =~= key_views(old_keys).push(hk));
                    assert(hits@.map_values(|h: SearchHit| hit_sort_key(h)) =~= before.map_values(
                        |h: SearchHit| hit_sort_key(h),
                    ).push(hk));
                }
            },
        }
        i = i + 1;
    }
    proof {
        assert(notes@.subrange(0, notes@.len() as int) =~= notes@);
    }
    let ghost u = hits@;
    let r = sort_by_keys(hits, keys, true);
    proof {
        lemma_keyed_sort(r@, u, key_views(keys@), |h: SearchHit| hit_sort_key(h), true);
    }
    r
}

/// `m` is the metadata of note `n`.
pub open spec fn is_metadata_of(m: NoteMetadata, n: NoteData) -> bool {
    &&& m.id == n.id
    &&& m.title == n.title
    &&& m.tags@ == n.tags@
    &&& m.folder_id == n.folder_id
    &&& m.pinned == n.pinned
    &&& m.created_at == n.created_at
    &&& m.updated_at == n.updated_at
}

/// The metadata of a note (everything but its content).
pub fn metadata_of(n: &NoteData) -> (m: NoteMetadata)
    ensures
        is_metadata_of(m, *n),
{
    NoteMetadata {
        id: n.id.clone(),
        title: n.title.clone(),
        tags: clone_strings(&n.tags),
        folder_id: clone_opt(&n.folder_id),
        pinned: n.pinned,
        created_at: n.created_at.clone(),
        updated_at: n.updated_at.clone(),
    }
}

/// `u` holds the metadata of each of `notes`, in order.
pub open spec fn metadata_list(u: Seq<NoteMetadata>, notes: Seq<NoteData>) -> bool {
    u.len() == notes.len() && forall|k: int| 0 <= k < u.len() ==> is_metadata_of(#[trigger] u[k], notes[k])
}

/// The sort key of a listing entry.
pub open spec fn metadata_sort_key(m: NoteMetadata) -> Seq<char> {
    m.updated_at@
}

/// The sidebar list: the metadata of every note, newest (by `updated_at`)
/// first.
pub fn list_notes(notes: &Vec<NoteData>) -> (r: Vec<NoteMetadata>)
    ensures
        exists|u: Seq<NoteMetadata>|
            metadata_list(u, notes@) && is_stable_sort(r@, u, |m: NoteMetadata| metadata_sort_key(m), true),
{
    let mut items: Vec<NoteMetadata> = Vec::new();
    let mut keys: Vec<Vec<char>> = Vec::new();
    let mut i: usize = 0;
    while i < notes.len()
        invariant
            i <= notes@.len(),
            items@.len() == keys@.len() == i,
            forall|k: int| 0 <= k < i ==> is_metadata_of(#[trigger] items@[k], notes@[k]),
            key_views(keys@) == items@.map_values(|m: NoteMetadata| metadata_sort_key(m)),
        decreases notes@.len() - i,
    {
        let m = metadata_of(&notes[i]);
        let k = chars_of(m.updated_at.as_str());
        let ghost old_keys = keys@;
        let ghost old_items = items@;
        let ghost mk = metadata_sort_key(m);
        items.push(m);
        keys.push(k);
        proof {
            assert(key_views(keys@) =~= key_views(old_keys).push(mk));
            assert(items@.map_values(|m: NoteMetadata| metadata_sort_key(m)) =~= old_items.map_values(
                |m: NoteMetadata| metadata_sort_key(m),
            ).push(mk));
        }
        i = i + 1;
    }
    let ghost u = items@;
    let r = sort_by_keys(items, keys, true);
    proof {
        lemma_keyed_sort(r@, u, key_views(keys@), |m: NoteMetadata| metadata_sort_key(m), true);
        assert(metadata_list(u, notes@));
    }
    r
}

// ── Lines and backlinks ─────────────────────────────────────────────────────

/// A line without the `\r` of a `\r\n` ending.
pub open spec fn strip_cr(line: Seq<char>) -> Seq<char> {
    if line.len() > 0 && line.last() == '\r' {
        line.drop_last()
    } else {
        line
    }
}

/// The lines of `s` as `str::lines` gives them: split at `\n`, a `\r`
/// before the `\n` dropped, and no empty line after a final `\n`.
pub open spec fn lines_of(s: Seq<char>) -> Seq<Seq<char>>
    decreases s.len(),
{
    if s.len() == 0 {
        Seq::empty()
    } else {
        match first_match(s, seq!['\n']) {
            None => seq![s],
            Some(i) => {
                proof {
                    lemma_first_match_occurs(s, seq!['\n']);
                }
                seq![strip_cr(s.subrange(0, i))] + lines_of(s.subrange(i + 1, s.len() as int))
            },
        }
    }
}

/// A text has at most as many lines as characters.
pub proof fn lemma_lines_len(s: Seq<char>)
    ensures
        lines_of(s).len() <= s.len(),
    decreases s.len(),
{
    if s.len() > 0 {
        lemma_first_match_occurs(s, seq!['\n']);
        match first_match(s, seq!['\n']) {
            None => {},
            Some(i) => {
                lemma_lines_len(s.subrange(i + 1, s.len() as int));
            },
        }
    }
}

/// The lines of `content` (as `str::lines`).
pub fn split_lines(content: &str) -> (r: Vec<String>)
    ensures
        string_views(r@) == lines_of(content@),
{
    let v = chars_of(content);
    let n = v.len();
    let nl: [char; 1] = ['\n'];
    assert(nl@ =~= seq!['\n']);
    let mut out: Vec<String> = Vec::new();
    let mut pos: usize = 0;
    assert(v@.subrange(0, n as int) =~= v@);
    assert(string_views(out@) + lines_of(content@) =~= lines_of(content@));
    while pos < n
        invariant
            pos <= n == v@.len(),
            v@ == content@,
            nl@ == seq!['\n'],
            string_views(out@) + lines_of(v@.subrange(pos as int, n as int)) == lines_of(content@),
        decreases n - pos,
    {
        let ghost s = v@.subrange(pos as int, n as int);
        let found = find_from(v.as_slice(), nl.as_slice(), pos);
        let (line_end, next) = match found {
            None => (n, n),
            Some(i) => {
                proof {
                    lemma_first_match_occurs(s, nl@);
                }
                (i, i + 1)
            },
        };
        let stop = if line_end > pos && next > line_end && v[line_end - 1] == '\r' {
            line_end - 1
        } else {
            line_end
        };
        let line = string_from(chars_range(v.as_slice(), pos, stop).as_slice());
        let ghost before = string_views(out@);
        proof {
            let rest = v@.subrange(next as int, n as int);
            if found is Some {
                assert(s.subrange(0, line_end - pos) =~= v@.subrange(pos as int, line_end as int));
                assert(s.subrange(line_end - pos + 1, s.len() as int) =~= rest);
                assert(line@ =~= strip_cr(v@.subrange(pos as int, line_end as int)));
                assert(lines_of(s) == seq![line@] + lines_of(rest));
            } else {
                assert(line@ =~= s);
                assert(lines_of(s) == seq![line@]);
                assert(rest.len() == 0);
                assert(lines_of(s) == seq![line@] + lines_of(rest));
            }
        }
        out.push(line);
        proof {
            let rest = v@.subrange(next as int, n as int);
            assert(string_views(out@) =~= before.push(line@));
            assert(string_views(out@) + lines_of(rest) =~= before + (seq![line@] + lines_of(rest)));
        }
        pos = next;
    }
    proof {
        assert(lines_of(v@.subrange(pos as int, n as int)) == Seq::<Seq<char>>::empty());
        assert(string_views(out@) + Seq::<Seq<char>>::empty() =~= string_views(out@));
    }
    out
}

/// The key a title is matched by: trimmed and lower-cased.
pub open spec fn title_key(t: Seq<char>) -> Seq<char> {
    lowercase(trim(t))
}

/// Whether one of the wikilinks of `line` names `target` (a title key).
pub open spec fn links_to(line: Seq<char>, target: Seq<char>) -> bool {
    exists|k: int| 0 <= k < wikilinks(line).len() && title_key(#[trigger] wikilinks(line)[k]) == target
}

/// The first of `lines` that links to `target`.
pub open spec fn first_linking_line(lines: Seq<Seq<char>>, target: Seq<char>) -> Option<Seq<char>>
    decreases lines.len(),
{
    if lines.len() == 0 {
        None
    } else if links_to(lines[0], target) {
        Some(lines[0])
    } else {
        first_linking_line(lines.drop_first(), target)
    }
}

/// Whether one of `links` names `target`.
fn names_target(links: &Vec<String>, target: &str) -> (b: bool)
    ensures
        b == exists|k: int| 0 <= k < links@.len() && title_key(#[trigger] links@[k]@) == target@,
{
    let mut k: usize = 0;
    while k < links.len()
        invariant
            k <= links@.len(),
            forall|j: int| 0 <= j < k ==> title_key(#[trigger] links@[j]@) != target@,
        decreases links@.len() - k,
    {
        let key = trim_lower(links[k].as_str());
        if str_eq(key.as_str(), target) {
            return true;
        }
        k = k + 1;
    }
    false
}

/// The first line of `content` that links to `target` (a title key).
pub fn linking_line(content: &str, target: &str) -> (r: Option<String>)
    ensures
        match first_linking_line(lines_of(content@), target@) {
            None => r is None,
            Some(l) => r is Some && r->0@ == l,
        },
{
    let v = chars_of(content);
    let n = v.len();
    let nl: [char; 1] = ['\n'];
    assert(nl@ =~= seq!['\n']);
    let mut pos: usize = 0;
    assert(v@.subrange(0, n as int) =~= v@);
    while pos < n
        invariant
            pos <= n == v@.len(),
            v@ == content@,
            nl@ == seq!['\n'],
            first_linking_line(lines_of(v@.subrange(pos as int, n as int)), target@) == first_linking_line(lines_of(content@), target@),
        decreases n - pos,
    {
        let ghost s = v@.subrange(pos as int, n as int);
        let found = find_from(v.as_slice(), nl.as_slice(), pos);
        let (line_end, next) = match found {
            None => (n, n),
            Some(i) => {
                proof {
                    lemma_first_match_occurs(s, nl@);
                }
                (i, i + 1)
            },
        };
        let stop = if line_end > pos && next > line_end && v[line_end - 1] == '\r' {
            line_end - 1
        } else {
            line_end
        };
        let line = string_from(chars_range(v.as_slice(), pos, stop).as_slice());
        proof {
            let rest = v@.subrange(next as int, n as int);
            if found is Some {
                assert(s.subrange(0, line_end - pos) =~= v@.subrange(pos as int, line_end as int));
                assert(s.subrange(line_end - pos + 1, s.len() as int) =~= rest);
                assert(line@ =~= strip_cr(v@.subrange(pos as int, line_end as int)));
                assert(lines_of(s) == seq![line@] + lines_of(rest));
            } else {
                assert(line@ =~= s);
                assert(lines_of(s) == seq![line@]);
                assert(rest.len() == 0);
                assert(lines_of(s) == seq![line@] + lines_of(rest));
            }
            assert((seq![line@] + lines_of(rest))[0] == line@);
            assert((seq![line@] + lines_of(rest)).drop_first() =~= lines_of(rest));
        }
        let links = extract_wikilink_titles(line.as_str());
        if names_target(&links, target) {
            proof {
                assert forall|k: int| 0 <= k < links@.len() implies links@[k]@ == wikilinks(line@)[k] by {
                    assert(string_views(links@)[k] == links@[k]@);
                }
                let k = choose|k: int| 0 <= k < links@.len() && title_key(#[trigger] links@[k]@) == target@;
                assert(links@[k]@ == wikilinks(line@)[k]);
                assert(title_key(wikilinks(line@)[k]) == target@);
                assert(links_to(line@, target@));
            }
            return Some(line);
        }
        proof {
            assert forall|k: int| 0 <= k < wikilinks(line@).len() implies title_key(#[trigger] wikilinks(line@)[k]) != target@ by {
                assert(string_views(links@)[k] == links@[k]@);
            }
        }
        pos = next;
    }
    proof {
        assert(lines_of(v@.subrange(pos as int, n as int)) == Seq::<Seq<char>>::empty());
    }
    None
}

/// The context a backlink from `n` to `target` shows, if `n` links to it:
/// the first linking line, trimmed and cut to 120 characters. A note never
/// backlinks to its own title.
pub open spec fn backlink_context(n: NoteData, target: Seq<char>) -> Option<Seq<char>> {
    if title_key(n.title@) == target {
        None
    } else {
        match first_linking_line(lines_of(n.content@), target) {
            None => None,
            Some(l) => Some(trim_context_spec(l, 120)),
        }
    }
}

/// `h` is the backlink hit of note `n`.
pub open spec fn is_backlink_from(h: BacklinkHit, n: NoteData, target: Seq<char>) -> bool {
    &&& backlink_context(n, target) == Some(h.context@)
    &&& h.id == n.id
    &&& h.title == n.title
    &&& h.folder_id == n.folder_id
    &&& h.pinned == n.pinned
}

/// `hits` are the backlink hits of `notes`, in the order of the notes.
pub open spec fn collected_backlinks(hits: Seq<BacklinkHit>, notes: Seq<NoteData>, target: Seq<char>) -> bool
    decreases notes.len(),
{
    if notes.len() == 0 {
        hits.len() == 0
    } else {
        match backlink_context(notes.last(), target) {
            None => collected_backlinks(hits, notes.drop_last(), target),
            Some(_) => hits.len() > 0 && is_backlink_from(hits.last(), notes.last(), target)
                && collected_backlinks(hits.drop_last(), notes.drop_last(), target),
        }
    }
}

/// A copy of an optional string.
pub fn clone_opt(o: &Option<String>) -> (r: Option<String>)
    ensures
        r == *o,
{
    match o {
        Some(s) => Some(s.clone()),
        None => None,
    }
}

/// The backlink hit of one note, if it links to `target`.
fn backlink_of(n: &NoteData, target: &str) -> (r: Option<BacklinkHit>)
    ensures
        match backlink_context(*n, target@) {
            None => r is None,
            Some(_) => r is Some && is_backlink_from(r->0, *n, target@),
        },
{
    let key = trim_lower(n.title.as_str());
    if str_eq(key.as_str(), target) {
        return None;
    }
    match linking_line(n.content.as_str(), target) {
        None => None,
        Some(line) => Some(BacklinkHit {
            id: n.id.clone(),
            title: n.title.clone(),
            folder_id: clone_opt(&n.folder_id),
            pinned: n.pinned,
            context: trim_context(line.as_str(), 120),
        }),
    }
}

/// The sort key of a backlink: its title, lower-cased.
pub open spec fn backlink_sort_key(h: BacklinkHit) -> Seq<char> {
    lowercase(h.title@)
}

/// Notes that link `[[Title]]` to `title`: for each note (but one whose own
/// title is `title`) the first line holding such a link, ordered by the
/// lower-cased title of the linking note. A blank `title` has no backlinks.
pub fn find_backlinks(notes: &Vec<NoteData>, title: &str) -> (r: Vec<BacklinkHit>)
    ensures
        title_key(title@).len() == 0 ==> r@.len() == 0,
        title_key(title@).len() > 0 ==> exists|u: Seq<BacklinkHit>|
            collected_backlinks(u, notes@, title_key(title@))
                && is_stable_sort(r@, u, |h: BacklinkHit| backlink_sort_key(h), false),
{
    let target = trim_lower(title);
    if target.as_str().is_empty() {
        return Vec::new();
    }
    let mut hits: Vec<BacklinkHit> = Vec::new();
    let mut keys: Vec<Vec<char>> = Vec::new();
    let mut i: usize = 0;
    while i < notes.len()
        invariant
            i <= notes@.len(),
            target@ == title_key(title@),
            hits@.len() == keys@.len(),
            collected_backlinks(hits@, notes@.subrange(0, i as int), target@),
            key_views(keys@) == hits@.map_values(|h: BacklinkHit| backlink_sort_key(h)),
        decreases notes@.len() - i,
    {
        let ghost before = hits@;
        let found = backlink_of(&notes[i], target.as_str());
        proof {
            let pre = notes@.subrange(0, i + 1);
            assert(pre.drop_last() =~= notes@.subrange(0, i as int));
            assert(pre.last() == notes@[i as int]);
        }
        match found {
            None => {},
            Some(h) => {
                let k = chars_of(to_lowercase(h.title.as_str()).as_str());
                let ghost old_keys = keys@;
                let ghost hk = backlink_sort_key(h);
                assert(k@ == hk);
                hits.push(h);
                keys.push(k);
                proof {
                    assert(hits@.drop_last() =~= before);
                    assert(key_views(keys@) =~= key_views(old_keys).push(hk));
                    assert(hits@.map_values(|h: BacklinkHit| backlink_sort_key(h)) =~= before.map_values(
                        |h: BacklinkHit| backlink_sort_key(h),
                    ).push(hk));
                }
            },
        }
        i = i + 1;
    }
    proof {
        assert(notes@.subrange(0, notes@.len() as int) =~= notes@);
    }
    let ghost u = hits@;
    let r = sort_by_keys(hits, keys, false);
    proof {
        lemma_keyed_sort(r@, u, key_views(keys@), |h: BacklinkHit| backlink_sort_key(h), false);
    }
    r
}

// ── The note graph ──────────────────────────────────────────────────────────

/// The position of the last of `keys` equal to `key`.
pub open spec fn last_index_of(keys: Seq<Seq<char>>, key: Seq<char>) -> Option<int>
    decreases keys.len(),
{
    if keys.len() == 0 {
        None
    } else if keys.last() == key {
        Some(keys.len() - 1)
    } else {
        last_index_of(keys.drop_last(), key)
    }
}

/// The last position found holds the key.
pub proof fn lemma_last_index_of(keys: Seq<Seq<char>>, key: Seq<char>)
    ensures
        last_index_of(keys, key) matches Some(t) ==> 0 <= t < keys.len() && keys[t] == key,
    decreases keys.len(),
{
    if keys.len() > 0 && keys.last() != key {
        lemma_last_index_of(keys.drop_last(), key);
    }
}

/// The title keys of `notes`, in order.
pub open spec fn title_keys(notes: Seq<NoteData>) -> Seq<Seq<char>> {
    notes.map_values(|n: NoteData| title_key(n.title@))
}

/// The edge that link `link` of note `src` gives, if any: to the last note
/// whose title key is the link's, unless that is `src` itself.
pub open spec fn link_edge(notes: Seq<NoteData>, src: int, link: Seq<char>) -> Seq<(Seq<char>, Seq<char>)> {
    match last_index_of(title_keys(notes), title_key(link)) {
        None => Seq::empty(),
        Some(t) => if notes[t].id@ == notes[src].id@ {
            Seq::empty()
        } else {
            seq![(notes[src].id@, notes[t].id@)]
        },
    }
}

/// The edges that the links `links` of note `src` give, in order.
pub open spec fn link_edges(notes: Seq<NoteData>, src: int, links: Seq<Seq<char>>) -> Seq<(Seq<char>, Seq<char>)>
    decreases links.len(),
{
    if links.len() == 0 {
        Seq::empty()
    } else {
        link_edges(notes, src, links.drop_last()) + link_edge(notes, src, links.last())
    }
}

/// The edges of the first `upto` notes, in order, repeats included.
pub open spec fn edge_candidates(notes: Seq<NoteData>, upto: int) -> Seq<(Seq<char>, Seq<char>)>
    decreases upto,
{
    if upto <= 0 {
        Seq::empty()
    } else {
        edge_candidates(notes, upto - 1) + link_edges(notes, upto - 1, wikilinks(notes[upto - 1].content@))
    }
}

/// `s` with every repeat of an earlier item left out.
pub open spec fn dedup<T>(s: Seq<T>) -> Seq<T>
    decreases s.len(),
{
    if s.len() == 0 {
        s
    } else {
        let d = dedup(s.drop_last());
        if d.contains(s.last()) {
            d
        } else {
            d.push(s.last())
        }
    }
}

/// Leaving out repeats leaves each item once, and exactly the items there
/// were.
pub proof fn lemma_dedup<T>(s: Seq<T>)
    ensures
        forall|a: int, b: int| 0 <= a < b < dedup(s).len() ==> dedup(s)[a] != dedup(s)[b],
        forall|x: T| dedup(s).contains(x) <==> s.contains(x),
    decreases s.len(),
{
    if s.len() > 0 {
        let d = dedup(s.drop_last());
        lemma_dedup(s.drop_last());
        assert forall|x: T| s.contains(x) <==> (s.drop_last().contains(x) || x == s.last()) by {
            if s.contains(x) {
                let k = choose|k: int| 0 <= k < s.len() && s[k] == x;
                if k < s.len() - 1 {
                    assert(s.drop_last()[k] == x);
                }
            }
            if s.drop_last().contains(x) {
                let k = choose|k: int| 0 <= k < s.drop_last().len() && s.drop_last()[k] == x;
                assert(s[k] == x);
            }
            if x == s.last() {
                assert(s[s.len() - 1] == x);
            }
        }
        if !d.contains(s.last()) {
            let e = d.push(s.last());
            assert forall|x: T| e.contains(x) <==> (d.contains(x) || x == s.last()) by {
                if e.contains(x) {
                    let k = choose|k: int| 0 <= k < e.len() && e[k] == x;
                    if k < d.len() {
                        assert(d[k] == x);
                    }
                }
                if d.contains(x) {
                    let k = choose|k: int| 0 <= k < d.len() && d[k] == x;
                    assert(e[k] == x);
                }
                if x == s.last() {
                    assert(e[d.len() as int] == x);
                }
            }
            assert forall|a: int, b: int| 0 <= a < b < e.len() implies e[a] != e[b] by {
                if b == d.len() {
                    assert(e[a] == d[a]);
                }
            }
        }
    }
}

/// `id` is the id of one of `notes`.
pub open spec fn is_note_id(notes: Seq<NoteData>, id: Seq<char>) -> bool {
    exists|i: int| 0 <= i < notes.len() && (#[trigger] notes[i]).id@ == id
}

/// Each edge the links of note `src` give joins `src` to another note.
proof fn lemma_link_edges_proper(notes: Seq<NoteData>, src: int, links: Seq<Seq<char>>)
    requires
        0 <= src < notes.len(),
    ensures
        forall|k: int| 0 <= k < link_edges(notes, src, links).len() ==> {
            let e = #[trigger] link_edges(notes, src, links)[k];
            e.0 == notes[src].id@ && e.0 != e.1 && is_note_id(notes, e.1)
        },
    decreases links.len(),
{
    if links.len() > 0 {
        lemma_link_edges_proper(notes, src, links.drop_last());
        let l = links.last();
        lemma_last_index_of(title_keys(notes), title_key(l));
        let prev = link_edges(notes, src, links.drop_last());
        let ed = link_edge(notes, src, l);
        assert forall|k: int| 0 <= k < (prev + ed).len() implies {
            let e = #[trigger] (prev + ed)[k];
            e.0 == notes[src].id@ && e.0 != e.1 && is_note_id(notes, e.1)
        } by {
            if k >= prev.len() {
                let t = last_index_of(title_keys(notes), title_key(l))->0;
                assert(notes[t].id@ == (prev + ed)[k].1);
            }
        }
    }
}

/// Each candidate edge of the first `upto` notes joins two different notes.
proof fn lemma_candidates_proper(notes: Seq<NoteData>, upto: int)
    requires
        0 <= upto <= notes.len(),
    ensures
        forall|k: int| 0 <= k < edge_candidates(notes, upto).len() ==> {
            let e = #[trigger] edge_candidates(notes, upto)[k];
            e.0 != e.1 && is_note_id(notes, e.0) && is_note_id(notes, e.1)
        },
    decreases upto,
{
    if upto > 0 {
        lemma_candidates_proper(notes, upto - 1);
        let src = upto - 1;
        lemma_link_edges_proper(notes, src, wikilinks(notes[src].content@));
        let prev = edge_candidates(notes, upto - 1);
        let more = link_edges(notes, src, wikilinks(notes[src].content@));
        assert forall|k: int| 0 <= k < (prev + more).len() implies {
            let e = #[trigger] (prev + more)[k];
            e.0 != e.1 && is_note_id(notes, e.0) && is_note_id(notes, e.1)
        } by {
            if k >= prev.len() {
                assert(more[k - prev.len()] == (prev + more)[k]);
                assert(notes[src].id@ == (prev + more)[k].0);
            }
        }
    }
}

/// The graph has no repeated edge and no edge from a note to itself, and
/// each edge joins the ids of two notes.
pub proof fn lemma_graph_edges_proper(notes: Seq<NoteData>)
    ensures
        ({
            let edges = dedup(edge_candidates(notes, notes.len() as int));
            &&& forall|a: int, b: int| 0 <= a < b < edges.len() ==> edges[a] != edges[b]
            &&& forall|k: int| 0 <= k < edges.len() ==> {
                let e = #[trigger] edges[k];
                e.0 != e.1 && is_note_id(notes, e.0) && is_note_id(notes, e.1)
            }
        }),
{
    let cands = edge_candidates(notes, notes.len() as int);
    let edges = dedup(cands);
    lemma_dedup(cands);
    lemma_candidates_proper(notes, notes.len() as int);
    assert forall|k: int| 0 <= k < edges.len() implies {
        let e = #[trigger] edges[k];
        e.0 != e.1 && is_note_id(notes, e.0) && is_note_id(notes, e.1)
    } by {
        assert(edges.contains(edges[k]));
        assert(cands.contains(edges[k]));
        let j = choose|j: int| 0 <= j < cands.len() && cands[j] == edges[k];
        assert(cands[j] == edges[k]);
    }
}

/// The (source, target) pairs of a list of edges.
pub open spec fn edge_views(e: Seq<GraphEdge>) -> Seq<(Seq<char>, Seq<char>)> {
    e.map_values(|g: GraphEdge| (g.source@, g.target@))
}

/// The position of the last of `keys` equal to `key`.
fn last_index(keys: &Vec<Vec<char>>, key: &[char]) -> (r: Option<usize>)
    ensures
        match last_index_of(key_views(keys@), key@) {
            None => r is None,
            Some(t) => r is Some && r->0 == t,
        },
{
    let ghost ks = key_views(keys@);
    let mut j = keys.len();
    assert(ks.subrange(0, j as int) =~= ks);
    while j > 0
        invariant
            j <= keys@.len(),
            ks == key_views(keys@),
            last_index_of(ks.subrange(0, j as int), key@) == last_index_of(ks, key@),
        decreases j,
    {
        let ghost pre = ks.subrange(0, j as int);
        assert(pre.drop_last() =~= ks.subrange(0, j - 1));
        assert(pre.last() == keys@[j - 1]@);
        if crate::text::chars_eq(keys[j - 1].as_slice(), key) {
            return Some(j - 1);
        }
        j = j - 1;
    }
    None
}

/// Whether `edges` already holds the edge `source` → `target`.
fn edge_present(edges: &Vec<GraphEdge>, source: &String, target: &String) -> (b: bool)
    ensures
        b == edge_views(edges@).contains((source@, target@)),
{
    let mut k: usize = 0;
    while k < edges.len()
        invariant
            k <= edges@.len(),
            forall|j: int| 0 <= j < k ==> #[trigger] edge_views(edges@)[j] != (source@, target@),
        decreases edges@.len() - k,
    {
        if str_eq(edges[k].source.as_str(), source.as_str()) && str_eq(edges[k].target.as_str(), target.as_str()) {
            assert(edge_views(edges@)[k as int] == (source@, target@));
            return true;
        }
        assert(edge_views(edges@)[k as int] == (edges@[k as int].source@, edges@[k as int].target@));
        k = k + 1;
    }
    false
}

/// The note graph: each note a node (in order), each `[[wikilink]]` an edge
/// to the last note with that title (compared trimmed and lower-cased),
/// without links of a note to itself and without repeated edges.
pub fn get_graph_data(notes: &Vec<NoteData>) -> (g: GraphData)
    ensures
        g.nodes@.len() == notes@.len(),
        forall|k: int| 0 <= k < notes@.len() ==> {
            &&& (#[trigger] g.nodes@[k]).id == notes@[k].id
            &&& g.nodes@[k].title == notes@[k].title
            &&& g.nodes@[k].folder_id == notes@[k].folder_id
        },
        edge_views(g.edges@) == dedup(edge_candidates(notes@, notes@.len() as int)),
{
    let n = notes.len();
    let mut nodes: Vec<GraphNode> = Vec::new();
    let mut keys: Vec<Vec<char>> = Vec::new();
    let mut i: usize = 0;
    while i < n
        invariant
            i <= n == notes@.len(),
            nodes@.len() == i,
            forall|k: int| 0 <= k < i ==> {
                &&& (#[trigger] nodes@[k]).id == notes@[k].id
                &&& nodes@[k].title == notes@[k].title
                &&& nodes@[k].folder_id == notes@[k].folder_id
            },
            key_views(keys@) == title_keys(notes@.subrange(0, i as int)),
        decreases n - i,
    {
        let note = &notes[i];
        nodes.push(GraphNode { id: note.id.clone(), title: note.title.clone(), folder_id: clone_opt(&note.folder_id) });
        let ghost old_keys = keys@;
        let key = chars_of(trim_lower(note.title.as_str()).as_str());
        keys.push(key);
        proof {
            assert(key_views(keys@) =~= key_views(old_keys).push(title_key(notes@[i as int].title@)));
            assert(title_keys(notes@.subrange(0, i + 1)) =~= title_keys(notes@.subrange(0, i as int)).push(
                title_key(notes@[i as int].title@),
            ));
        }
        i = i + 1;
    }
    assert(notes@.subrange(0, n as int) =~= notes@);
    let mut edges: Vec<GraphEdge> = Vec::new();
    let mut i: usize = 0;
    while i < n
        invariant
            i <= n == notes@.len(),
            key_views(keys@) == title_keys(notes@),
            edge_views(edges@) == dedup(edge_candidates(notes@, i as int)),
        decreases n - i,
    {
        let note = &notes[i];
        let links = extract_wikilink_titles(note.content.as_str());
        let ghost lv = string_views(links@);
        let mut k: usize = 0;
        assert(lv.subrange(0, 0) =~= Seq::<Seq<char>>::empty());
        assert(edge_candidates(notes@, i as int) + link_edges(notes@, i as int, lv.subrange(0, 0)) =~= edge_candidates(notes@, i as int));
        while k < links.len()
            invariant
                i < n == notes@.len(),
                k <= links@.len(),
                note == notes@[i as int],
                lv == string_views(links@),
                lv == wikilinks(notes@[i as int].content@),
                key_views(keys@) == title_keys(notes@),
                edge_views(edges@) == dedup(edge_candidates(notes@, i as int) + link_edges(notes@, i as int, lv.subrange(0, k as int))),
            decreases links@.len() - k,
        {
            let ghost before = edge_candidates(notes@, i as int) + link_edges(notes@, i as int, lv.subrange(0, k as int));
            let ghost link = lv[k as int];
            assert(lv.subrange(0, k + 1).drop_last() =~= lv.subrange(0, k as int));
            assert(lv.subrange(0, k + 1).last() == link);
            assert(link == links@[k as int]@);
            let key = chars_of(trim_lower(links[k].as_str()).as_str());
            let found = last_index(&keys, key.as_slice());
            proof {
                lemma_last_index_of(key_views(keys@), key@);
            }
            let ghost ed = link_edge(notes@, i as int, link);
            assert(before + ed =~= edge_candidates(notes@, i as int) + link_edges(notes@, i as int, lv.subrange(0, k + 1)));
            match found {
                None => {
                    assert(ed =~= Seq::<(Seq<char>, Seq<char>)>::empty());
                    assert(before + ed =~= before);
                },
                Some(t) => {
                    if str_eq(notes[t].id.as_str(), note.id.as_str()) {
                        assert(ed =~= Seq::<(Seq<char>, Seq<char>)>::empty());
                        assert(before + ed =~= before);
                    } else {
                        let ghost pair = (note.id@, notes@[t as int].id@);
                        assert(ed == seq![pair]);
                        assert(before + ed =~= before.push(pair));
                        assert((before + ed).drop_last() =~= before);
                        if !edge_present(&edges, &note.id, &notes[t].id) {
                            let ghost old_edges = edges@;
                            edges.push(GraphEdge { source: note.id.clone(), target: notes[t].id.clone() });
                            assert(edge_views(edges@) =~= edge_views(old_edges).push(pair));
                        }
                    }
                },
            }
            k = k + 1;
        }
        proof {
            assert(lv.subrange(0, links@.len() as int) =~= lv);
        }
        i = i + 1;
    }
    GraphData { nodes, edges }
}

} // verus!
