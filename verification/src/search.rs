//! Helpers of the full-text search index: the safe `MATCH` query built from
//! what the user typed, the highlighted snippet, and the tag column.

use vstd::prelude::*;
use crate::notes::{NoteData, SearchHit};
use crate::text::{
    chars_of, string_from, push_chars, is_ws, is_whitespace, trim_start, esc_html_spec, esc_html,
    replace_all, replace_text, string_views, lemma_trim_start_from,
};

verus! {

/// The position of the first whitespace character of `s` (its length when
/// there is none).
pub open spec fn first_ws(s: Seq<char>) -> int
    decreases s.len(),
{
    if s.len() == 0 {
        0
    } else if is_ws(s[0]) {
        0
    } else {
        1 + first_ws(s.drop_first())
    }
}

/// Bounds of `first_ws`.
pub proof fn lemma_first_ws_bounds(s: Seq<char>)
    ensures
        0 <= first_ws(s) <= s.len(),
        s.len() > 0 && !is_ws(s[0]) ==> first_ws(s) >= 1,
    decreases s.len(),
{
    if s.len() > 0 && !is_ws(s[0]) {
        lemma_first_ws_bounds(s.drop_first());
    }
}

/// `trim_start` only drops characters, and what it leaves starts with a
/// non-space.
pub proof fn lemma_trim_start_shape(s: Seq<char>)
    ensures
        trim_start(s).len() <= s.len(),
        trim_start(s).len() > 0 ==> !is_ws(trim_start(s)[0]),
    decreases s.len(),
{
    if s.len() > 0 && is_ws(s[0]) {
        lemma_trim_start_shape(s.drop_first());
    }
}

/// The whitespace-separated words of `s` (as `str::split_whitespace`).
pub open spec fn words(s: Seq<char>) -> Seq<Seq<char>>
    decreases s.len(),
{
    let t = trim_start(s);
    if t.len() == 0 {
        Seq::empty()
    } else {
        proof {
            lemma_trim_start_shape(s);
            lemma_first_ws_bounds(t);
        }
        let k = first_ws(t);
        seq![t.subrange(0, k)] + words(t.subrange(k, t.len() as int))
    }
}

/// A run of non-spaces ended by a space (or the end) is what `first_ws`
/// finds.
proof fn lemma_first_ws_at(t: Seq<char>, k: int)
    requires
        0 <= k <= t.len(),
        forall|j: int| 0 <= j < k ==> !is_ws(#[trigger] t[j]),
        k == t.len() || is_ws(t[k]),
    ensures
        first_ws(t) == k,
    decreases k,
{
    if k > 0 {
        assert forall|j: int| 0 <= j < k - 1 implies !is_ws(#[trigger] t.drop_first()[j]) by {
            assert(t.drop_first()[j] == t[j + 1]);
        }
        if k < t.len() {
            assert(t.drop_first()[k - 1] == t[k]);
        }
        lemma_first_ws_at(t.drop_first(), k - 1);
    }
}

/// The words of `v[from..]` start with `v[a..b]` when `a` is the first
/// non-space from `from` and `b` the first space after it.
proof fn lemma_words_step(v: Seq<char>, from: int, a: int, b: int)
    requires
        0 <= from <= a < b <= v.len(),
        forall|j: int| from <= j < a ==> is_ws(#[trigger] v[j]),
        !is_ws(v[a]),
        forall|j: int| a <= j < b ==> !is_ws(#[trigger] v[j]),
        b == v.len() || is_ws(v[b]),
    ensures
        words(v.subrange(from, v.len() as int)) == seq![v.subrange(a, b)] + words(v.subrange(b, v.len() as int)),
{
    let s = v.subrange(from, v.len() as int);
    lemma_trim_start_from(s, a - from);
    assert(s.subrange(a - from, s.len() as int) =~= v.subrange(a, v.len() as int));
    let t = v.subrange(a, v.len() as int);
    assert(t[0] == v[a]);
    assert(trim_start(t) == t);
    assert forall|j: int| 0 <= j < b - a implies !is_ws(#[trigger] t[j]) by {
        assert(t[j] == v[a + j]);
    }
    if b < v.len() {
        assert(t[b - a] == v[b]);
    }
    lemma_first_ws_at(t, b - a);
    assert(t.subrange(0, b - a) =~= v.subrange(a, b));
    assert(t.subrange(b - a, t.len() as int) =~= v.subrange(b, v.len() as int));
}

/// Only spaces are left from `from` on: no more words.
proof fn lemma_words_end(v: Seq<char>, from: int)
    requires
        0 <= from <= v.len(),
        forall|j: int| from <= j < v.len() ==> is_ws(#[trigger] v[j]),
    ensures
        words(v.subrange(from, v.len() as int)) == Seq::<Seq<char>>::empty(),
{
    let s = v.subrange(from, v.len() as int);
    lemma_trim_start_from(s, s.len() as int);
    assert(s.subrange(s.len() as int, s.len() as int) =~= Seq::<char>::empty());
}

/// The words of `s`.
pub fn split_words(s: &str) -> (r: Vec<String>)
    ensures
        string_views(r@) == words(s@),
{
    let v = chars_of(s);
    let n = v.len();
    let mut out: Vec<String> = Vec::new();
    let mut pos: usize = 0;
    assert(v@.subrange(0, n as int) =~= v@);
    assert(string_views(out@) + words(s@) =~= words(s@));
    loop
        invariant_except_break
            string_views(out@) + words(v@.subrange(pos as int, n as int)) == words(s@),
        invariant
            pos <= n == v@.len(),
            v@ == s@,
        ensures
            string_views(out@) == words(s@),
        decreases n - pos,
    {
        let mut a = pos;
        while a < n && is_whitespace(v[a])
            invariant
                pos <= a <= n == v@.len(),
                forall|j: int| pos <= j < a ==> is_ws(#[trigger] v@[j]),
            decreases n - a,
        {
            a = a + 1;
        }
        if a == n {
            proof {
                lemma_words_end(v@, pos as int);
                assert(string_views(out@) + Seq::<Seq<char>>::empty() =~= string_views(out@));
            }
            break;
        }
        let mut b = a;
        while b < n && !is_whitespace(v[b])
            invariant
                a <= b <= n == v@.len(),
                forall|j: int| a <= j < b ==> !is_ws(#[trigger] v@[j]),
            decreases n - b,
        {
            b = b + 1;
        }
        proof {
            lemma_words_step(v@, pos as int, a as int, b as int);
        }
        let ghost before = string_views(out@);
        let w = crate::text::chars_range(v.as_slice(), a, b);
        out.push(string_from(w.as_slice()));
        proof {
            assert(string_views(out@) =~= before.push(v@.subrange(a as int, b as int)));
            assert(string_views(out@) + words(v@.subrange(b as int, n as int)) =~= before + (seq![v@.subrange(a as int, b as int)]
                + words(v@.subrange(b as int, n as int))));
        }
        pos = b;
    }
    out
}

/// The tags of a note from the indexed tag column (split at whitespace).
pub fn split_tags(joined: &str) -> (r: Vec<String>)
    ensures
        string_views(r@) == words(joined@),
{
    split_words(joined)
}

/// `parts` joined with single spaces.
pub open spec fn join_spaced(parts: Seq<Seq<char>>) -> Seq<char>
    decreases parts.len(),
{
    if parts.len() == 0 {
        Seq::empty()
    } else if parts.len() == 1 {
        parts[0]
    } else {
        join_spaced(parts.drop_last()) + seq![' '] + parts.last()
    }
}

/// Joins texts with single spaces.
pub fn join_with_spaces(parts: &Vec<String>) -> (r: String)
    ensures
        r@ == join_spaced(string_views(parts@)),
{
    let mut out: Vec<char> = Vec::new();
    let mut i: usize = 0;
    while i < parts.len()
        invariant
            i <= parts@.len(),
            out@ == join_spaced(string_views(parts@).subrange(0, i as int)),
        decreases parts@.len() - i,
    {
        let ghost pre = string_views(parts@).subrange(0, i + 1);
        assert(pre.drop_last() =~= string_views(parts@).subrange(0, i as int));
        assert(pre.last() == parts@[i as int]@);
        if i > 0 {
            out.push(' ');
        }
        push_chars(&mut out, chars_of(parts[i].as_str()).as_slice());
        proof {
            if i == 0 {
                assert(out@ =~= pre[0]);
            }
        }
        i = i + 1;
    }
    assert(string_views(parts@).subrange(0, parts@.len() as int) =~= string_views(parts@));
    string_from(out.as_slice())
}

/// The indexed tag column of a note: its tags joined with spaces.
pub fn join_tags(tags: &Vec<String>) -> (r: String)
    ensures
        r@ == join_spaced(string_views(tags@)),
{
    join_with_spaces(tags)
}

/// A word of the query quoted for FTS5: `"` doubled inside, wrapped in
/// quotes, and `*` for a prefix match.
pub open spec fn quote_token(tok: Seq<char>) -> Seq<char> {
    seq!['"'] + replace_all(tok, seq!['"'], seq!['"', '"']) + seq!['"', '*']
}

/// The `MATCH` query for what the user typed: each word quoted (see
/// `quote_token`), joined with spaces, so that no character of the input
/// can break the query syntax. Empty when the input has no word.
pub fn build_match_query(query: &str) -> (r: String)
    ensures
        r@ == join_spaced(words(query@).map_values(|t: Seq<char>| quote_token(t))),
{
    let toks = split_words(query);
    let mut parts: Vec<String> = Vec::new();
    let mut i: usize = 0;
    while i < toks.len()
        invariant
            i <= toks@.len(),
            string_views(toks@) == words(query@),
            string_views(parts@) == words(query@).subrange(0, i as int).map_values(|t: Seq<char>| quote_token(t)),
        decreases toks@.len() - i,
    {
        let one: [char; 1] = ['"'];
        let two: [char; 2] = ['"', '"'];
        assert(one@ =~= seq!['"']);
        assert(two@ =~= seq!['"', '"']);
        let escaped = replace_text(toks[i].as_str(), &one, &two);
        let mut q: Vec<char> = Vec::new();
        q.push('"');
        push_chars(&mut q, chars_of(escaped.as_str()).as_slice());
        q.push('"');
        q.push('*');
        let ghost before = string_views(parts@);
        let s = string_from(q.as_slice());
        proof {
            assert(string_views(toks@)[i as int] == toks@[i as int]@);
            assert(s@ =~= quote_token(words(query@)[i as int]));
        }
        parts.push(s);
        proof {
            assert(string_views(parts@) =~= before.push(s@));
            assert(words(query@).subrange(0, i + 1).map_values(|t: Seq<char>| quote_token(t)) =~= words(query@).subrange(
                0,
                i as int,
            ).map_values(|t: Seq<char>| quote_token(t)).push(quote_token(words(query@)[i as int])));
        }
        i = i + 1;
    }
    assert(words(query@).subrange(0, toks@.len() as int) =~= words(query@));
    join_with_spaces(&parts)
}

/// A snippet from the index made safe for HTML: escaped, then the marker
/// characters U+0002 and U+0003 turned into `<mark>` and `</mark>`.
pub open spec fn finish_snippet_spec(raw: Seq<char>) -> Seq<char> {
    replace_all(
        replace_all(esc_html_spec(raw), seq!['\u{2}'], seq!['<', 'm', 'a', 'r', 'k', '>']),
        seq!['\u{3}'],
        seq!['<', '/', 'm', 'a', 'r', 'k', '>'],
    )
}

/// Escapes a snippet and turns its match markers into `<mark>` tags.
pub fn finish_snippet(raw: &str) -> (r: String)
    ensures
        r@ == finish_snippet_spec(raw@),
{
    let escaped = esc_html(raw);
    let start_marker: [char; 1] = ['\u{2}'];
    let end_marker: [char; 1] = ['\u{3}'];
    let start_tag: [char; 6] = ['<', 'm', 'a', 'r', 'k', '>'];
    let end_tag: [char; 7] = ['<', '/', 'm', 'a', 'r', 'k', '>'];
    assert(start_marker@ =~= seq!['\u{2}']);
    assert(end_marker@ =~= seq!['\u{3}']);
    assert(start_tag@ =~= seq!['<', 'm', 'a', 'r', 'k', '>']);
    assert(end_tag@ =~= seq!['<', '/', 'm', 'a', 'r', 'k', '>']);
    let open = replace_text(escaped.as_str(), &start_marker, &start_tag);
    replace_text(open.as_str(), &end_marker, &end_tag)
}

// ── The in-memory index ─────────────────────────────────────────────────────

#[verifier::external_type_specification]
#[verifier::external_body]
pub struct ExConnection(rusqlite::Connection);

#[verifier::external_type_specification]
#[verifier::external_body]
pub struct ExSqlError(rusqlite::Error);

/// A row of the index: id, title, content, tags joined with spaces, folder,
/// pinned, creation and update times.
pub type RowView = (Seq<char>, Seq<char>, Seq<char>, Seq<char>, Option<Seq<char>>, bool, Seq<char>, Seq<char>);

/// The rows of the full-text table of an index connection, in rowid order.
pub uninterp spec fn index_rows(conn: rusqlite::Connection) -> Seq<RowView>;

/// A row to put into the index.
pub struct IndexRow {
    pub id: String,
    pub title: String,
    pub content: String,
    pub tags: String,
    pub folder_id: Option<String>,
    pub pinned: bool,
    pub created_at: String,
    pub updated_at: String,
}

/// A row as the index holds it.
pub open spec fn row_view(r: IndexRow) -> RowView {
    (r.id@, r.title@, r.content@, r.tags@, match r.folder_id {
        Some(f) => Some(f@),
        None => None,
    }, r.pinned, r.created_at@, r.updated_at@)
}

/// A hit as the index returns it: the row's fields, and a snippet of its
/// content with the matches between U+0002 and U+0003.
pub struct RawHit {
    pub id: String,
    pub title: String,
    pub snippet: String,
    pub tags: String,
    pub folder_id: Option<String>,
    pub pinned: i64,
    pub created_at: String,
    pub updated_at: String,
}

/// A hit as values: id, title, snippet, tags, folder, pinned, creation and
/// update times.
pub type RawHitView = (Seq<char>, Seq<char>, Seq<char>, Seq<char>, Option<Seq<char>>, i64, Seq<char>, Seq<char>);

/// A raw hit as values.
pub open spec fn raw_view(h: RawHit) -> RawHitView {
    (h.id@, h.title@, h.snippet@, h.tags@, match h.folder_id {
        Some(f) => Some(f@),
        None => None,
    }, h.pinned, h.created_at@, h.updated_at@)
}

/// The raw hits as values.
pub open spec fn raw_views(v: Seq<RawHit>) -> Seq<RawHitView> {
    v.map_values(|h: RawHit| raw_view(h))
}

/// The hits that the full-text query of `index_query` gives on a table
/// holding `rows` (in rowid order) for the `MATCH` text `match_q`.
pub uninterp spec fn fts_hits(rows: Seq<RowView>, match_q: Seq<char>) -> Seq<RawHitView>;

/// Calls `Connection::open_in_memory` and creates the FTS5 table
/// `notes_fts` (id, title, content, tags, folder, pinned and times; the
/// metadata columns unindexed; `unicode61` tokenizer) with
/// `execute_batch`. Claimed: a new index has no rows. When it fails is not
/// stated.
#[verifier::external_body]
fn index_open() -> (r: Result<rusqlite::Connection, rusqlite::Error>)
    ensures
        r matches Ok(c) ==> index_rows(c) == Seq::<RowView>::empty(),
{
    let conn = rusqlite::Connection::open_in_memory()?;
    conn.execute_batch(
        "CREATE VIRTUAL TABLE notes_fts USING fts5(id UNINDEXED, title, content, tags, folder_id UNINDEXED, pinned UNINDEXED, created_at UNINDEXED, updated_at UNINDEXED, tokenize = 'unicode61');",
    )?;
    Ok(conn)
}

/// Calls `Connection::execute` with an `INSERT` of one row into
/// `notes_fts` (pinned stored as 1 or 0). Claimed: on success the table
/// holds one more row, this one, last in rowid order (SQLite gives a row
/// inserted without a rowid one more than the largest present). What a
/// failed insert leaves is not stated.
#[verifier::external_body]
fn index_insert(conn: &mut rusqlite::Connection, row: &IndexRow) -> (r: Result<usize, rusqlite::Error>)
    ensures
        r is Ok ==> index_rows(*final(conn)) == index_rows(*old(conn)).push(row_view(*row)),
{
    conn.execute(
        "INSERT INTO notes_fts (id, title, content, tags, folder_id, pinned, created_at, updated_at) VALUES (?1, ?2, ?3, ?4, ?5, ?6, ?7, ?8)",
        (&row.id, &row.title, &row.content, &row.tags, &row.folder_id, if row.pinned { 1i32 } else { 0i32 }, &row.created_at, &row.updated_at),
    )
}

/// Calls `Connection::execute` with `DELETE FROM notes_fts WHERE id = ?1`.
/// Claimed: on success exactly the rows with this id are gone. What a
/// failed delete leaves is not stated.
#[verifier::external_body]
fn index_delete(conn: &mut rusqlite::Connection, id: &str) -> (r: Result<usize, rusqlite::Error>)
    ensures
        r is Ok ==> index_rows(*final(conn)) == index_rows(*old(conn)).filter(|row: RowView| row.0 != id@),
{
    conn.execute("DELETE FROM notes_fts WHERE id = ?1", (id,))
}

/// Whether `h` shows a row of the index (the snippet aside).
pub open spec fn hit_of_row(h: RawHit, rows: Seq<RowView>) -> bool {
    exists|row: RowView|
        #[trigger] rows.contains(row) && h.id@ == row.0 && h.title@ == row.1 && h.tags@ == row.3 && (match h.folder_id {
            Some(f) => Some(f@),
            None => None,
        }) == row.4 && (h.pinned != 0) == row.5 && h.created_at@ == row.6 && h.updated_at@ == row.7
}

/// Calls `Connection::prepare` and `Statement::query_map` with a `MATCH`
/// query over `notes_fts`, ordered by rank, at most 50 rows, with
/// `snippet(notes_fts, 2, char(2), char(3), '…', 12)`; rows that fail to
/// read are skipped. Claimed: a successful query gives the hits named
/// `fts_hits` of the table's rows (in rowid order, which breaks ties in
/// rank) and the `MATCH` text; at most 50, each showing a row of the
/// index. Which rows match, their order and the snippets are left to that
/// name; when the query fails (a malformed `MATCH` text, or SQLite out of
/// memory) is not stated.
#[verifier::external_body]
fn index_query(conn: &mut rusqlite::Connection, match_q: &str) -> (r: Result<Vec<RawHit>, rusqlite::Error>)
    ensures
        index_rows(*final(conn)) == index_rows(*old(conn)),
        r matches Ok(v) ==> raw_views(v@) == fts_hits(index_rows(*old(conn)), match_q@),
        r matches Ok(v) ==> v@.len() <= 50 && forall|k: int| 0 <= k < v@.len() ==> hit_of_row(#[trigger] v@[k], index_rows(*old(conn))),
{
    let mut stmt = conn.prepare(
        "SELECT id, title, snippet(notes_fts, 2, char(2), char(3), '…', 12), tags, folder_id, pinned, created_at, updated_at FROM notes_fts WHERE notes_fts MATCH ?1 ORDER BY rank LIMIT 50",
    )?;
    let rows = stmt.query_map((match_q,), |row| {
        Ok(RawHit { id: row.get(0)?, title: row.get(1)?, snippet: row.get(2)?, tags: row.get(3)?, folder_id: row.get(4)?, pinned: row.get(5)?, created_at: row.get(6)?, updated_at: row.get(7)? })
    })?;
    Ok(rows.flatten().collect())
}

/// What goes wrong with the index.
#[derive(Debug, Clone, Copy, PartialEq, Eq, Structural)]
pub enum SearchError {
    /// SQLite refused an operation.
    Index,
}

impl SearchError {
    pub open spec fn spec_message(&self) -> Seq<char> {
        "Search index error"@
    }

    /// The message shown to the user.
    pub fn message(&self) -> (s: String)
        ensures
            s@ == self.spec_message(),
    {
        String::from_str("Search index error")
    }
}

/// The index row of a note: its fields, with the tags joined by spaces.
pub open spec fn note_row(n: NoteData) -> RowView {
    (n.id@, n.title@, n.content@, join_spaced(string_views(n.tags@)), match n.folder_id {
        Some(f) => Some(f@),
        None => None,
    }, n.pinned, n.created_at@, n.updated_at@)
}

/// The index row of a note.
pub fn index_row(n: &NoteData) -> (r: IndexRow)
    ensures
        row_view(r) == note_row(*n),
{
    IndexRow {
        id: n.id.clone(),
        title: n.title.clone(),
        content: n.content.clone(),
        tags: join_tags(&n.tags),
        folder_id: crate::notes::clone_opt(&n.folder_id),
        pinned: n.pinned,
        created_at: n.created_at.clone(),
        updated_at: n.updated_at.clone(),
    }
}

/// Builds a fresh in-memory index of the notes: one row per note.
pub fn build_index_conn(notes: &Vec<NoteData>) -> (r: Result<rusqlite::Connection, SearchError>)
    ensures
        r matches Ok(c) ==> index_rows(c) == notes@.map_values(|n: NoteData| note_row(n)),
{
    let mut conn = match index_open() {
        Ok(c) => c,
        Err(_) => return Err(SearchError::Index),
    };
    let mut i: usize = 0;
    proof {
        assert(notes@.subrange(0, 0).map_values(|n: NoteData| note_row(n)) =~= Seq::<RowView>::empty());
    }
    while i < notes.len()
        invariant
            i <= notes@.len(),
            index_rows(conn) == notes@.subrange(0, i as int).map_values(|n: NoteData| note_row(n)),
        decreases notes@.len() - i,
    {
        let row = index_row(&notes[i]);
        match index_insert(&mut conn, &row) {
            Ok(_) => {},
            Err(_) => return Err(SearchError::Index),
        }
        proof {
            let pre = notes@.subrange(0, i as int).map_values(|n: NoteData| note_row(n));
            assert(notes@.subrange(0, i + 1).map_values(|n: NoteData| note_row(n)) =~= pre.push(note_row(notes@[i as int])));
        }
        i = i + 1;
    }
    assert(notes@.subrange(0, notes@.len() as int) =~= notes@);
    Ok(conn)
}

/// Replaces the row of a note in the index (after the note was saved).
pub fn upsert(conn: &mut rusqlite::Connection, note: &NoteData) -> (r: Result<(), SearchError>)
    ensures
        r is Ok ==> index_rows(*final(conn)) == index_rows(*old(conn)).filter(|row: RowView| row.0 != note.id@).push(note_row(*note)),
{
    match index_delete(conn, note.id.as_str()) {
        Ok(_) => {},
        Err(_) => return Err(SearchError::Index),
    }
    let row = index_row(note);
    match index_insert(conn, &row) {
        Ok(_) => Ok(()),
        Err(_) => Err(SearchError::Index),
    }
}

/// Takes a deleted note out of the index (errors are ignored).
pub fn remove_from_index(conn: &mut rusqlite::Connection, id: &str) -> (removed: bool)
    ensures
        removed ==> index_rows(*final(conn)) == index_rows(*old(conn)).filter(|row: RowView| row.0 != id@),
{
    index_delete(conn, id).is_ok()
}

/// `h` is the search hit shown for raw hit `raw`: the snippet escaped and
/// marked, the tags split at whitespace, pinned when not 0.
pub open spec fn is_shown_hit(h: SearchHit, raw: RawHit) -> bool {
    is_shown_view(h, raw_view(raw))
}

/// `h` is the search hit shown for the raw hit with values `raw`.
pub open spec fn is_shown_view(h: SearchHit, raw: RawHitView) -> bool {
    &&& h.id@ == raw.0
    &&& h.title@ == raw.1
    &&& h.snippet@ == finish_snippet_spec(raw.2)
    &&& string_views(h.tags@) == words(raw.3)
    &&& (match h.folder_id {
        Some(f) => Some(f@),
        None => None,
    }) == raw.4
    &&& h.pinned == (raw.5 != 0)
    &&& h.created_at@ == raw.6
    &&& h.updated_at@ == raw.7
}

/// `hits` are the hits shown for `raws`, one for one.
pub open spec fn shown_all(hits: Seq<SearchHit>, raws: Seq<RawHitView>) -> bool {
    hits.len() == raws.len() && forall|k: int| 0 <= k < raws.len() ==> is_shown_view(#[trigger] hits[k], raws[k])
}

/// The `MATCH` text of a search query (see `build_match_query`).
pub open spec fn match_text(query: Seq<char>) -> Seq<char> {
    join_spaced(words(query).map_values(|t: Seq<char>| quote_token(t)))
}

/// `h` shows a row of the index (through some raw hit).
pub open spec fn shows_indexed_row(h: SearchHit, rows: Seq<RowView>) -> bool {
    exists|raw: RawHit| #[trigger] is_shown_hit(h, raw) && hit_of_row(raw, rows)
}

/// Full-text search in the index: the query made safe (see
/// `build_match_query`); nothing for a query without words or when SQLite
/// refuses the query; otherwise the hits that SQLite gives for that text
/// (`fts_hits`), each with its snippet made safe for HTML and its tags
/// split: at most 50, each showing a row of the index.
pub fn fts_search(conn: &mut rusqlite::Connection, query: &str) -> (r: Vec<SearchHit>)
    ensures
        index_rows(*final(conn)) == index_rows(*old(conn)),
        words(query@).len() == 0 ==> r@.len() == 0,
        r@.len() <= 50,
        forall|k: int| 0 <= k < r@.len() ==> shows_indexed_row(#[trigger] r@[k], index_rows(*old(conn))),
        r@.len() > 0 ==> shown_all(r@, fts_hits(index_rows(*old(conn)), match_text(query@))),
{
    let match_q = build_match_query(query);
    if match_q.as_str().is_empty() {
        proof {
            if words(query@).len() > 0 {
                lemma_join_quoted_nonempty(words(query@));
            }
        }
        return Vec::new();
    }
    let outcome = index_query(conn, match_q.as_str());
    let out = hits_from_outcome(&outcome);
    proof {
        if let Ok(raws) = outcome {
            assert forall|k: int| 0 <= k < out@.len() implies shows_indexed_row(#[trigger] out@[k], index_rows(*old(conn))) by {
                assert(is_shown_hit(out@[k], raws@[k]));
                assert(hit_of_row(raws@[k], index_rows(*old(conn))));
            }
            assert forall|k: int| 0 <= k < raws@.len() implies is_shown_view(#[trigger] out@[k], fts_hits(index_rows(*old(conn)), match_text(query@))[k]) by {
                assert(is_shown_hit(out@[k], raws@[k]));
                assert(raw_views(raws@)[k] == raw_view(raws@[k]));
            }
        }
    }
    out
}

/// What a full-text query comes to: the shown hits of what it gave, or
/// nothing when SQLite refused it.
pub fn hits_from_outcome(outcome: &Result<Vec<RawHit>, rusqlite::Error>) -> (r: Vec<SearchHit>)
    ensures
        outcome is Err ==> r@.len() == 0,
        outcome matches Ok(raws) ==> r@.len() == raws@.len() && forall|k: int| 0 <= k < raws@.len() ==> is_shown_hit(#[trigger] r@[k], raws@[k]),
{
    match outcome {
        Ok(raws) => shown_hits(raws),
        Err(_) => Vec::new(),
    }
}

/// The hits shown for the rows a full-text query gave: each with its
/// snippet made safe for HTML and marked, and its tags split.
pub fn shown_hits(raws: &Vec<RawHit>) -> (r: Vec<SearchHit>)
    ensures
        r@.len() == raws@.len(),
        forall|k: int| 0 <= k < raws@.len() ==> is_shown_hit(#[trigger] r@[k], raws@[k]),
{
    let mut out: Vec<SearchHit> = Vec::new();
    let mut i: usize = 0;
    while i < raws.len()
        invariant
            i <= raws@.len(),
            out@.len() == i,
            forall|k: int| 0 <= k < i ==> is_shown_hit(#[trigger] out@[k], raws@[k]),
        decreases raws@.len() - i,
    {
        let raw = &raws[i];
        let h = SearchHit {
            id: raw.id.clone(),
            title: raw.title.clone(),
            tags: split_tags(raw.tags.as_str()),
            folder_id: crate::notes::clone_opt(&raw.folder_id),
            pinned: raw.pinned != 0,
            created_at: raw.created_at.clone(),
            updated_at: raw.updated_at.clone(),
            snippet: finish_snippet(raw.snippet.as_str()),
        };
        out.push(h);
        i = i + 1;
    }
    out
}

/// A query with a word gives a non-empty `MATCH` text.
proof fn lemma_join_quoted_nonempty(ws: Seq<Seq<char>>)
    requires
        ws.len() > 0,
    ensures
        join_spaced(ws.map_values(|t: Seq<char>| quote_token(t))).len() > 0,
    decreases ws.len(),
{
    let q = ws.map_values(|t: Seq<char>| quote_token(t));
    assert(q[q.len() - 1] == quote_token(ws[ws.len() - 1]));
    if ws.len() > 1 {
        assert(q.drop_last() =~= ws.drop_last().map_values(|t: Seq<char>| quote_token(t)));
    }
}

} // verus!
