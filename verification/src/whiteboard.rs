//! Whiteboards attached to notes: each scene is a data file
//! `whiteboards/{id}.rune`, listed in an encrypted metadata index. The
//! index logic is here; the files, windows and events are the caller's.

use vstd::prelude::*;
use crate::models::RuneError;
use crate::notes::{clean_id_spec, data_file_in, join_path, rune_file_name};
use crate::text::str_eq;

verus! {

/// Metadata of a whiteboard.
pub struct WhiteboardMeta {
    pub id: String,
    pub note_id: String,
    pub title: String,
    pub created_at: u64,
    pub updated_at: u64,
}

/// A whiteboard with its scene (the drawing program's JSON, as text).
pub struct WhiteboardData {
    pub meta: WhiteboardMeta,
    pub excalidraw_json: String,
}

/// The path of the scene of whiteboard `id` in `dir`; `Format` for an id
/// that is not clean.
pub fn scene_file(dir: &str, id: &str) -> (r: Result<String, RuneError>)
    ensures
        clean_id_spec(id@) ==> (r matches Ok(p) && p@ == join_path(dir@, rune_file_name(id@))),
        !clean_id_spec(id@) ==> r == Err::<String, RuneError>(RuneError::Format),
{
    data_file_in(dir, id)
}

/// A copy of whiteboard metadata.
pub fn clone_meta(m: &WhiteboardMeta) -> (r: WhiteboardMeta)
    ensures
        r == *m,
{
    WhiteboardMeta {
        id: m.id.clone(),
        note_id: m.note_id.clone(),
        title: m.title.clone(),
        created_at: m.created_at,
        updated_at: m.updated_at,
    }
}

/// The position of the first entry with id `id`.
pub open spec fn first_with_id(list: Seq<WhiteboardMeta>, id: Seq<char>) -> Option<int> {
    if exists|k: int| 0 <= k < list.len() && list[k].id@ == id {
        Some(choose|k: int| 0 <= k < list.len() && list[k].id@ == id && forall|j: int| 0 <= j < k ==> list[j].id@ != id)
    } else {
        None
    }
}

/// The position of the first entry with id `id`.
fn position_of(list: &Vec<WhiteboardMeta>, id: &str) -> (r: Option<usize>)
    ensures
        match r {
            Some(k) => k < list@.len() && list@[k as int].id@ == id@ && forall|j: int| 0 <= j < k ==> list@[j].id@ != id@,
            None => forall|j: int| 0 <= j < list@.len() ==> list@[j].id@ != id@,
        },
        r matches Some(k) ==> first_with_id(list@, id@) == Some(k as int),
        r is None ==> first_with_id(list@, id@) is None,
{
    let mut i: usize = 0;
    while i < list.len()
        invariant
            i <= list@.len(),
            forall|j: int| 0 <= j < i ==> list@[j].id@ != id@,
        decreases list@.len() - i,
    {
        if str_eq(list[i].id.as_str(), id) {
            proof {
                let c = choose|k: int| 0 <= k < list@.len() && list@[k].id@ == id@ && forall|j: int| 0 <= j < k ==> list@[j].id@ != id@;
                assert(0 <= i < list@.len() && list@[i as int].id@ == id@ && forall|j: int| 0 <= j < i ==> list@[j].id@ != id@);
                if c < i {
                    assert(list@[c].id@ != id@);
                }
                if i < c {
                    assert(list@[i as int].id@ != id@);
                }
            }
            return Some(i);
        }
        i = i + 1;
    }
    None
}

/// The title a new whiteboard gets when none is given.
pub open spec fn default_title() -> Seq<char> {
    "Untitled board"@
}

/// What saving whiteboard `id` does to the index: the first entry with that
/// id gets the note id, the time and (when given) the title, keeping its id
/// and creation time; without such an entry, a new one is appended (titled
/// `Untitled board` when no title is given, created and updated `now`).
/// The entry as saved is returned.
pub fn upsert_whiteboard(list: &mut Vec<WhiteboardMeta>, id: &str, note_id: &str, title: Option<&str>, now: u64) -> (m: WhiteboardMeta)
    ensures
        match first_with_id(old(list)@, id@) {
            Some(k) => {
                &&& final(list)@.len() == old(list)@.len()
                &&& forall|j: int| 0 <= j < old(list)@.len() && j != k ==> #[trigger] final(list)@[j] == old(list)@[j]
                &&& final(list)@[k] == m
                &&& m.id == old(list)@[k].id
                &&& m.created_at == old(list)@[k].created_at
                &&& m.note_id@ == note_id@
                &&& m.updated_at == now
                &&& m.title@ == match title {
                    Some(t) => t@,
                    None => old(list)@[k].title@,
                }
            },
            None => {
                &&& final(list)@ == old(list)@.push(m)
                &&& m.id@ == id@
                &&& m.note_id@ == note_id@
                &&& m.created_at == now
                &&& m.updated_at == now
                &&& m.title@ == match title {
                    Some(t) => t@,
                    None => default_title(),
                }
            },
        },
{
    match position_of(list, id) {
        Some(k) => {
            let old_entry = clone_meta(&list[k]);
            let new_title = match title {
                Some(t) => t.to_string(),
                None => old_entry.title.clone(),
            };
            let m = WhiteboardMeta {
                id: old_entry.id.clone(),
                note_id: note_id.to_string(),
                title: new_title,
                created_at: old_entry.created_at,
                updated_at: now,
            };
            list.set(k, clone_meta(&m));
            m
        },
        None => {
            let t = match title {
                Some(t) => t.to_string(),
                None => {
                    proof {
                        reveal_strlit("Untitled board");
                    }
                    String::from_str("Untitled board")
                },
            };
            let m = WhiteboardMeta { id: id.to_string(), note_id: note_id.to_string(), title: t, created_at: now, updated_at: now };
            list.push(clone_meta(&m));
            m
        },
    }
}

/// The whiteboards of note `note_id`, in order.
pub fn list_whiteboards(list: &Vec<WhiteboardMeta>, note_id: &str) -> (r: Vec<WhiteboardMeta>)
    ensures
        r@ == list@.filter(|m: WhiteboardMeta| m.note_id@ == note_id@),
{
    let mut out: Vec<WhiteboardMeta> = Vec::new();
    let mut i: usize = 0;
    while i < list.len()
        invariant
            i <= list@.len(),
            out@ == list@.subrange(0, i as int).filter(|m: WhiteboardMeta| m.note_id@ == note_id@),
        decreases list@.len() - i,
    {
        proof {
            reveal(Seq::filter);
            assert(list@.subrange(0, i + 1).drop_last() =~= list@.subrange(0, i as int));
        }
        if str_eq(list[i].note_id.as_str(), note_id) {
            out.push(clone_meta(&list[i]));
        }
        i = i + 1;
    }
    assert(list@.subrange(0, list@.len() as int) =~= list@);
    out
}

/// The metadata of whiteboard `id` (its first entry), if indexed.
pub fn find_whiteboard(list: &Vec<WhiteboardMeta>, id: &str) -> (r: Option<WhiteboardMeta>)
    ensures
        match first_with_id(list@, id@) {
            Some(k) => r == Some(list@[k]),
            None => r is None,
        },
{
    match position_of(list, id) {
        Some(k) => Some(clone_meta(&list[k])),
        None => None,
    }
}

/// Drops the entries with id `id`; says whether any was dropped.
pub fn remove_whiteboard(list: &mut Vec<WhiteboardMeta>, id: &str) -> (changed: bool)
    ensures
        final(list)@ == old(list)@.filter(|m: WhiteboardMeta| m.id@ != id@),
        changed == (final(list)@.len() != old(list)@.len()),
{
    let ghost orig = list@;
    let mut kept: Vec<WhiteboardMeta> = Vec::new();
    let n = list.len();
    let mut i: usize = 0;
    while i < n
        invariant
            i <= n == orig.len(),
            list@ == orig,
            kept@ == orig.subrange(0, i as int).filter(|m: WhiteboardMeta| m.id@ != id@),
        decreases n - i,
    {
        proof {
            reveal(Seq::filter);
            assert(orig.subrange(0, i + 1).drop_last() =~= orig.subrange(0, i as int));
        }
        if !str_eq(list[i].id.as_str(), id) {
            kept.push(clone_meta(&list[i]));
        }
        i = i + 1;
    }
    assert(orig.subrange(0, n as int) =~= orig);
    let changed = kept.len() != n;
    *list = kept;
    changed
}

} // verus!
