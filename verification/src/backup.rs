//! Local backups: copies of the vault directories (already encrypted) in
//! folders named `rune-backup-{time}`. Copying and removing directories is
//! the caller's; which folders are backups, their order and which to prune
//! are decided here.

use vstd::prelude::*;
use crate::order::{is_stable_sort, key_views, lemma_keyed_sort, sort_by_keys};
use crate::text::{chars_of, string_from, push_chars, string_views};

verus! {

/// What a backup run reports.
pub struct BackupResult {
    pub backup_path: String,
    pub files_copied: u32,
}

/// A backup in the list.
pub struct BackupInfo {
    pub path: String,
    pub created_at: String,
    pub size_bytes: u64,
}

/// The prefix of backup folder names.
pub open spec fn backup_prefix() -> Seq<char> {
    "rune-backup-"@
}

/// The name of a new backup folder: `rune-backup-` and the time stamp.
pub fn backup_dir_name(stamp: &str) -> (r: String)
    ensures
        r@ == backup_prefix() + stamp@,
{
    let mut v: Vec<char> = Vec::new();
    push_chars(&mut v, &['r', 'u', 'n', 'e', '-', 'b', 'a', 'c', 'k', 'u', 'p', '-']);
    push_chars(&mut v, chars_of(stamp).as_slice());
    proof {
        reveal_strlit("rune-backup-");
        assert(v@ =~= backup_prefix() + stamp@);
    }
    string_from(v.as_slice())
}

/// Whether a folder name is that of a backup.
pub open spec fn is_backup_name_spec(name: Seq<char>) -> bool {
    name.len() >= 12 && name.subrange(0, 12) == backup_prefix()
}

/// Whether a folder name is that of a backup (starts with `rune-backup-`).
pub fn is_backup_name(name: &str) -> (b: bool)
    ensures
        b == is_backup_name_spec(name@),
{
    let v = chars_of(name);
    let p: [char; 12] = ['r', 'u', 'n', 'e', '-', 'b', 'a', 'c', 'k', 'u', 'p', '-'];
    proof {
        reveal_strlit("rune-backup-");
        assert(p@ =~= backup_prefix());
    }
    if v.len() < 12 {
        return false;
    }
    let mut i: usize = 0;
    while i < 12
        invariant
            i <= 12 <= v@.len(),
            v@ == name@,
            p@ == backup_prefix(),
            forall|k: int| 0 <= k < i ==> v@[k] == p@[k],
        decreases 12 - i,
    {
        if v[i] != p[i] {
            assert(v@.subrange(0, 12)[i as int] != backup_prefix()[i as int]);
            return false;
        }
        i = i + 1;
    }
    assert(v@.subrange(0, 12) =~= backup_prefix());
    true
}

/// The backup folders among `names`, oldest first: their names hold the
/// time stamp, so the name order is the time order.
pub fn list_backup_dirs(names: &Vec<String>) -> (r: Vec<String>)
    ensures
        is_stable_sort(r@, names@.filter(|n: String| is_backup_name_spec(n@)), |n: String| n@, false),
{
    let mut kept: Vec<String> = Vec::new();
    let mut keys: Vec<Vec<char>> = Vec::new();
    let mut i: usize = 0;
    while i < names.len()
        invariant
            i <= names@.len(),
            kept@ == names@.subrange(0, i as int).filter(|n: String| is_backup_name_spec(n@)),
            key_views(keys@) == kept@.map_values(|n: String| n@),
        decreases names@.len() - i,
    {
        proof {
            reveal(Seq::filter);
            assert(names@.subrange(0, i + 1).drop_last() =~= names@.subrange(0, i as int));
        }
        if is_backup_name(names[i].as_str()) {
            let ghost old_keys = keys@;
            let ghost old_kept = kept@;
            keys.push(chars_of(names[i].as_str()));
            kept.push(names[i].clone());
            proof {
                assert(key_views(keys@) =~= key_views(old_keys).push(names@[i as int]@));
                assert(kept@.map_values(|n: String| n@) =~= old_kept.map_values(|n: String| n@).push(names@[i as int]@));
            }
        }
        i = i + 1;
    }
    assert(names@.subrange(0, names@.len() as int) =~= names@);
    let ghost u = kept@;
    let r = sort_by_keys(kept, keys, false);
    proof {
        lemma_keyed_sort(r@, u, key_views(keys@), |n: String| n@, false);
    }
    r
}

/// How many of the oldest backups to remove so that `keep_last` are left
/// (0 keeps them all).
pub fn prune_count(count: usize, keep_last: u32) -> (r: usize)
    ensures
        keep_last == 0 ==> r == 0,
        keep_last > 0 && count > keep_last ==> r == count - keep_last,
        keep_last > 0 && count <= keep_last ==> r == 0,
{
    if keep_last == 0 {
        return 0;
    }
    let keep = keep_last as usize;
    if count > keep {
        count - keep
    } else {
        0
    }
}

/// The list reversed (newest backup first).
pub fn newest_first(list: Vec<BackupInfo>) -> (r: Vec<BackupInfo>)
    ensures
        r@ == list@.reverse(),
{
    let mut rest = list;
    let ghost orig = rest@;
    let mut out: Vec<BackupInfo> = Vec::new();
    while rest.len() > 0
        invariant
            rest@.len() <= orig.len(),
            rest@ == orig.subrange(0, rest@.len() as int),
            out@ == orig.subrange(rest@.len() as int, orig.len() as int).reverse(),
        decreases rest@.len(),
    {
        let ghost k = rest@.len() - 1;
        let x = rest.pop().unwrap();
        assert(x == orig[k]);
        out.push(x);
        proof {
            assert(rest@ =~= orig.subrange(0, rest@.len() as int));
            assert(out@ =~= orig.subrange(rest@.len() as int, orig.len() as int).reverse());
        }
    }
    assert(orig.subrange(0, orig.len() as int) =~= orig);
    out
}

} // verus!
