//! Resilience of the vault files: the names used by atomic writes
//! (`X` is written as `X.tmp`, then renamed), what becomes of a `*.tmp` left
//! behind by a crash, and the `vault.lock` file that keeps two windows off
//! one vault. The file operations themselves are the caller's.

use vstd::prelude::*;
use crate::notes::{lines_of, split_lines, join_path, strip_cr};
use crate::text::{
    chars_of, string_from, push_chars, trim, trim_start, trim_end, trim_str, string_views, is_ws,
    first_match, occurs_at, lemma_first_match_at,
};
use crate::timeutil::{decimal, decimal_chars, digit_char};

verus! {

/// `path` with `.tmp` appended (`notes/abc.rune` becomes
/// `notes/abc.rune.tmp`), so that the final name can be read back from it.
pub fn tmp_for(path: &str) -> (r: String)
    ensures
        r@ == path@ + ".tmp"@,
{
    let mut v = chars_of(path);
    push_chars(&mut v, &['.', 't', 'm', 'p']);
    proof {
        reveal_strlit(".tmp");
        assert(v@ =~= path@ + ".tmp"@);
    }
    string_from(v.as_slice())
}

/// The position just after the last `/` of `s` (0 when there is none).
pub open spec fn name_start(s: Seq<char>) -> int
    decreases s.len(),
{
    if s.len() == 0 {
        0
    } else if s.last() == '/' {
        s.len() as int
    } else {
        name_start(s.drop_last())
    }
}

/// `name_start` lies within the text.
proof fn lemma_name_start(s: Seq<char>)
    ensures
        0 <= name_start(s) <= s.len(),
    decreases s.len(),
{
    if s.len() > 0 && s.last() != '/' {
        lemma_name_start(s.drop_last());
    }
}

/// `path` without the `/` characters that end it.
pub open spec fn without_trailing_slashes(path: Seq<char>) -> Seq<char>
    decreases path.len(),
{
    if path.len() > 0 && path.last() == '/' {
        without_trailing_slashes(path.drop_last())
    } else {
        path
    }
}

/// The final name written through `path` (a `*.tmp`): `path`, less any `/`
/// that ends it, without the `.tmp` that ends its file name (the part
/// after the last `/`); `None` when the file name does not end with
/// `.tmp`.
pub open spec fn strip_tmp_spec(path: Seq<char>) -> Option<Seq<char>> {
    let q = without_trailing_slashes(path);
    let start = name_start(q);
    let n = q.len() as int;
    if n - start >= 4 && q.subrange(n - 4, n) == ".tmp"@ {
        Some(q.subrange(0, n - 4))
    } else {
        None
    }
}

/// The final name of a leftover `*.tmp` (see `strip_tmp_spec`).
pub fn strip_tmp(path: &str) -> (r: Option<String>)
    ensures
        match strip_tmp_spec(path@) {
            Some(p) => r matches Some(s) && s@ == p,
            None => r is None,
        },
{
    let all = chars_of(path);
    let mut m = all.len();
    assert(all@.subrange(0, m as int) =~= all@);
    while m > 0 && all[m - 1] == '/'
        invariant
            m <= all@.len(),
            without_trailing_slashes(all@.subrange(0, m as int)) == without_trailing_slashes(path@),
            all@ == path@,
        decreases m,
    {
        assert(all@.subrange(0, m as int).drop_last() =~= all@.subrange(0, m - 1));
        m = m - 1;
    }
    let v = crate::text::chars_range(all.as_slice(), 0, m);
    assert(without_trailing_slashes(v@) == v@);
    let n = v.len();
    let mut start = n;
    assert(v@.subrange(0, n as int) =~= v@);
    while start > 0 && v[start - 1] != '/'
        invariant
            start <= n == v@.len(),
            name_start(v@.subrange(0, start as int)) == name_start(v@),
        decreases start,
    {
        assert(v@.subrange(0, start as int).drop_last() =~= v@.subrange(0, start - 1));
        start = start - 1;
    }
    proof {
        reveal_strlit(".tmp");
        if start > 0 {
            assert(v@.subrange(0, start as int).last() == '/');
        }
    }
    if n - start >= 4 && v[n - 4] == '.' && v[n - 3] == 't' && v[n - 2] == 'm' && v[n - 1] == 'p' {
        assert(v@.subrange(n - 4, n as int) =~= ".tmp"@);
        let base = crate::text::chars_range(v.as_slice(), 0, n - 4);
        Some(string_from(base.as_slice()))
    } else {
        proof {
            if n - start >= 4 && v@.subrange(n - 4, n as int) == ".tmp"@ {
                assert(v@.subrange(n - 4, n as int)[0] == v@[n - 4]);
                assert(v@.subrange(n - 4, n as int)[1] == v@[n - 3]);
                assert(v@.subrange(n - 4, n as int)[2] == v@[n - 2]);
                assert(v@.subrange(n - 4, n as int)[3] == v@[n - 1]);
            }
        }
        None
    }
}

/// The name of a leftover file gives back the file it was written for:
/// `strip_tmp(tmp_for(p))` is `p`.
pub proof fn lemma_strip_tmp_of_tmp_for(p: Seq<char>)
    ensures
        strip_tmp_spec(p + ".tmp"@) == Some(p),
{
    reveal_strlit(".tmp");
    let s = p + ".tmp"@;
    let n = s.len() as int;
    assert(s.last() == 'p');
    assert(without_trailing_slashes(s) == s);
    let s3 = p + seq!['.', 't', 'm'];
    let s2 = p + seq!['.', 't'];
    let s1 = p + seq!['.'];
    assert(s.drop_last() =~= s3);
    assert(s3.drop_last() =~= s2);
    assert(s2.drop_last() =~= s1);
    assert(s1.drop_last() =~= p);
    assert(s.last() == 'p');
    assert(s3.last() == 'm');
    assert(s2.last() == 't');
    assert(s1.last() == '.');
    assert(name_start(s1) == name_start(p));
    assert(name_start(s2) == name_start(s1));
    assert(name_start(s3) == name_start(s2));
    assert(name_start(s) == name_start(s3));
    lemma_name_start(p);
    assert(s.subrange(n - 4, n) =~= ".tmp"@);
    assert(s.subrange(0, n - 4) =~= p);
}

/// The subdirectories of a vault where data files (and their `*.tmp`) may
/// be: the vault directory itself, then the note, attachment and whiteboard
/// directories, each also in its duress variant.
pub open spec fn data_subdirs() -> Seq<Seq<char>> {
    seq!["notes"@, "notes_duress"@, "attachments"@, "attachments_duress"@, "whiteboards"@, "whiteboards_duress"@]
}

/// The directories to look for leftover `*.tmp` files in: `base`, then
/// `base` joined with each of `data_subdirs()`.
pub fn candidate_dirs(base: &str) -> (r: Vec<String>)
    ensures
        r@.len() == 7,
        r@[0]@ == base@,
        forall|i: int| 0 <= i < 6 ==> (#[trigger] r@[i + 1])@ == join_path(base@, data_subdirs()[i]),
{
    let mut out: Vec<String> = Vec::new();
    out.push(base.to_string());
    out.push(join_dir(base, "notes"));
    out.push(join_dir(base, "notes_duress"));
    out.push(join_dir(base, "attachments"));
    out.push(join_dir(base, "attachments_duress"));
    out.push(join_dir(base, "whiteboards"));
    out.push(join_dir(base, "whiteboards_duress"));
    out
}

/// `dir` joined with `name` (see `join_path`).
pub fn join_dir(dir: &str, name: &str) -> (r: String)
    ensures
        r@ == join_path(dir@, name@),
{
    let mut out = chars_of(dir);
    let n = out.len();
    if n > 0 && out[n - 1] != '/' {
        out.push('/');
    }
    push_chars(&mut out, chars_of(name).as_slice());
    proof {
        assert(out@ =~= join_path(dir@, name@));
    }
    string_from(out.as_slice())
}

/// What to do with a leftover `X.tmp`.
#[derive(Debug, Clone, Copy, PartialEq, Eq, Structural)]
pub enum TmpAction {
    /// Remove it.
    Delete,
    /// Rename it to `X`.
    Promote,
}

/// The decision on a leftover `X.tmp`: it is stale when `X` exists; it is
/// promoted when it is a complete data file that the vault key opens;
/// otherwise (an interrupted write, or `vault.rune`'s own format) it is
/// removed. Nothing unverifiable ever replaces a file.
pub fn tmp_action(final_exists: bool, opens_with_key: bool) -> (a: TmpAction)
    ensures
        a == (if !final_exists && opens_with_key { TmpAction::Promote } else { TmpAction::Delete }),
{
    if final_exists {
        TmpAction::Delete
    } else if opens_with_key {
        TmpAction::Promote
    } else {
        TmpAction::Delete
    }
}

// ── The lock file ───────────────────────────────────────────────────────────

/// Whether `c` is a decimal digit.
pub open spec fn is_digit_char(c: char) -> bool {
    '0' <= c <= '9'
}

/// The value of the decimal digits `d`.
pub open spec fn digits_value(d: Seq<char>) -> int
    decreases d.len(),
{
    if d.len() == 0 {
        0
    } else {
        digits_value(d.drop_last()) * 10 + (d.last() as int - '0' as int)
    }
}

/// The `u32` that `str::parse::<u32>` reads from `s`: an optional `+`, then
/// one or more decimal digits, with a value that fits.
pub open spec fn parse_u32_spec(s: Seq<char>) -> Option<u32> {
    let d = unsigned_digits(s);
    if d.len() > 0 && all_digits(d) && digits_value(d) <= u32::MAX {
        Some(digits_value(d) as u32)
    } else {
        None
    }
}

/// `s` without a leading `+`.
pub open spec fn unsigned_digits(s: Seq<char>) -> Seq<char> {
    if s.len() > 0 && s[0] == '+' {
        s.drop_first()
    } else {
        s
    }
}

/// Whether every character of `d` is a decimal digit.
pub open spec fn all_digits(d: Seq<char>) -> bool {
    forall|i: int| 0 <= i < d.len() ==> is_digit_char(#[trigger] d[i])
}

/// Digits never lower the value of what they follow.
proof fn lemma_digits_grow(d: Seq<char>, k: int)
    requires
        0 <= k <= d.len(),
        forall|i: int| 0 <= i < d.len() ==> is_digit_char(#[trigger] d[i]),
    ensures
        digits_value(d.subrange(0, k)) <= digits_value(d),
        digits_value(d) >= 0,
    decreases d.len() - k,
{
    if k < d.len() {
        lemma_digits_grow(d, k + 1);
        let p = d.subrange(0, k + 1);
        assert(p.drop_last() =~= d.subrange(0, k));
        assert(p.last() == d[k]);
        assert(is_digit_char(d[k]));
        lemma_digits_nonneg(d.subrange(0, k));
    } else {
        assert(d.subrange(0, k) =~= d);
        lemma_digits_nonneg(d);
    }
}

/// The value of digits is not negative.
proof fn lemma_digits_nonneg(d: Seq<char>)
    requires
        forall|i: int| 0 <= i < d.len() ==> is_digit_char(#[trigger] d[i]),
    ensures
        digits_value(d) >= 0,
    decreases d.len(),
{
    if d.len() > 0 {
        assert forall|i: int| 0 <= i < d.drop_last().len() implies is_digit_char(#[trigger] d.drop_last()[i]) by {
            assert(d.drop_last()[i] == d[i]);
        }
        lemma_digits_nonneg(d.drop_last());
        assert(is_digit_char(d[d.len() - 1]));
    }
}

/// Reads a `u32` as `str::parse::<u32>` does (see `parse_u32_spec`).
pub fn parse_u32(s: &str) -> (r: Option<u32>)
    ensures
        r == parse_u32_spec(s@),
{
    let v = chars_of(s);
    let n = v.len();
    let start: usize = if n > 0 && v[0] == '+' { 1 } else { 0 };
    let ghost d = unsigned_digits(s@);
    assert(d =~= v@.subrange(start as int, n as int));
    if start == n {
        return None;
    }
    let mut value: u64 = 0;
    let mut i = start;
    while i < n
        invariant
            start <= i <= n == v@.len(),
            v@ == s@,
            d == unsigned_digits(s@),
            d == v@.subrange(start as int, n as int),
            forall|k: int| 0 <= k < i - start ==> is_digit_char(#[trigger] d[k]),
            value == digits_value(d.subrange(0, i - start)),
            value <= u32::MAX,
        decreases n - i,
    {
        let c = v[i];
        if !('0' <= c && c <= '9') {
            assert(d[i - start] == c);
            assert(!is_digit_char(d[i - start]));
            return None;
        }
        proof {
            let p = d.subrange(0, i - start + 1);
            assert(p.drop_last() =~= d.subrange(0, i - start));
            assert(p.last() == c);
        }
        let dv = (c as u32 - '0' as u32) as u64;
        value = value * 10 + dv;
        if value > 0xFFFF_FFFF {
            proof {
                if all_digits(d) {
                    lemma_digits_grow(d, i - start + 1);
                }
            }
            return None;
        }
        i = i + 1;
    }
    assert(d.subrange(0, n - start) =~= d);
    Some(value as u32)
}

/// The process id recorded in a lock file: its first line, trimmed, read
/// as a `u32`.
pub open spec fn lock_owner_spec(content: Seq<char>) -> Option<u32> {
    let lines = lines_of(content);
    if lines.len() == 0 {
        None
    } else {
        parse_u32_spec(trim(lines[0]))
    }
}

/// The process id recorded in a lock file, if it holds one.
pub fn lock_owner(content: &str) -> (r: Option<u32>)
    ensures
        r == lock_owner_spec(content@),
{
    let lines = split_lines(content);
    if lines.len() == 0 {
        return None;
    }
    assert(string_views(lines@)[0] == lines@[0]@);
    let first = trim_str(lines[0].as_str());
    parse_u32(first.as_str())
}

/// The lock file of a vault directory: `vault.lock` in it.
pub fn lock_path(base: &str) -> (r: String)
    ensures
        r@ == join_path(base@, "vault.lock"@),
{
    join_dir(base, "vault.lock")
}

/// The text of a lock file: the process id, a newline, and the time.
pub fn lock_content(pid: u32, now_iso: &str) -> (r: String)
    ensures
        r@ == decimal(pid as nat) + seq!['\n'] + now_iso@,
{
    let mut out = decimal_chars(pid as u128);
    out.push('\n');
    push_chars(&mut out, chars_of(now_iso).as_slice());
    string_from(out.as_slice())
}

/// The decimal digits of `n` are digits, none of them a line break or
/// whitespace, and they read back as `n`.
proof fn lemma_decimal_digits(n: nat)
    ensures
        decimal(n).len() >= 1,
        all_digits(decimal(n)),
        digits_value(decimal(n)) == n,
    decreases n,
{
    let d = decimal(n);
    let r = (n % 10) as int;
    assert(digit_char(r) as int - '0' as int == r);
    if n < 10 {
        assert(d.drop_last() =~= Seq::<char>::empty());
        assert(d.last() == digit_char(n as int));
        assert(digits_value(d.drop_last()) == 0);
        assert(digits_value(d) == digits_value(d.drop_last()) * 10 + (d.last() as int - '0' as int));
    } else {
        lemma_decimal_digits(n / 10);
        let q = decimal(n / 10);
        assert(d.drop_last() =~= q);
        assert(d.last() == digit_char(r));
        assert(digits_value(d) == digits_value(q) * 10 + r);
        assert((n / 10) * 10 + r == n);
        assert forall|i: int| 0 <= i < d.len() implies is_digit_char(#[trigger] d[i]) by {
            if i < q.len() {
                assert(d[i] == q[i]);
            }
        }
    }
}

/// A lock file names the process that wrote it: the text that
/// `lock_content(pid, now)` writes reads back, through `lock_owner`, as
/// `pid`, whatever the time written after it.
pub proof fn lemma_lock_content_names_owner(pid: u32, now: Seq<char>)
    ensures
        lock_owner_spec(decimal(pid as nat) + seq!['\n'] + now) == Some(pid),
{
    let d = decimal(pid as nat);
    let s = d + seq!['\n'] + now;
    lemma_decimal_digits(pid as nat);
    let k = d.len() as int;
    assert(s.subrange(k, k + 1) =~= seq!['\n']);
    assert(occurs_at(s, seq!['\n'], k));
    assert forall|j: int| 0 <= j < k implies !occurs_at(s, seq!['\n'], j) by {
        assert(s.subrange(j, j + 1)[0] == s[j]);
        assert(s[j] == d[j]);
        assert(is_digit_char(d[j]));
    }
    lemma_first_match_at(s, seq!['\n'], k);
    assert(s.len() > 0);
    assert(s.subrange(0, k) =~= d);
    assert(is_digit_char(d.last()));
    assert(strip_cr(d) == d);
    assert(lines_of(s)[0] == d);
    assert(is_digit_char(d[0]));
    assert(!is_ws(d[0]));
    assert(trim_start(d) == d);
    assert(!is_ws(d.last()));
    assert(trim_end(d) == d);
    assert(trim(d) == d);
    assert(unsigned_digits(d) == d);
}

/// Whether a lock file keeps this process off the vault: it names another
/// process, and that process is alive. A lock left by a dead process, or
/// one that names no process, is taken over.
pub fn lock_blocks(owner: Option<u32>, own_pid: u32, owner_alive: bool) -> (b: bool)
    ensures
        b == (owner matches Some(pid) && pid != own_pid && owner_alive),
{
    match owner {
        Some(pid) => pid != own_pid && owner_alive,
        None => false,
    }
}

/// The message when another window holds the vault.
pub fn lock_held_message() -> (s: String)
    ensures
        s@ == "This vault is already open in another Rune window."@,
{
    String::from_str("This vault is already open in another Rune window.")
}

} // verus!
