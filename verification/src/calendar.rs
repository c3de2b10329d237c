//! The calendar view: each note with the `YYYY-MM-DD` dates found in its
//! content and its task counts.

use vstd::prelude::*;
use crate::notes::{NoteData, lines_of, clone_strings, strip_cr};
use crate::text::{chars_of, string_from, trim_start, is_ws, find_from, first_match, occurs_at, lemma_first_match_occurs, lemma_first_match_at};

verus! {

/// A note as the calendar shows it.
pub struct CalendarNote {
    pub id: String,
    pub title: String,
    pub created_at: String,
    /// The dates found in the content, each once, in order of appearance.
    pub dates: Vec<String>,
    pub tags: Vec<String>,
    pub has_tasks: bool,
    pub tasks_done: u32,
    pub tasks_total: u32,
}

/// Whether byte `b` is an ASCII digit.
pub open spec fn is_digit(b: u8) -> bool {
    48 <= b <= 57
}

/// The value of an ASCII digit.
pub open spec fn digit_value(b: u8) -> int {
    b - 48
}

/// `YYYY-MM-DD` with a month from 1 to 12 and a day from 1 to 31.
pub open spec fn date_shaped(w: Seq<u8>) -> bool {
    &&& w.len() == 10
    &&& is_digit(w[0]) && is_digit(w[1]) && is_digit(w[2]) && is_digit(w[3])
    &&& w[4] == 45 && w[7] == 45
    &&& is_digit(w[5]) && is_digit(w[6]) && is_digit(w[8]) && is_digit(w[9])
    &&& 1 <= digit_value(w[5]) * 10 + digit_value(w[6]) <= 12
    &&& 1 <= digit_value(w[8]) * 10 + digit_value(w[9]) <= 31
}

/// Whether the bytes `w` have the shape of a date (see `date_shaped`).
pub fn is_date_shaped(w: &[u8]) -> (b: bool)
    ensures
        b == date_shaped(w@),
{
    if w.len() != 10 {
        return false;
    }
    let d = |b: u8| -> (r: bool)
        ensures
            r == is_digit(b),
        { 48 <= b && b <= 57 };
    if !(d(w[0]) && d(w[1]) && d(w[2]) && d(w[3])) {
        return false;
    }
    if w[4] != 45 || w[7] != 45 {
        return false;
    }
    if !(d(w[5]) && d(w[6]) && d(w[8]) && d(w[9])) {
        return false;
    }
    let month = (w[5] - 48) * 10 + (w[6] - 48);
    let day = (w[8] - 48) * 10 + (w[9] - 48);
    1 <= month && month <= 12 && 1 <= day && day <= 31
}

/// A date starts at `p` in `b`: a date-shaped window with no digit right
/// before or right after it.
pub open spec fn date_at(b: Seq<u8>, p: int) -> bool {
    &&& 0 <= p
    &&& p + 10 <= b.len()
    &&& date_shaped(b.subrange(p, p + 10))
    &&& !(p > 0 && is_digit(b[p - 1]))
    &&& !(p + 10 < b.len() && is_digit(b[p + 10]))
}

/// The dates that start before position `n`, in order, repeats included.
pub open spec fn dates_before(b: Seq<u8>, n: int) -> Seq<Seq<u8>>
    decreases n,
{
    if n <= 0 {
        Seq::empty()
    } else {
        dates_before(b, n - 1) + if date_at(b, n - 1) {
            seq![b.subrange(n - 1, n + 9)]
        } else {
            Seq::empty()
        }
    }
}

/// `s` with every repeat of an earlier item left out.
pub open spec fn unique(s: Seq<Seq<u8>>) -> Seq<Seq<u8>> {
    crate::notes::dedup(s)
}

/// The dates a note is listed under: each date of its text once, and no
/// other.
pub proof fn lemma_dates_listed_once(b: Seq<u8>)
    ensures
        forall|i: int, j: int|
            0 <= i < j < unique(dates_before(b, b.len() as int)).len() ==> unique(dates_before(b, b.len() as int))[i]
                != unique(dates_before(b, b.len() as int))[j],
        forall|w: Seq<u8>|
            unique(dates_before(b, b.len() as int)).contains(w) <==> dates_before(b, b.len() as int).contains(w),
{
    crate::notes::lemma_dedup(dates_before(b, b.len() as int));
}

/// The characters of ASCII bytes.
pub open spec fn ascii_chars(b: Seq<u8>) -> Seq<char> {
    b.map_values(|x: u8| x as char)
}

/// No date starts inside a date: the positions 1 to 9 after the start of
/// one are not the start of another.
proof fn lemma_no_date_inside(b: Seq<u8>, p: int, k: int)
    requires
        date_at(b, p),
        1 <= k <= 9,
    ensures
        !date_at(b, p + k),
{
    let w = b.subrange(p, p + 10);
    assert(w[4] == b[p + 4] && w[7] == b[p + 7]);
    if date_at(b, p + k) {
        let v = b.subrange(p + k, p + k + 10);
        if k == 5 || k == 8 {
            // The byte before is a `-`, but the window starts with digits
            // that the date's own layout forbids.
            if k == 5 {
                assert(v[2] == b[p + 7]);
            } else {
                assert(v[2] == b[p + 10]);
                assert(is_digit(v[2]));
            }
        } else {
            assert(is_digit(b[p + k - 1])) by {
                assert(w[k - 1] == b[p + k - 1]);
            }
        }
    }
}

/// After a date at `p`, the next date can start at `p + 10` at the
/// earliest.
proof fn lemma_skip_date(b: Seq<u8>, p: int, k: int)
    requires
        date_at(b, p),
        1 <= k <= 10,
    ensures
        dates_before(b, p + k) == dates_before(b, p) + seq![b.subrange(p, p + 10)],
    decreases k,
{
    if k == 1 {
        assert(dates_before(b, p + 1) == dates_before(b, p) + seq![b.subrange(p, p + 10)]);
    } else {
        lemma_skip_date(b, p, k - 1);
        lemma_no_date_inside(b, p, k - 1);
        assert(dates_before(b, p + k) =~= dates_before(b, p + k - 1));
    }
}

/// No date starts where fewer than 10 bytes are left.
proof fn lemma_no_date_at_end(b: Seq<u8>, i: int, n: int)
    requires
        0 <= i <= n <= b.len(),
        n == b.len(),
        i + 10 > n,
    ensures
        dates_before(b, n) == dates_before(b, i),
    decreases n - i,
{
    if i < n {
        lemma_no_date_at_end(b, i + 1, n);
        assert(!date_at(b, i));
        assert(dates_before(b, i + 1) =~= dates_before(b, i));
    }
}

/// The byte views of a list of byte vectors.
pub open spec fn byte_views(v: Seq<Vec<u8>>) -> Seq<Seq<u8>> {
    v.map_values(|x: Vec<u8>| x@)
}

/// Whether `found` already holds `w`.
fn holds(found: &Vec<Vec<u8>>, w: &[u8]) -> (b: bool)
    ensures
        b == byte_views(found@).contains(w@),
{
    let mut k: usize = 0;
    while k < found.len()
        invariant
            k <= found@.len(),
            forall|t: int| 0 <= t < k ==> #[trigger] byte_views(found@)[t] != w@,
        decreases found@.len() - k,
    {
        if bytes_eq(found[k].as_slice(), w) {
            assert(byte_views(found@)[k as int] == w@);
            return true;
        }
        assert(byte_views(found@)[k as int] == found@[k as int]@);
        k = k + 1;
    }
    false
}

/// Whether two byte strings are equal.
fn bytes_eq(a: &[u8], b: &[u8]) -> (r: bool)
    ensures
        r == (a@ == b@),
{
    if a.len() != b.len() {
        return false;
    }
    let mut i: usize = 0;
    while i < a.len()
        invariant
            i <= a@.len() == b@.len(),
            forall|k: int| 0 <= k < i ==> a@[k] == b@[k],
        decreases a@.len() - i,
    {
        if a[i] != b[i] {
            return false;
        }
        i = i + 1;
    }
    assert(a@ =~= b@);
    true
}

/// The text of ASCII bytes.
fn ascii_string(w: &[u8]) -> (s: String)
    ensures
        s@ == ascii_chars(w@),
{
    let mut v: Vec<char> = Vec::new();
    let mut i: usize = 0;
    while i < w.len()
        invariant
            i <= w@.len(),
            v@ == ascii_chars(w@.subrange(0, i as int)),
        decreases w@.len() - i,
    {
        v.push(w[i] as char);
        assert(v@ =~= ascii_chars(w@.subrange(0, i + 1)));
        i = i + 1;
    }
    assert(w@.subrange(0, w@.len() as int) =~= w@);
    string_from(v.as_slice())
}

/// The dates of the content: each `YYYY-MM-DD` (month 1–12, day 1–31) not
/// touching another digit, `[[2025-06-10]]` included, once each, in order
/// of first appearance.
pub fn scan_dates(content: &str) -> (r: Vec<String>)
    ensures
        r@.map_values(|s: String| s@) == unique(dates_before(vstd::utf8::encode_utf8(content@), vstd::utf8::encode_utf8(content@).len() as int)).map_values(
            |w: Seq<u8>| ascii_chars(w),
        ),
{
    let bytes = content.as_bytes();
    let ghost b = bytes@;
    let n = bytes.len();
    let mut found: Vec<Vec<u8>> = Vec::new();
    let mut out: Vec<String> = Vec::new();
    let mut i: usize = 0;
    while n >= 10 && i <= n - 10
        invariant
            i <= n == b.len(),
            b == bytes@,
            byte_views(found@) == unique(dates_before(b, i as int)),
            out@.len() == found@.len(),
            forall|k: int| 0 <= k < out@.len() ==> (#[trigger] out@[k])@ == ascii_chars(found@[k]@),
        decreases n - i,
    {
        let w = crate::bytes::copy_range(bytes, i, i + 10);
        let ghost ds = dates_before(b, i as int);
        if is_date_shaped(w.as_slice()) {
            let prev_is_digit = i > 0 && 48 <= bytes[i - 1] && bytes[i - 1] <= 57;
            let next_is_digit = i + 10 < n && 48 <= bytes[i + 10] && bytes[i + 10] <= 57;
            if !prev_is_digit && !next_is_digit {
                proof {
                    assert(date_at(b, i as int));
                    lemma_skip_date(b, i as int, 10);
                    assert((ds + seq![w@]).drop_last() =~= ds);
                }
                if !holds(&found, w.as_slice()) {
                    let text = ascii_string(w.as_slice());
                    let ghost fv = byte_views(found@);
                    found.push(w);
                    out.push(text);
                    proof {
                        assert(byte_views(found@) =~= fv.push(b.subrange(i as int, i + 10)));
                    }
                }
                i = i + 10;
                continue;
            }
        }
        proof {
            assert(!date_at(b, i as int));
            assert(dates_before(b, i + 1) =~= ds);
        }
        i = i + 1;
    }
    proof {
        lemma_no_date_at_end(b, i as int, n as int);
        assert(out@.map_values(|s: String| s@) =~= byte_views(found@).map_values(|w: Seq<u8>| ascii_chars(w)));
    }
    out
}

/// A task line (after its leading whitespace): `-`, `*` or `+`, a space,
/// and `[ ]`, `[x]` or `[X]`.
pub open spec fn is_task(t: Seq<char>) -> bool {
    &&& t.len() >= 5
    &&& (t[0] == '-' || t[0] == '*' || t[0] == '+')
    &&& t[1] == ' '
    &&& t[2] == '['
    &&& t[4] == ']'
    &&& (t[3] == ' ' || t[3] == 'x' || t[3] == 'X')
}

/// A ticked task line.
pub open spec fn is_done_task(t: Seq<char>) -> bool {
    is_task(t) && (t[3] == 'x' || t[3] == 'X')
}

/// The number of task lines among `lines`, and of ticked ones.
pub open spec fn task_counts(lines: Seq<Seq<char>>) -> (int, int)
    decreases lines.len(),
{
    if lines.len() == 0 {
        (0, 0)
    } else {
        let (d, t) = task_counts(lines.drop_last());
        let l = trim_start(lines.last());
        (d + if is_done_task(l) { 1int } else { 0int }, t + if is_task(l) { 1int } else { 0int })
    }
}

/// A prefix of the lines holds no more tasks, nor ticked ones, than all of
/// them.
proof fn lemma_task_counts_prefix(lines: Seq<Seq<char>>, i: int)
    requires
        0 <= i <= lines.len(),
    ensures
        task_counts(lines.subrange(0, i)).0 <= task_counts(lines).0,
        task_counts(lines.subrange(0, i)).1 <= task_counts(lines).1,
    decreases lines.len() - i,
{
    if i < lines.len() {
        lemma_task_counts_prefix(lines, i + 1);
        assert(lines.subrange(0, i + 1).drop_last() =~= lines.subrange(0, i));
    } else {
        assert(lines.subrange(0, i) =~= lines);
    }
}

/// Counting never gives more than the number of lines.
proof fn lemma_task_counts_bound(lines: Seq<Seq<char>>)
    ensures
        0 <= task_counts(lines).0 <= task_counts(lines).1 <= lines.len(),
    decreases lines.len(),
{
    if lines.len() > 0 {
        lemma_task_counts_bound(lines.drop_last());
    }
}

/// The task counts of two runs of lines add up.
proof fn lemma_task_counts_concat(a: Seq<Seq<char>>, b: Seq<Seq<char>>)
    ensures
        task_counts(a + b).0 == task_counts(a).0 + task_counts(b).0,
        task_counts(a + b).1 == task_counts(a).1 + task_counts(b).1,
    decreases b.len(),
{
    if b.len() == 0 {
        assert(a + b =~= a);
    } else {
        lemma_task_counts_concat(a, b.drop_last());
        assert((a + b).drop_last() =~= a + b.drop_last());
        assert((a + b).last() == b.last());
    }
}

/// Dropping a trailing whitespace character from a text drops it from the
/// text's trimmed start (which keeps the last character, when not empty).
proof fn lemma_trim_start_drop_last(x: Seq<char>)
    requires
        x.len() > 0,
        is_ws(x.last()),
    ensures
        trim_start(x).len() > 0 ==> trim_start(x).last() == x.last() && trim_start(x.drop_last()) == trim_start(x).drop_last(),
        trim_start(x).len() == 0 ==> trim_start(x.drop_last()).len() == 0,
    decreases x.len(),
{
    if is_ws(x[0]) {
        let y = x.drop_first();
        assert(trim_start(x) == trim_start(y));
        if x.len() == 1 {
            assert(y.len() == 0);
            assert(trim_start(y) == y);
            assert(x.drop_last().len() == 0);
            assert(trim_start(x.drop_last()) == x.drop_last());
        } else {
            assert(y.last() == x.last());
            lemma_trim_start_drop_last(y);
            let z = x.drop_last();
            assert(z[0] == x[0]);
            assert(trim_start(z) == trim_start(z.drop_first()));
            assert(z.drop_first() =~= y.drop_last());
        }
    } else {
        assert(trim_start(x) == x);
        if x.len() == 1 {
            assert(x[0] == x.last());
        }
        let z = x.drop_last();
        assert(z[0] == x[0]);
        assert(trim_start(z) == z);
    }
}

/// A carriage return before the line break changes nothing about a task
/// line.
proof fn lemma_strip_cr_task(x: Seq<char>)
    ensures
        is_task(trim_start(strip_cr(x))) == is_task(trim_start(x)),
        is_done_task(trim_start(strip_cr(x))) == is_done_task(trim_start(x)),
{
    if x.len() > 0 && x.last() == '\r' {
        lemma_trim_start_drop_last(x);
        let t = trim_start(x);
        if t.len() > 0 {
            assert(t.last() == '\r');
            if t.len() >= 6 {
                assert(t.drop_last()[0] == t[0] && t.drop_last()[1] == t[1] && t.drop_last()[2] == t[2]
                    && t.drop_last()[3] == t[3] && t.drop_last()[4] == t[4]);
            }
        }
    }
}

/// The counts of one line.
proof fn lemma_task_counts_one(x: Seq<char>)
    ensures
        task_counts(seq![x]).0 == if is_done_task(trim_start(x)) { 1int } else { 0int },
        task_counts(seq![x]).1 == if is_task(trim_start(x)) { 1int } else { 0int },
{
    let one = seq![x];
    assert(one.drop_last() =~= Seq::<Seq<char>>::empty());
    assert(task_counts(one.drop_last()) == (0int, 0int));
    assert(one.last() == x);
}

/// The lines of `a`, a line break and `b`, when `a` has a line break at
/// `j` first: the line before it, then the lines of the rest.
proof fn lemma_lines_join_split(a: Seq<char>, b: Seq<char>, j: int)
    requires
        first_match(a, seq!['\n']) == Some(j),
    ensures
        0 <= j < a.len(),
        lines_of(a + seq!['\n'] + b) == seq![strip_cr(a.subrange(0, j))] + lines_of(a.subrange(j + 1, a.len() as int) + seq!['\n'] + b),
        lines_of(a) == seq![strip_cr(a.subrange(0, j))] + lines_of(a.subrange(j + 1, a.len() as int)),
{
    let nl = seq!['\n'];
    let s = a + nl + b;
    lemma_first_match_occurs(a, nl);
    assert(s.subrange(j, j + 1) =~= a.subrange(j, j + 1));
    assert forall|k: int| 0 <= k < j implies !occurs_at(s, nl, k) by {
        assert(!occurs_at(a, nl, k));
        assert(s.subrange(k, k + 1) =~= a.subrange(k, k + 1));
    }
    lemma_first_match_at(s, nl, j);
    assert(s.subrange(0, j) =~= a.subrange(0, j));
    assert(s.subrange(j + 1, s.len() as int) =~= a.subrange(j + 1, a.len() as int) + nl + b);
}

/// The lines of `a`, a line break and `b`, when `a` has no line break:
/// `a` (without a final carriage return), then the lines of `b`.
proof fn lemma_lines_join_last(a: Seq<char>, b: Seq<char>)
    requires
        first_match(a, seq!['\n']) is None,
    ensures
        lines_of(a + seq!['\n'] + b) == seq![strip_cr(a)] + lines_of(b),
        lines_of(a) == if a.len() == 0 { Seq::<Seq<char>>::empty() } else { seq![a] },
{
    let nl = seq!['\n'];
    let s = a + nl + b;
    assert(s.subrange(a.len() as int, a.len() + 1int) =~= nl);
    assert forall|k: int| 0 <= k < a.len() implies !occurs_at(s, nl, k) by {
        reveal(first_match);
        assert(!occurs_at(a, nl, k));
        assert(s.subrange(k, k + 1) =~= a.subrange(k, k + 1));
    }
    lemma_first_match_at(s, nl, a.len() as int);
    assert(s.subrange(0, a.len() as int) =~= a);
    assert(s.subrange(a.len() + 1int, s.len() as int) =~= b);
}

/// Task counts add up over joined texts: the tasks of `a`, a line break,
/// then `b` are those of `a` and those of `b`; and no text has more ticked
/// tasks than tasks.
pub proof fn lemma_task_counts_join(a: Seq<char>, b: Seq<char>)
    ensures
        task_counts(lines_of(a + seq!['\n'] + b)).0 == task_counts(lines_of(a)).0 + task_counts(lines_of(b)).0,
        task_counts(lines_of(a + seq!['\n'] + b)).1 == task_counts(lines_of(a)).1 + task_counts(lines_of(b)).1,
        0 <= task_counts(lines_of(a)).0 <= task_counts(lines_of(a)).1,
    decreases a.len(),
{
    lemma_task_counts_bound(lines_of(a));
    let nl = seq!['\n'];
    match first_match(a, nl) {
        Some(j) => {
            lemma_lines_join_split(a, b, j);
            let a2 = a.subrange(j + 1, a.len() as int);
            lemma_task_counts_join(a2, b);
            let x = strip_cr(a.subrange(0, j));
            lemma_task_counts_concat(seq![x], lines_of(a2 + nl + b));
            lemma_task_counts_concat(seq![x], lines_of(a2));
        },
        None => {
            lemma_lines_join_last(a, b);
            let x = strip_cr(a);
            lemma_task_counts_concat(seq![x], lines_of(b));
            lemma_task_counts_one(x);
            lemma_strip_cr_task(a);
            if a.len() > 0 {
                lemma_task_counts_one(a);
            } else {
                assert(x.len() == 0);
                assert(trim_start(x) == x);
            }
        },
    }
}

/// Leading whitespace of `v[from..]` ends at the returned index.
fn skip_ws(v: &[char]) -> (k: usize)
    ensures
        k <= v@.len(),
        v@.subrange(k as int, v@.len() as int) == trim_start(v@),
{
    let mut k: usize = 0;
    assert(v@.subrange(0, v@.len() as int) =~= v@);
    while k < v.len() && crate::text::is_whitespace(v[k])
        invariant
            k <= v@.len(),
            trim_start(v@) == trim_start(v@.subrange(k as int, v@.len() as int)),
        decreases v@.len() - k,
    {
        proof {
            let t = v@.subrange(k as int, v@.len() as int);
            assert(t.drop_first() =~= v@.subrange(k + 1, v@.len() as int));
        }
        k = k + 1;
    }
    proof {
        let t = v@.subrange(k as int, v@.len() as int);
        if t.len() > 0 {
            assert(t[0] == v@[k as int]);
        }
    }
    k
}

/// The task lines of the content and the ticked ones: `(done, total)`.
pub fn count_tasks(content: &str) -> (r: (u32, u32))
    requires
        task_counts(lines_of(content@)).1 <= u32::MAX,
    ensures
        r.0 == task_counts(lines_of(content@)).0,
        r.1 == task_counts(lines_of(content@)).1,
{
    let lines = crate::notes::split_lines(content);
    let ghost lv = crate::text::string_views(lines@);
    let mut done: u32 = 0;
    let mut total: u32 = 0;
    let mut i: usize = 0;
    while i < lines.len()
        invariant
            i <= lines@.len() == lv.len(),
            lv == crate::text::string_views(lines@),
            lv == lines_of(content@),
            task_counts(lv).1 <= u32::MAX,
            done == task_counts(lv.subrange(0, i as int)).0,
            total == task_counts(lv.subrange(0, i as int)).1,
        decreases lines@.len() - i,
    {
        proof {
            assert(lv.subrange(0, i + 1).drop_last() =~= lv.subrange(0, i as int));
            assert(lv.subrange(0, i + 1).last() == lines@[i as int]@);
            lemma_task_counts_bound(lv.subrange(0, i + 1));
            lemma_task_counts_prefix(lv, i + 1);
        }
        let v = chars_of(lines[i].as_str());
        let k = skip_ws(v.as_slice());
        let ghost t = v@.subrange(k as int, v@.len() as int);
        if v.len() - k >= 5 {
            let c0 = v[k];
            let c3 = v[k + 3];
            assert(t[0] == c0 && t[1] == v@[k + 1] && t[2] == v@[k + 2] && t[3] == c3 && t[4] == v@[k + 4]);
            if (c0 == '-' || c0 == '*' || c0 == '+') && v[k + 1] == ' ' && v[k + 2] == '[' && v[k + 4] == ']' && (c3 == ' '
                || c3 == 'x' || c3 == 'X') {
                total = total + 1;
                if c3 == 'x' || c3 == 'X' {
                    done = done + 1;
                }
            }
        }
        i = i + 1;
    }
    assert(lv.subrange(0, lines@.len() as int) =~= lv);
    (done, total)
}

/// The calendar entry of a note.
pub fn calendar_note(n: &NoteData) -> (c: CalendarNote)
    requires
        task_counts(lines_of(n.content@)).1 <= u32::MAX,
    ensures
        c.id == n.id,
        c.title == n.title,
        c.created_at == n.created_at,
        c.tags@ == n.tags@,
        c.dates@.map_values(|s: String| s@) == unique(dates_before(vstd::utf8::encode_utf8(n.content@), vstd::utf8::encode_utf8(n.content@).len() as int)).map_values(
            |w: Seq<u8>| ascii_chars(w),
        ),
        c.tasks_done == task_counts(lines_of(n.content@)).0,
        c.tasks_total == task_counts(lines_of(n.content@)).1,
        c.has_tasks == (c.tasks_total > 0),
{
    let dates = scan_dates(n.content.as_str());
    let (tasks_done, tasks_total) = count_tasks(n.content.as_str());
    CalendarNote {
        id: n.id.clone(),
        title: n.title.clone(),
        created_at: n.created_at.clone(),
        dates,
        tags: clone_strings(&n.tags),
        has_tasks: tasks_total > 0,
        tasks_done,
        tasks_total,
    }
}

/// The calendar entries of all notes, in order.
pub fn get_calendar_notes(notes: &Vec<NoteData>) -> (r: Vec<CalendarNote>)
    requires
        forall|i: int| 0 <= i < notes@.len() ==> task_counts(lines_of((#[trigger] notes@[i]).content@)).1 <= u32::MAX,
    ensures
        r@.len() == notes@.len(),
        forall|i: int| 0 <= i < notes@.len() ==> {
            let c = #[trigger] r@[i];
            let n = notes@[i];
            &&& c.id == n.id
            &&& c.title == n.title
            &&& c.created_at == n.created_at
            &&& c.tags@ == n.tags@
            &&& c.dates@.map_values(|s: String| s@) == unique(dates_before(vstd::utf8::encode_utf8(n.content@), vstd::utf8::encode_utf8(n.content@).len() as int)).map_values(
                |w: Seq<u8>| ascii_chars(w),
            )
            &&& c.tasks_done == task_counts(lines_of(n.content@)).0
            &&& c.tasks_total == task_counts(lines_of(n.content@)).1
            &&& c.has_tasks == (c.tasks_total > 0)
        },
{
    let mut out: Vec<CalendarNote> = Vec::new();
    let mut i: usize = 0;
    while i < notes.len()
        invariant
            i <= notes@.len(),
            forall|i: int| 0 <= i < notes@.len() ==> task_counts(lines_of((#[trigger] notes@[i]).content@)).1 <= u32::MAX,
            out@.len() == i,
            forall|k: int| 0 <= k < i ==> {
                let c = #[trigger] out@[k];
                let n = notes@[k];
                &&& c.id == n.id
                &&& c.title == n.title
                &&& c.created_at == n.created_at
                &&& c.tags@ == n.tags@
                &&& c.dates@.map_values(|s: String| s@) == unique(dates_before(vstd::utf8::encode_utf8(n.content@), vstd::utf8::encode_utf8(n.content@).len() as int)).map_values(
                    |w: Seq<u8>| ascii_chars(w),
                )
                &&& c.tasks_done == task_counts(lines_of(n.content@)).0
                &&& c.tasks_total == task_counts(lines_of(n.content@)).1
                &&& c.has_tasks == (c.tasks_total > 0)
            },
        decreases notes@.len() - i,
    {
        let c = calendar_note(&notes[i]);
        out.push(c);
        i = i + 1;
    }
    out
}

} // verus!
