//! Character-level text utilities shared by the note, search and calendar
//! logic. Strings are reasoned about through their view, the sequence of
//! Unicode scalar values.

use vstd::prelude::*;

verus! {

/// `String::push` appends one character.
pub assume_specification[ String::push ](s: &mut String, ch: char)
    ensures
        final(s)@ == old(s)@.push(ch),
;

/// The characters of `s`, in order.
pub fn chars_of(s: &str) -> (v: Vec<char>)
    ensures
        v@ == s@,
{
    let mut v: Vec<char> = Vec::new();
    for c in it: s.chars()
        invariant
            v@ == it.seq().subrange(0, it.index() as int),
            it.seq() == s@,
    {
        v.push(c);
    }
    v
}

/// A string holding exactly the characters of `v`.
pub fn string_from(v: &[char]) -> (s: String)
    ensures
        s@ == v@,
{
    let mut s = String::new();
    let mut i: usize = 0;
    while i < v.len()
        invariant
            i <= v@.len(),
            s@ == v@.subrange(0, i as int),
        decreases v@.len() - i,
    {
        s.push(v[i]);
        i = i + 1;
    }
    assert(v@.subrange(0, v@.len() as int) == v@);
    s
}

/// Whether two character sequences are equal.
pub fn chars_eq(a: &[char], b: &[char]) -> (r: bool)
    ensures
        r == (a@ == b@),
{
    if a.len() != b.len() {
        return false;
    }
    let mut i: usize = 0;
    while i < a.len()
        invariant
            i <= a@.len(),
            a@.len() == b@.len(),
            forall|k: int| 0 <= k < i ==> a@[k] == b@[k],
        decreases a@.len() - i,
    {
        if a[i] != b[i] {
            return false;
        }
        i = i + 1;
    }
    assert(a@ =~= b@);
    true
}

/// Whether two strings are equal.
pub fn str_eq(a: &str, b: &str) -> (r: bool)
    ensures
        r == (a@ == b@),
{
    let va = chars_of(a);
    let vb = chars_of(b);
    chars_eq(va.as_slice(), vb.as_slice())
}

// ── Whitespace and trimming ─────────────────────────────────────────────────

/// Unicode `White_Space` (as `char::is_whitespace`): tab to carriage return,
/// space, NEL, no-break space, ogham space, the spaces U+2000 to U+200A, line
/// and paragraph separators, narrow no-break space, medium mathematical
/// space and ideographic space.
pub open spec fn is_ws(c: char) -> bool {
    ('\u{9}' <= c <= '\u{d}') || c == ' ' || c == '\u{85}' || c == '\u{a0}' || c == '\u{1680}'
        || ('\u{2000}' <= c <= '\u{200a}') || c == '\u{2028}' || c == '\u{2029}' || c == '\u{202f}'
        || c == '\u{205f}' || c == '\u{3000}'
}

/// Whether `c` is Unicode whitespace.
pub fn is_whitespace(c: char) -> (b: bool)
    ensures
        b == is_ws(c),
{
    ('\u{9}' <= c && c <= '\u{d}') || c == ' ' || c == '\u{85}' || c == '\u{a0}' || c == '\u{1680}'
        || ('\u{2000}' <= c && c <= '\u{200a}') || c == '\u{2028}' || c == '\u{2029}' || c
        == '\u{202f}' || c == '\u{205f}' || c == '\u{3000}'
}

/// `s` without leading whitespace.
pub open spec fn trim_start(s: Seq<char>) -> Seq<char>
    decreases s.len(),
{
    if s.len() > 0 && is_ws(s[0]) {
        trim_start(s.drop_first())
    } else {
        s
    }
}

/// `s` without trailing whitespace.
pub open spec fn trim_end(s: Seq<char>) -> Seq<char>
    decreases s.len(),
{
    if s.len() > 0 && is_ws(s.last()) {
        trim_end(s.drop_last())
    } else {
        s
    }
}

/// `s` without leading and trailing whitespace (as `str::trim`).
pub open spec fn trim(s: Seq<char>) -> Seq<char> {
    trim_end(trim_start(s))
}

/// Leading whitespace of `s[from..]` ends at the returned index.
pub proof fn lemma_trim_start_from(s: Seq<char>, from: int)
    requires
        0 <= from <= s.len(),
        forall|k: int| 0 <= k < from ==> is_ws(s[k]),
    ensures
        trim_start(s) == trim_start(s.subrange(from, s.len() as int)),
    decreases from,
{
    if from > 0 {
        assert(s.drop_first() =~= s.subrange(1, s.len() as int));
        lemma_trim_start_from(s.drop_first(), from - 1);
        assert(s.drop_first().subrange(from - 1, s.drop_first().len() as int) =~= s.subrange(from, s.len() as int));
    } else {
        assert(s.subrange(0, s.len() as int) =~= s);
    }
}

proof fn lemma_trim_end_to(s: Seq<char>, to: int)
    requires
        0 <= to <= s.len(),
        forall|k: int| to <= k < s.len() ==> is_ws(s[k]),
    ensures
        trim_end(s) == trim_end(s.subrange(0, to)),
    decreases s.len() - to,
{
    if to < s.len() {
        assert(s.drop_last() =~= s.subrange(0, s.len() - 1));
        lemma_trim_end_to(s.drop_last(), to);
        assert(s.drop_last().subrange(0, to) =~= s.subrange(0, to));
    } else {
        assert(s.subrange(0, to) =~= s);
    }
}

/// Index range `[a, b)` of `v[from..to]` left after trimming whitespace at
/// both ends.
pub fn trim_range(v: &[char], from: usize, to: usize) -> (r: (usize, usize))
    requires
        from <= to <= v@.len(),
    ensures
        from <= r.0 <= r.1 <= to,
        v@.subrange(r.0 as int, r.1 as int) == trim(v@.subrange(from as int, to as int)),
        r.0 < r.1 ==> !is_ws(v@[r.0 as int]) && !is_ws(v@[r.1 - 1]),
{
    let ghost s = v@.subrange(from as int, to as int);
    let mut a = from;
    while a < to && is_whitespace(v[a])
        invariant
            from <= a <= to <= v@.len(),
            s == v@.subrange(from as int, to as int),
            forall|k: int| from <= k < a ==> is_ws(v@[k]),
        decreases to - a,
    {
        a = a + 1;
    }
    proof {
        lemma_trim_start_from(s, a - from);
        assert(s.subrange(a - from, s.len() as int) =~= v@.subrange(a as int, to as int));
        if a < to {
            assert(!is_ws(v@[a as int]));
        }
        let t = v@.subrange(a as int, to as int);
        if t.len() > 0 {
            assert(t[0] == v@[a as int]);
        }
        assert(trim_start(t) == t);
    }
    let mut b = to;
    while b > a && is_whitespace(v[b - 1])
        invariant
            from <= a <= b <= to <= v@.len(),
            forall|k: int| b <= k < to ==> is_ws(v@[k]),
        decreases b - a,
    {
        b = b - 1;
    }
    proof {
        let t = v@.subrange(a as int, to as int);
        lemma_trim_end_to(t, b - a);
        assert(t.subrange(0, b - a) =~= v@.subrange(a as int, b as int));
        let u = v@.subrange(a as int, b as int);
        if u.len() > 0 {
            assert(u.last() == v@[b - 1]);
        }
        assert(trim_end(u) == u);
    }
    (a, b)
}

/// A copy of `v[from..to]`.
pub fn chars_range(v: &[char], from: usize, to: usize) -> (r: Vec<char>)
    requires
        from <= to <= v@.len(),
    ensures
        r@ == v@.subrange(from as int, to as int),
{
    let mut r: Vec<char> = Vec::new();
    let mut k = from;
    while k < to
        invariant
            from <= k <= to <= v@.len(),
            r@ == v@.subrange(from as int, k as int),
        decreases to - k,
    {
        r.push(v[k]);
        k = k + 1;
    }
    r
}

/// The characters of `s` with leading and trailing whitespace removed.
pub fn trim_chars(v: &[char]) -> (r: Vec<char>)
    ensures
        r@ == trim(v@),
{
    let (a, b) = trim_range(v, 0, v.len());
    assert(v@.subrange(0, v@.len() as int) =~= v@);
    chars_range(v, a, b)
}

/// `s` with leading and trailing whitespace removed.
pub fn trim_str(s: &str) -> (r: String)
    ensures
        r@ == trim(s@),
{
    let v = chars_of(s);
    let t = trim_chars(v.as_slice());
    string_from(t.as_slice())
}

/// `s` with leading whitespace removed (as `str::trim_start`).
pub fn trim_start_str(s: &str) -> (r: String)
    ensures
        r@ == trim_start(s@),
{
    let v = chars_of(s);
    let mut k: usize = 0;
    assert(v@.subrange(0, v@.len() as int) =~= v@);
    while k < v.len() && is_whitespace(v[k])
        invariant
            k <= v@.len(),
            v@ == s@,
            trim_start(v@) == trim_start(v@.subrange(k as int, v@.len() as int)),
        decreases v@.len() - k,
    {
        proof {
            let t = v@.subrange(k as int, v@.len() as int);
            assert(t.drop_first() =~= v@.subrange(k + 1, v@.len() as int));
        }
        k = k + 1;
    }
    proof {
        let t = v@.subrange(k as int, v@.len() as int);
        if t.len() > 0 {
            assert(t[0] == v@[k as int]);
        }
    }
    string_from(chars_range(v.as_slice(), k, v.len()).as_slice())
}

// ── Searching ───────────────────────────────────────────────────────────────

/// Whether `needle` occurs in `hay` at position `i`.
pub open spec fn occurs_at(hay: Seq<char>, needle: Seq<char>, i: int) -> bool {
    0 <= i && i + needle.len() <= hay.len() && hay.subrange(i, i + needle.len()) == needle
}

/// The first position at which `needle` occurs in `hay` (as `str::find`,
/// counted in characters).
#[verifier::opaque]
pub open spec fn first_match(hay: Seq<char>, needle: Seq<char>) -> Option<int> {
    if exists|i: int| occurs_at(hay, needle, i) {
        Some(choose|i: int| occurs_at(hay, needle, i) && forall|j: int| 0 <= j < i ==> !occurs_at(hay, needle, j))
    } else {
        None
    }
}

/// The first match is the first position where the needle occurs.
pub proof fn lemma_first_match_at(hay: Seq<char>, needle: Seq<char>, k: int)
    requires
        occurs_at(hay, needle, k),
        forall|j: int| 0 <= j < k ==> !occurs_at(hay, needle, j),
    ensures
        first_match(hay, needle) == Some(k),
{
    reveal(first_match);
    let c = choose|i: int| occurs_at(hay, needle, i) && forall|j: int| 0 <= j < i ==> !occurs_at(hay, needle, j);
    assert(occurs_at(hay, needle, c) && forall|j: int| 0 <= j < c ==> !occurs_at(hay, needle, j));
    if c < k {
        assert(!occurs_at(hay, needle, c));
    }
    if k < c {
        assert(!occurs_at(hay, needle, k));
    }
}

/// Where `needle` occurs at `k`, it has a first occurrence.
proof fn lemma_first_occurrence_exists(hay: Seq<char>, needle: Seq<char>, k: int)
    requires
        occurs_at(hay, needle, k),
    ensures
        exists|m: int| occurs_at(hay, needle, m) && forall|j: int| 0 <= j < m ==> !occurs_at(hay, needle, j),
    decreases k,
{
    if exists|j: int| 0 <= j < k && occurs_at(hay, needle, j) {
        let j = choose|j: int| 0 <= j < k && occurs_at(hay, needle, j);
        lemma_first_occurrence_exists(hay, needle, j);
    } else {
        assert(forall|j: int| 0 <= j < k ==> !occurs_at(hay, needle, j));
    }
}

/// The first match occurs, and nothing occurs before it.
pub proof fn lemma_first_match_occurs(hay: Seq<char>, needle: Seq<char>)
    ensures
        first_match(hay, needle) matches Some(p) ==> occurs_at(hay, needle, p) && forall|j: int|
            0 <= j < p ==> !occurs_at(hay, needle, j),
{
    reveal(first_match);
    if exists|i: int| occurs_at(hay, needle, i) {
        let w = choose|i: int| occurs_at(hay, needle, i);
        lemma_first_occurrence_exists(hay, needle, w);
    }
}

/// A position in a suffix of `v` is a position in `v`, shifted.
proof fn lemma_occurs_shift(v: Seq<char>, needle: Seq<char>, from: int, j: int)
    requires
        0 <= from <= v.len(),
    ensures
        occurs_at(v.subrange(from, v.len() as int), needle, j) <==> (0 <= j && occurs_at(v, needle, from + j)),
{
    let hay = v.subrange(from, v.len() as int);
    if 0 <= j && j + needle.len() <= hay.len() {
        assert(hay.subrange(j, j + needle.len()) =~= v.subrange(from + j, from + j + needle.len()));
    }
}

/// Whether `needle` occurs in `v` at `i`.
fn matches_at(v: &[char], needle: &[char], i: usize) -> (b: bool)
    requires
        i <= v@.len(),
    ensures
        b == occurs_at(v@, needle@, i as int),
{
    let n = v.len();
    if needle.len() > n - i {
        return false;
    }
    let mut k: usize = 0;
    while k < needle.len()
        invariant
            k <= needle@.len(),
            n == v@.len(),
            i + needle@.len() <= n,
            forall|t: int| 0 <= t < k ==> v@[i + t] == needle@[t],
        decreases needle@.len() - k,
    {
        if v[i + k] != needle[k] {
            assert(v@.subrange(i as int, i + needle@.len())[k as int] != needle@[k as int]);
            return false;
        }
        k = k + 1;
    }
    assert(v@.subrange(i as int, i + needle@.len()) =~= needle@);
    true
}

/// The first position at or after `from` where `needle` occurs in `v`.
pub fn find_from(v: &[char], needle: &[char], from: usize) -> (r: Option<usize>)
    requires
        from <= v@.len(),
    ensures
        match first_match(v@.subrange(from as int, v@.len() as int), needle@) {
            Some(i) => r is Some && r->0 == from + i,
            None => r is None,
        },
        r matches Some(k) ==> occurs_at(v@, needle@, k as int) && from <= k,
{
    let ghost hay = v@.subrange(from as int, v@.len() as int);
    let n = v.len();
    let m = needle.len();
    if m > n - from {
        proof {
            assert forall|j: int| !occurs_at(hay, needle@, j) by {
                lemma_occurs_shift(v@, needle@, from as int, j);
            }
            reveal(first_match);
        }
        return None;
    }
    let last = n - m;
    let mut i = from;
    loop
        invariant
            from <= i <= last,
            last + m == n,
            n == v@.len(),
            m == needle@.len(),
            hay == v@.subrange(from as int, v@.len() as int),
            forall|j: int| 0 <= j < i - from ==> !occurs_at(hay, needle@, j),
        ensures
            forall|j: int| 0 <= j <= last - from ==> !occurs_at(hay, needle@, j),
        decreases last - i,
    {
        proof {
            lemma_occurs_shift(v@, needle@, from as int, i - from);
        }
        if matches_at(v, needle, i) {
            proof {
                lemma_first_match_at(hay, needle@, i - from);
            }
            return Some(i);
        }
        if i == last {
            break;
        }
        i = i + 1;
    }
    proof {
        assert forall|j: int| !occurs_at(hay, needle@, j) by {
            lemma_occurs_shift(v@, needle@, from as int, j);
        }
        reveal(first_match);
    }
    None
}

// ── Replacing ───────────────────────────────────────────────────────────────

/// `s` with every occurrence of `from` replaced by `to`, left to right and
/// without overlaps (as `str::replace` does for a non-empty pattern).
pub open spec fn replace_all(s: Seq<char>, from: Seq<char>, to: Seq<char>) -> Seq<char>
    decreases s.len(),
{
    if from.len() == 0 {
        s
    } else {
        match first_match(s, from) {
            None => s,
            Some(i) => {
                proof {
                    lemma_first_match_occurs(s, from);
                }
                s.subrange(0, i) + to + replace_all(s.subrange(i + from.len(), s.len() as int), from, to)
            },
        }
    }
}

/// Replaces every occurrence of `from` in `s` by `to`.
pub fn replace_text(s: &str, from: &[char], to: &[char]) -> (r: String)
    requires
        from@.len() > 0,
    ensures
        r@ == replace_all(s@, from@, to@),
{
    let v = chars_of(s);
    let n = v.len();
    let mut out: Vec<char> = Vec::new();
    let mut pos: usize = 0;
    assert(v@.subrange(0, n as int) =~= v@);
    assert(out@ + replace_all(s@, from@, to@) =~= replace_all(s@, from@, to@));
    loop
        invariant_except_break
            out@ + replace_all(v@.subrange(pos as int, n as int), from@, to@) == replace_all(s@, from@, to@),
        invariant
            pos <= n == v@.len(),
            v@ == s@,
            from@.len() > 0,
        ensures
            out@ == replace_all(s@, from@, to@),
        decreases n - pos,
    {
        let ghost rest = v@.subrange(pos as int, n as int);
        match find_from(v.as_slice(), from, pos) {
            None => {
                assert(replace_all(rest, from@, to@) == rest);
                let tail = chars_range(v.as_slice(), pos, n);
                push_chars(&mut out, tail.as_slice());
                break;
            },
            Some(i) => {
                proof {
                    lemma_first_match_occurs(rest, from@);
                }
                let ghost before = out@;
                let head = chars_range(v.as_slice(), pos, i);
                push_chars(&mut out, head.as_slice());
                push_chars(&mut out, to);
                proof {
                    assert(rest.subrange(0, i - pos) =~= v@.subrange(pos as int, i as int));
                    assert(rest.subrange(i - pos + from@.len(), rest.len() as int) =~= v@.subrange(
                        i + from@.len(),
                        n as int,
                    ));
                    assert(out@ + replace_all(v@.subrange(i + from@.len(), n as int), from@, to@) =~= before + (
                    rest.subrange(0, i - pos) + to@ + replace_all(
                        rest.subrange(i - pos + from@.len(), rest.len() as int),
                        from@,
                        to@,
                    )));
                }
                pos = i + from.len();
            },
        }
    }
    string_from(out.as_slice())
}

// ── Case mapping ────────────────────────────────────────────────────────────

/// Unicode lower-casing as `str::to_lowercase` performs it.
pub uninterp spec fn lowercase(s: Seq<char>) -> Seq<char>;

/// Calls `str::to_lowercase`. Claimed: the result is a function of the text
/// alone, named `lowercase` (Unicode's full lower-case mapping, which may
/// change the number of characters).
#[verifier::external_body]
pub(crate) fn to_lowercase(s: &str) -> (r: String)
    ensures
        r@ == lowercase(s@),
{
    s.to_lowercase()
}

/// `s` trimmed, then lower-cased (as `s.trim().to_lowercase()`).
pub fn trim_lower(s: &str) -> (r: String)
    ensures
        r@ == lowercase(trim(s@)),
{
    let t = trim_str(s);
    to_lowercase(t.as_str())
}

/// Whether `needle` occurs in `hay` (as `str::contains`).
pub open spec fn contains_text(hay: Seq<char>, needle: Seq<char>) -> bool {
    first_match(hay, needle) is Some
}

/// Whether `needle` occurs in `hay`.
pub fn contains_chars(hay: &[char], needle: &[char]) -> (b: bool)
    ensures
        b == contains_text(hay@, needle@),
{
    assert(hay@.subrange(0, hay@.len() as int) =~= hay@);
    find_from(hay, needle, 0).is_some()
}

/// The views of a list of strings.
pub open spec fn string_views(v: Seq<String>) -> Seq<Seq<char>> {
    v.map_values(|s: String| s@)
}

// ── HTML escaping ───────────────────────────────────────────────────────────

/// The escaped form of one character: `&`, `<` and `>` become entities.
pub open spec fn esc_char(c: char) -> Seq<char> {
    if c == '&' {
        seq!['&', 'a', 'm', 'p', ';']
    } else if c == '<' {
        seq!['&', 'l', 't', ';']
    } else if c == '>' {
        seq!['&', 'g', 't', ';']
    } else {
        seq![c]
    }
}

/// `s` with every `&`, `<` and `>` replaced by its entity.
pub open spec fn esc_html_spec(s: Seq<char>) -> Seq<char>
    decreases s.len(),
{
    if s.len() == 0 {
        Seq::empty()
    } else {
        esc_html_spec(s.drop_last()) + esc_char(s.last())
    }
}

/// Escaped text holds no `<` and no `>`: it cannot open or close a tag.
pub proof fn lemma_esc_html_no_tags(s: Seq<char>)
    ensures
        forall|i: int| 0 <= i < esc_html_spec(s).len() ==> esc_html_spec(s)[i] != '<' && esc_html_spec(s)[i] != '>',
    decreases s.len(),
{
    if s.len() > 0 {
        lemma_esc_html_no_tags(s.drop_last());
        let a = esc_html_spec(s.drop_last());
        let b = esc_char(s.last());
        assert forall|i: int| 0 <= i < (a + b).len() implies (a + b)[i] != '<' && (a + b)[i] != '>' by {
            if i >= a.len() {
                assert((a + b)[i] == b[i - a.len()]);
            }
        }
    }
}

/// Appends the characters of `extra` to `out`.
pub fn push_chars(out: &mut Vec<char>, extra: &[char])
    ensures
        final(out)@ == old(out)@ + extra@,
{
    let mut k: usize = 0;
    while k < extra.len()
        invariant
            k <= extra@.len(),
            out@ == old(out)@ + extra@.subrange(0, k as int),
        decreases extra@.len() - k,
    {
        out.push(extra[k]);
        k = k + 1;
    }
    assert(extra@.subrange(0, extra@.len() as int) =~= extra@);
}

/// Escapes `&`, `<` and `>` so that the text cannot inject markup.
pub fn esc_html_chars(v: &[char]) -> (r: Vec<char>)
    ensures
        r@ == esc_html_spec(v@),
{
    let mut out: Vec<char> = Vec::new();
    let mut i: usize = 0;
    while i < v.len()
        invariant
            i <= v@.len(),
            out@ == esc_html_spec(v@.subrange(0, i as int)),
        decreases v@.len() - i,
    {
        let c = v[i];
        proof {
            assert(v@.subrange(0, i + 1).drop_last() =~= v@.subrange(0, i as int));
        }
        if c == '&' {
            push_chars(&mut out, &['&', 'a', 'm', 'p', ';']);
        } else if c == '<' {
            push_chars(&mut out, &['&', 'l', 't', ';']);
        } else if c == '>' {
            push_chars(&mut out, &['&', 'g', 't', ';']);
        } else {
            out.push(c);
        }
        proof {
            assert(out@ =~= esc_html_spec(v@.subrange(0, i + 1)));
        }
        i = i + 1;
    }
    assert(v@.subrange(0, v@.len() as int) =~= v@);
    out
}

/// Escapes `&`, `<` and `>` so that the text cannot inject markup.
pub fn esc_html(s: &str) -> (r: String)
    ensures
        r@ == esc_html_spec(s@),
{
    let v = chars_of(s);
    let e = esc_html_chars(v.as_slice());
    string_from(e.as_slice())
}

} // verus!
