//! The layout of a note exported as a DOCX document: which paragraphs it
//! has and how their runs are styled. Turning the layout into a document
//! file is the caller's.

use vstd::prelude::*;
use crate::notes::{lines_of, split_lines};
use crate::text::{chars_of, string_from, push_chars, trim, trim_start, first_match, find_from, occurs_at, lemma_first_match_occurs, string_views, chars_range, is_ws, lemma_trim_start_from};

verus! {

/// Plain text.
pub const PLAIN: u8 = 0;
/// Bold text (`**…**`).
pub const BOLD: u8 = 1;
/// Italic text (`*…*`).
pub const ITALIC: u8 = 2;
/// Code (`` `…` ``), set in a monospaced font.
pub const CODE: u8 = 3;
/// The font size (half-points) of a line of a code block.
pub const CODE_SIZE: usize = 20;

/// The monospaced font that code is set in.
pub fn mono_font() -> (s: &'static str)
    ensures
        s@ == "Consolas"@,
{
    "Consolas"
}

/// The position of the first `marker` in `chars` at or after `start`.
pub open spec fn marker_at(chars: Seq<char>, start: int, marker: Seq<char>) -> Option<int> {
    match first_match(chars.subrange(start, chars.len() as int), marker) {
        Some(i) => Some(start + i),
        None => None,
    }
}

/// The position of the first `marker` in `chars` at or after `start`.
pub fn find_marker(chars: &[char], start: usize, marker: &[char]) -> (r: Option<usize>)
    requires
        start <= chars@.len(),
    ensures
        match marker_at(chars@, start as int, marker@) {
            Some(i) => r is Some && r->0 == i,
            None => r is None,
        },
        r matches Some(i) ==> occurs_at(chars@, marker@, i as int) && start <= i,
{
    find_from(chars, marker, start)
}

/// The buffered plain text as a segment, when there is any.
pub open spec fn flushed(buf: Seq<char>) -> Seq<(Seq<char>, u8)> {
    if buf.len() == 0 {
        Seq::empty()
    } else {
        seq![(buf, PLAIN)]
    }
}

/// The styled segments of `rest`, after the plain text `buf`: at each
/// position, `**…**` (bold) is tried first, then `*…*` (italic), then
/// `` `…` `` (code), each needing its closing marker further on; any other
/// character joins the plain text.
pub open spec fn segments(rest: Seq<char>, buf: Seq<char>) -> Seq<(Seq<char>, u8)>
    decreases rest.len(),
{
    if rest.len() == 0 {
        flushed(buf)
    } else if rest[0] == '*' && rest.len() > 1 && rest[1] == '*' && marker_at(rest, 2, seq!['*', '*']) is Some {
        let e = marker_at(rest, 2, seq!['*', '*'])->0;
        proof {
            lemma_first_match_occurs(rest.subrange(2, rest.len() as int), seq!['*', '*']);
        }
        flushed(buf) + seq![(rest.subrange(2, e), BOLD)] + segments(rest.subrange(e + 2, rest.len() as int), Seq::empty())
    } else if rest[0] == '*' && marker_at(rest, 1, seq!['*']) is Some {
        let e = marker_at(rest, 1, seq!['*'])->0;
        proof {
            lemma_first_match_occurs(rest.subrange(1, rest.len() as int), seq!['*']);
        }
        flushed(buf) + seq![(rest.subrange(1, e), ITALIC)] + segments(rest.subrange(e + 1, rest.len() as int), Seq::empty())
    } else if rest[0] == '`' && marker_at(rest, 1, seq!['`']) is Some {
        let e = marker_at(rest, 1, seq!['`'])->0;
        proof {
            lemma_first_match_occurs(rest.subrange(1, rest.len() as int), seq!['`']);
        }
        flushed(buf) + seq![(rest.subrange(1, e), CODE)] + segments(rest.subrange(e + 1, rest.len() as int), Seq::empty())
    } else {
        segments(rest.drop_first(), buf.push(rest[0]))
    }
}

/// The runs of a line: its segments, or one empty plain run when there are
/// none.
pub open spec fn inline_runs(s: Seq<char>) -> Seq<(Seq<char>, u8)> {
    let r = segments(s, Seq::empty());
    if r.len() == 0 {
        seq![(Seq::empty(), PLAIN)]
    } else {
        r
    }
}

/// The views of a list of runs.
pub open spec fn run_views(v: Seq<(String, u8)>) -> Seq<(Seq<char>, u8)> {
    v.map_values(|r: (String, u8)| (r.0@, r.1))
}

/// Moves the buffered plain text into `out` as a segment.
fn flush_buf(out: &mut Vec<(String, u8)>, buf: &mut Vec<char>)
    ensures
        run_views(final(out)@) == run_views(old(out)@) + flushed(old(buf)@),
        final(buf)@.len() == 0,
{
    if buf.len() > 0 {
        let s = string_from(buf.as_slice());
        let ghost before = run_views(out@);
        out.push((s, PLAIN));
        assert(run_views(out@) =~= before + flushed(old(buf)@));
        *buf = Vec::new();
    } else {
        assert(run_views(out@) =~= run_views(old(out)@) + flushed(old(buf)@));
    }
}

/// A suffix of a suffix is a suffix.
proof fn lemma_suffix(v: Seq<char>, i: int, k: int)
    requires
        0 <= i <= v.len(),
        0 <= k <= v.len() - i,
    ensures
        v.subrange(i, v.len() as int).subrange(k, v.len() - i) == v.subrange(i + k, v.len() as int),
{
    assert(v.subrange(i, v.len() as int).subrange(k, v.len() - i) =~= v.subrange(i + k, v.len() as int));
}

/// Where a marker search from `i + k` in `v` lands, relative to `v[i..]`.
proof fn lemma_marker_shift(v: Seq<char>, i: int, k: int, marker: Seq<char>)
    requires
        0 <= i <= v.len(),
        0 <= k <= v.len() - i,
    ensures
        marker_at(v.subrange(i, v.len() as int), k, marker) == match marker_at(v, i + k, marker) {
            Some(e) => Some(e - i),
            None => None::<int>,
        },
{
    lemma_suffix(v, i, k);
}

/// A bold run at `i`.
proof fn lemma_bold_step(v: Seq<char>, i: int, end: int, b: Seq<char>)
    requires
        0 <= i,
        i + 1 < v.len(),
        v[i] == '*' && v[i + 1] == '*',
        marker_at(v, i + 2, seq!['*', '*']) == Some(end),
        i + 2 <= end,
        end + 2 <= v.len(),
    ensures
        segments(v.subrange(i, v.len() as int), b) == flushed(b) + seq![(v.subrange(i + 2, end), BOLD)] + segments(
            v.subrange(end + 2, v.len() as int),
            Seq::empty(),
        ),
{
    let rest = v.subrange(i, v.len() as int);
    lemma_marker_shift(v, i, 2, seq!['*', '*']);
    assert(rest[0] == v[i] && rest[1] == v[i + 1]);
    lemma_suffix(v, i, end - i + 2);
    assert(rest.subrange(2, end - i) =~= v.subrange(i + 2, end));
}

/// An italic run at `i` (no bold run starts there).
proof fn lemma_italic_step(v: Seq<char>, i: int, end: int, b: Seq<char>)
    requires
        0 <= i < v.len(),
        v[i] == '*',
        !(i + 1 < v.len() && v[i + 1] == '*' && marker_at(v, i + 2, seq!['*', '*']) is Some),
        marker_at(v, i + 1, seq!['*']) == Some(end),
        i + 1 <= end,
        end + 1 <= v.len(),
    ensures
        segments(v.subrange(i, v.len() as int), b) == flushed(b) + seq![(v.subrange(i + 1, end), ITALIC)] + segments(
            v.subrange(end + 1, v.len() as int),
            Seq::empty(),
        ),
{
    let rest = v.subrange(i, v.len() as int);
    lemma_marker_shift(v, i, 1, seq!['*']);
    if i + 1 < v.len() {
        lemma_marker_shift(v, i, 2, seq!['*', '*']);
        assert(rest[1] == v[i + 1]);
    }
    assert(rest[0] == v[i]);
    lemma_suffix(v, i, end - i + 1);
    assert(rest.subrange(1, end - i) =~= v.subrange(i + 1, end));
}

/// A code run at `i`.
proof fn lemma_code_step(v: Seq<char>, i: int, end: int, b: Seq<char>)
    requires
        0 <= i < v.len(),
        v[i] == '`',
        marker_at(v, i + 1, seq!['`']) == Some(end),
        i + 1 <= end,
        end + 1 <= v.len(),
    ensures
        segments(v.subrange(i, v.len() as int), b) == flushed(b) + seq![(v.subrange(i + 1, end), CODE)] + segments(
            v.subrange(end + 1, v.len() as int),
            Seq::empty(),
        ),
{
    let rest = v.subrange(i, v.len() as int);
    lemma_marker_shift(v, i, 1, seq!['`']);
    assert(rest[0] == v[i]);
    lemma_suffix(v, i, end - i + 1);
    assert(rest.subrange(1, end - i) =~= v.subrange(i + 1, end));
}

/// A plain character at `i` (no run starts there).
proof fn lemma_plain_step(v: Seq<char>, i: int, b: Seq<char>)
    requires
        0 <= i < v.len(),
        !(v[i] == '*' && i + 1 < v.len() && v[i + 1] == '*' && marker_at(v, i + 2, seq!['*', '*']) is Some),
        !(v[i] == '*' && marker_at(v, i + 1, seq!['*']) is Some),
        !(v[i] == '`' && marker_at(v, i + 1, seq!['`']) is Some),
    ensures
        segments(v.subrange(i, v.len() as int), b) == segments(v.subrange(i + 1, v.len() as int), b.push(v[i])),
{
    let rest = v.subrange(i, v.len() as int);
    lemma_marker_shift(v, i, 1, seq!['*']);
    lemma_marker_shift(v, i, 1, seq!['`']);
    if i + 1 < v.len() {
        lemma_marker_shift(v, i, 2, seq!['*', '*']);
        assert(rest[1] == v[i + 1]);
    }
    assert(rest[0] == v[i]);
    lemma_suffix(v, i, 1);
    assert(rest.drop_first() =~= v.subrange(i + 1, v.len() as int));
}

/// Splits a line into styled runs (see `segments`).
pub fn parse_inline(s: &str) -> (r: Vec<(String, u8)>)
    ensures
        run_views(r@) == inline_runs(s@),
{
    let chars = chars_of(s);
    let n = chars.len();
    let mut out: Vec<(String, u8)> = Vec::new();
    let mut buf: Vec<char> = Vec::new();
    let two: [char; 2] = ['*', '*'];
    let star: [char; 1] = ['*'];
    let tick: [char; 1] = ['`'];
    assert(two@ =~= seq!['*', '*']);
    assert(star@ =~= seq!['*']);
    assert(tick@ =~= seq!['`']);
    let mut i: usize = 0;
    assert(chars@.subrange(0, n as int) =~= chars@);
    assert(run_views(out@) + segments(chars@, Seq::empty()) =~= segments(chars@, Seq::empty()));
    while i < n
        invariant
            i <= n == chars@.len(),
            chars@ == s@,
            two@ == seq!['*', '*'],
            star@ == seq!['*'],
            tick@ == seq!['`'],
            run_views(out@) + segments(chars@.subrange(i as int, n as int), buf@) == segments(s@, Seq::empty()),
        decreases n - i,
    {
        let mut bold_end: Option<usize> = None;
        if chars[i] == '*' && i + 1 < n && chars[i + 1] == '*' {
            bold_end = find_marker(chars.as_slice(), i + 2, &two);
        }
        if let Some(end) = bold_end {
            let ghost before = run_views(out@);
            let ghost b = buf@;
            proof {
                lemma_bold_step(chars@, i as int, end as int, b);
            }
            flush_buf(&mut out, &mut buf);
            let body = chars_range(chars.as_slice(), i + 2, end);
            out.push((string_from(body.as_slice()), BOLD));
            proof {
                assert(buf@ =~= Seq::<char>::empty());
                assert(run_views(out@) =~= before + flushed(b) + seq![(body@, BOLD)]);
                assert(run_views(out@) + segments(chars@.subrange(end + 2, n as int), buf@) =~= before + segments(
                    chars@.subrange(i as int, n as int),
                    b,
                ));
            }
            i = end + 2;
            continue;
        }
        let mut star_end: Option<usize> = None;
        if chars[i] == '*' {
            star_end = find_marker(chars.as_slice(), i + 1, &star);
        }
        if let Some(end) = star_end {
            let ghost before = run_views(out@);
            let ghost b = buf@;
            proof {
                lemma_italic_step(chars@, i as int, end as int, b);
            }
            flush_buf(&mut out, &mut buf);
            let body = chars_range(chars.as_slice(), i + 1, end);
            out.push((string_from(body.as_slice()), ITALIC));
            proof {
                assert(buf@ =~= Seq::<char>::empty());
                assert(run_views(out@) =~= before + flushed(b) + seq![(body@, ITALIC)]);
                assert(run_views(out@) + segments(chars@.subrange(end + 1, n as int), buf@) =~= before + segments(
                    chars@.subrange(i as int, n as int),
                    b,
                ));
            }
            i = end + 1;
            continue;
        }
        let mut tick_end: Option<usize> = None;
        if chars[i] == '`' {
            tick_end = find_marker(chars.as_slice(), i + 1, &tick);
        }
        if let Some(end) = tick_end {
            let ghost before = run_views(out@);
            let ghost b = buf@;
            proof {
                lemma_code_step(chars@, i as int, end as int, b);
            }
            flush_buf(&mut out, &mut buf);
            let body = chars_range(chars.as_slice(), i + 1, end);
            out.push((string_from(body.as_slice()), CODE));
            proof {
                assert(buf@ =~= Seq::<char>::empty());
                assert(run_views(out@) =~= before + flushed(b) + seq![(body@, CODE)]);
                assert(run_views(out@) + segments(chars@.subrange(end + 1, n as int), buf@) =~= before + segments(
                    chars@.subrange(i as int, n as int),
                    b,
                ));
            }
            i = end + 1;
            continue;
        }
        proof {
            lemma_plain_step(chars@, i as int, buf@);
        }
        buf.push(chars[i]);
        i = i + 1;
    }
    let ghost before = run_views(out@);
    let ghost b = buf@;
    flush_buf(&mut out, &mut buf);
    assert(segments(chars@.subrange(n as int, n as int), b) == flushed(b));
    if out.len() == 0 {
        out.push((String::new(), PLAIN));
        assert(run_views(out@) =~= seq![(Seq::<char>::empty(), PLAIN)]);
    }
    out
}

// ── Paragraphs ──────────────────────────────────────────────────────────────

/// A paragraph of the exported document.
pub enum DocBlock {
    /// A bold heading of the given font size (half-points).
    Heading { text: String, size: usize },
    /// A line of a fenced code block, in a monospaced font.
    Code { text: String, size: usize },
    /// A paragraph of styled runs.
    Runs { runs: Vec<(String, u8)> },
    /// An empty paragraph.
    Blank,
}

/// What a paragraph holds, as values.
pub ghost enum BlockSpec {
    Heading(Seq<char>, nat),
    Code(Seq<char>, nat),
    Runs(Seq<(Seq<char>, u8)>),
    Blank,
}

/// The value of a paragraph.
pub open spec fn block_view(b: DocBlock) -> BlockSpec {
    match b {
        DocBlock::Heading { text, size } => BlockSpec::Heading(text@, size as nat),
        DocBlock::Code { text, size } => BlockSpec::Code(text@, size as nat),
        DocBlock::Runs { runs } => BlockSpec::Runs(run_views(runs@)),
        DocBlock::Blank => BlockSpec::Blank,
    }
}

/// The values of a list of paragraphs.
pub open spec fn block_views(v: Seq<DocBlock>) -> Seq<BlockSpec> {
    v.map_values(|b: DocBlock| block_view(b))
}

/// Whether `s` starts with `p`.
pub open spec fn starts_with(s: Seq<char>, p: Seq<char>) -> bool {
    p.len() <= s.len() && s.subrange(0, p.len() as int) == p
}

/// The paragraph of one line outside a code fence: `# `, `## ` and `### `
/// headings (sizes 40, 32, 28); a list item `- ` or `* ` (after leading
/// whitespace) as `•  ` and its styled text; a blank line; otherwise the
/// line's styled runs. Inside a fence, the line as code (size 20).
pub open spec fn line_block(l: Seq<char>, in_code: bool) -> BlockSpec {
    let t = trim_start(l);
    if in_code {
        BlockSpec::Code(l, 20)
    } else if starts_with(l, "### "@) {
        BlockSpec::Heading(l.subrange(4, l.len() as int), 28)
    } else if starts_with(l, "## "@) {
        BlockSpec::Heading(l.subrange(3, l.len() as int), 32)
    } else if starts_with(l, "# "@) {
        BlockSpec::Heading(l.subrange(2, l.len() as int), 40)
    } else if starts_with(t, "- "@) || starts_with(t, "* "@) {
        BlockSpec::Runs(inline_runs(seq!['\u{2022}', ' ', ' '] + t.subrange(2, t.len() as int)))
    } else if trim(l).len() == 0 {
        BlockSpec::Blank
    } else {
        BlockSpec::Runs(inline_runs(l))
    }
}

/// The paragraphs of `lines`: a line starting (after whitespace) with
/// three backticks opens or closes a code fence and gives no paragraph.
pub open spec fn line_blocks(lines: Seq<Seq<char>>, in_code: bool) -> Seq<BlockSpec>
    decreases lines.len(),
{
    if lines.len() == 0 {
        Seq::empty()
    } else if starts_with(trim_start(lines[0]), "```"@) {
        line_blocks(lines.drop_first(), !in_code)
    } else {
        seq![line_block(lines[0], in_code)] + line_blocks(lines.drop_first(), in_code)
    }
}

/// The document of a note: the title as a heading of size 40, then the
/// paragraphs of its lines.
pub open spec fn docx_blocks(title: Seq<char>, content: Seq<char>) -> Seq<BlockSpec> {
    seq![BlockSpec::Heading(title, 40)] + line_blocks(lines_of(content), false)
}

/// `* ` and `- ` are the same list marker: outside a code fence, a line
/// that is (after leading whitespace) either marker and then `rest` gives
/// one and the same paragraph, a bullet `•  ` followed by `rest`, with
/// `rest`'s inline styles.
pub proof fn lemma_list_markers(ws: Seq<char>, rest: Seq<char>)
    requires
        forall|i: int| 0 <= i < ws.len() ==> is_ws(#[trigger] ws[i]),
    ensures
        line_block(ws + "* "@ + rest, false) == line_block(ws + "- "@ + rest, false),
        line_block(ws + "* "@ + rest, false) == BlockSpec::Runs(inline_runs(seq!['\u{2022}', ' ', ' '] + rest)),
{
    reveal_strlit("* ");
    reveal_strlit("- ");
    reveal_strlit("# ");
    reveal_strlit("## ");
    reveal_strlit("### ");
    assert("* "@ =~= seq!['*', ' ']);
    assert("- "@ =~= seq!['-', ' ']);
    lemma_list_marker_line(ws, '*', rest);
    lemma_list_marker_line(ws, '-', rest);
}

/// A line of leading whitespace, a marker character, a space and `rest`.
proof fn lemma_list_marker_line(ws: Seq<char>, mark: char, rest: Seq<char>)
    requires
        forall|i: int| 0 <= i < ws.len() ==> is_ws(#[trigger] ws[i]),
        mark == '*' || mark == '-',
    ensures
        line_block(ws + seq![mark, ' '] + rest, false) == BlockSpec::Runs(inline_runs(seq!['\u{2022}', ' ', ' '] + rest)),
{
    reveal_strlit("* ");
    reveal_strlit("- ");
    reveal_strlit("# ");
    reveal_strlit("## ");
    reveal_strlit("### ");
    let l = ws + seq![mark, ' '] + rest;
    let body = seq![mark, ' '] + rest;
    assert(l.subrange(ws.len() as int, l.len() as int) =~= body);
    lemma_trim_start_from(l, ws.len() as int);
    assert(!is_ws(mark));
    assert(body[0] == mark);
    assert(trim_start(body) == body);
    assert(trim_start(l) == body);
    assert(body.subrange(2, body.len() as int) =~= rest);
    assert(l[0] != '#') by {
        if ws.len() > 0 {
            assert(l[0] == ws[0]);
        } else {
            assert(l[0] == mark);
        }
    }
    assert(!starts_with(l, "### "@) && !starts_with(l, "## "@) && !starts_with(l, "# "@)) by {
        if starts_with(l, "# "@) {
            assert(l.subrange(0, 2)[0] == l[0]);
        }
        if starts_with(l, "## "@) {
            assert(l.subrange(0, 3)[0] == l[0]);
        }
        if starts_with(l, "### "@) {
            assert(l.subrange(0, 4)[0] == l[0]);
        }
    }
    if mark == '*' {
        assert(starts_with(body, "* "@)) by {
            assert(body.subrange(0, 2) =~= "* "@);
        }
    } else {
        assert(starts_with(body, "- "@)) by {
            assert(body.subrange(0, 2) =~= "- "@);
        }
    }
}

/// Headings and code: outside a fence, `# `, `## ` and `### ` before
/// `rest` give a heading of `rest` of size 40, 32 and 28; inside a fence
/// any line is kept whole as code of size 20.
pub proof fn lemma_heading_and_code_lines(rest: Seq<char>, l: Seq<char>)
    ensures
        line_block("# "@ + rest, false) == BlockSpec::Heading(rest, 40),
        line_block("## "@ + rest, false) == BlockSpec::Heading(rest, 32),
        line_block("### "@ + rest, false) == BlockSpec::Heading(rest, 28),
        line_block(l, true) == BlockSpec::Code(l, 20),
{
    reveal_strlit("# ");
    reveal_strlit("## ");
    reveal_strlit("### ");
    let a = "# "@ + rest;
    let b = "## "@ + rest;
    let c = "### "@ + rest;
    assert(a.subrange(0, 2) =~= "# "@);
    assert(a.subrange(2, a.len() as int) =~= rest);
    assert(!starts_with(a, "## "@)) by {
        if starts_with(a, "## "@) {
            assert(a.subrange(0, 3)[1] == a[1]);
        }
    }
    assert(!starts_with(a, "### "@)) by {
        if starts_with(a, "### "@) {
            assert(a.subrange(0, 4)[1] == a[1]);
        }
    }
    assert(b.subrange(0, 3) =~= "## "@);
    assert(b.subrange(3, b.len() as int) =~= rest);
    assert(!starts_with(b, "### "@)) by {
        if starts_with(b, "### "@) {
            assert(b.subrange(0, 4)[2] == b[2]);
        }
    }
    assert(c.subrange(0, 4) =~= "### "@);
    assert(c.subrange(4, c.len() as int) =~= rest);
}

/// Whether `s` starts with `p`.
fn has_prefix(s: &[char], p: &[char]) -> (b: bool)
    ensures
        b == starts_with(s@, p@),
{
    if p.len() > s.len() {
        return false;
    }
    let mut i: usize = 0;
    while i < p.len()
        invariant
            i <= p@.len() <= s@.len(),
            forall|k: int| 0 <= k < i ==> s@[k] == p@[k],
        decreases p@.len() - i,
    {
        if s[i] != p[i] {
            assert(s@.subrange(0, p@.len() as int)[i as int] != p@[i as int]);
            return false;
        }
        i = i + 1;
    }
    assert(s@.subrange(0, p@.len() as int) =~= p@);
    true
}

/// The paragraph of one line (see `line_block`).
fn block_of_line(l: &str, in_code: bool) -> (b: DocBlock)
    ensures
        block_view(b) == line_block(l@, in_code),
{
    let v = chars_of(l);
    if in_code {
        return DocBlock::Code { text: l.to_string(), size: CODE_SIZE };
    }
    let h3: [char; 4] = ['#', '#', '#', ' '];
    let h2: [char; 3] = ['#', '#', ' '];
    let h1: [char; 2] = ['#', ' '];
    let dash: [char; 2] = ['-', ' '];
    let star: [char; 2] = ['*', ' '];
    proof {
        reveal_strlit("### ");
        reveal_strlit("## ");
        reveal_strlit("# ");
        reveal_strlit("- ");
        reveal_strlit("* ");
        assert(h3@ =~= "### "@);
        assert(h2@ =~= "## "@);
        assert(h1@ =~= "# "@);
        assert(dash@ =~= "- "@);
        assert(star@ =~= "* "@);
    }
    if has_prefix(v.as_slice(), &h3) {
        return DocBlock::Heading { text: string_from(chars_range(v.as_slice(), 4, v.len()).as_slice()), size: 28 };
    }
    if has_prefix(v.as_slice(), &h2) {
        return DocBlock::Heading { text: string_from(chars_range(v.as_slice(), 3, v.len()).as_slice()), size: 32 };
    }
    if has_prefix(v.as_slice(), &h1) {
        return DocBlock::Heading { text: string_from(chars_range(v.as_slice(), 2, v.len()).as_slice()), size: 40 };
    }
    let t = chars_of(crate::text::trim_start_str(l).as_str());
    if has_prefix(t.as_slice(), &dash) || has_prefix(t.as_slice(), &star) {
        let mut item: Vec<char> = Vec::new();
        item.push('\u{2022}');
        item.push(' ');
        item.push(' ');
        push_chars(&mut item, chars_range(t.as_slice(), 2, t.len()).as_slice());
        assert(item@ =~= seq!['\u{2022}', ' ', ' '] + t@.subrange(2, t@.len() as int));
        let runs = parse_inline(string_from(item.as_slice()).as_str());
        return DocBlock::Runs { runs };
    }
    let trimmed = crate::text::trim_str(l);
    if trimmed.as_str().is_empty() {
        return DocBlock::Blank;
    }
    DocBlock::Runs { runs: parse_inline(l) }
}

/// The paragraphs of the DOCX export of a note (see `docx_blocks`).
pub fn build_docx(title: &str, content: &str) -> (r: Vec<DocBlock>)
    ensures
        block_views(r@) == docx_blocks(title@, content@),
{
    let lines = split_lines(content);
    let ghost lv = string_views(lines@);
    let fence: [char; 3] = ['`', '`', '`'];
    proof {
        reveal_strlit("```");
        assert(fence@ =~= "```"@);
    }
    let mut out: Vec<DocBlock> = Vec::new();
    out.push(DocBlock::Heading { text: title.to_string(), size: 40 });
    let mut in_code = false;
    let mut i: usize = 0;
    assert(lv.subrange(0, lv.len() as int) =~= lv);
    assert(block_views(out@) + line_blocks(lv.subrange(0, lv.len() as int), false) =~= docx_blocks(title@, content@));
    while i < lines.len()
        invariant
            i <= lines@.len() == lv.len(),
            lv == string_views(lines@),
            lv == lines_of(content@),
            fence@ == "```"@,
            block_views(out@) + line_blocks(lv.subrange(i as int, lv.len() as int), in_code) == docx_blocks(title@, content@),
        decreases lines@.len() - i,
    {
        let ghost rest = lv.subrange(i as int, lv.len() as int);
        assert(rest[0] == lines@[i as int]@);
        assert(rest.drop_first() =~= lv.subrange(i + 1, lv.len() as int));
        let t = chars_of(crate::text::trim_start_str(lines[i].as_str()).as_str());
        if has_prefix(t.as_slice(), &fence) {
            in_code = !in_code;
        } else {
            let ghost before = block_views(out@);
            let b = block_of_line(lines[i].as_str(), in_code);
            out.push(b);
            proof {
                assert(block_views(out@) =~= before.push(line_block(rest[0], in_code)));
                assert(block_views(out@) + line_blocks(rest.drop_first(), in_code) =~= before + (seq![line_block(rest[0], in_code)]
                    + line_blocks(rest.drop_first(), in_code)));
            }
        }
        i = i + 1;
    }
    assert(line_blocks(lv.subrange(lv.len() as int, lv.len() as int), in_code) =~= Seq::<BlockSpec>::empty());
    assert(block_views(out@) + Seq::<BlockSpec>::empty() =~= block_views(out@));
    out
}

} // verus!
