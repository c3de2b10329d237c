//! The Kanban board: columns, and cards that place notes in them. Only the
//! assignments by note id live here; the board is stored encrypted by the
//! caller.

use vstd::prelude::*;
use crate::codec::{new_id, is_uuid_v4_text};
use crate::order::{is_stable_int_sort, sort_by_int_keys, int_stable_order, is_placed};
use crate::text::str_eq;

verus! {

/// A column of the board.
pub struct KanbanColumn {
    pub id: String,
    pub name: String,
    pub order: i32,
    pub color: Option<String>,
}

/// A note placed in a column, at a position.
pub struct KanbanCardAssignment {
    pub note_id: String,
    pub column_id: String,
    pub order: i32,
}

/// The whole board.
pub struct KanbanData {
    pub columns: Vec<KanbanColumn>,
    pub assignments: Vec<KanbanCardAssignment>,
}

/// A fresh board: the columns `To Do`, `In Progress` and `Done` (orders 0 to
/// 2, no color, fresh ids) and no cards; `None` when the system generator
/// gives no random bytes for an id.
pub fn default_kanban() -> (r: Option<KanbanData>)
    ensures
        r matches Some(kd) ==> {
            &&& kd.columns@.len() == 3
            &&& kd.columns@[0].name@ == "To Do"@
            &&& kd.columns@[1].name@ == "In Progress"@
            &&& kd.columns@[2].name@ == "Done"@
            &&& forall|i: int| 0 <= i < 3 ==> (#[trigger] kd.columns@[i]).order == i && kd.columns@[i].color is None
                && is_uuid_v4_text(kd.columns@[i].id@)
            &&& kd.assignments@.len() == 0
        },
{
    let a = new_id()?;
    let b = new_id()?;
    let c = new_id()?;
    let mut columns: Vec<KanbanColumn> = Vec::new();
    columns.push(KanbanColumn { id: a, name: String::from_str("To Do"), order: 0, color: None });
    columns.push(KanbanColumn { id: b, name: String::from_str("In Progress"), order: 1, color: None });
    columns.push(KanbanColumn { id: c, name: String::from_str("Done"), order: 2, color: None });
    Some(KanbanData { columns, assignments: Vec::new() })
}

/// A copy of a card.
pub fn clone_card(a: &KanbanCardAssignment) -> (r: KanbanCardAssignment)
    ensures
        r == *a,
{
    KanbanCardAssignment { note_id: a.note_id.clone(), column_id: a.column_id.clone(), order: a.order }
}

/// Whether note `note_id` has a card.
pub open spec fn has_card(cards: Seq<KanbanCardAssignment>, note_id: Seq<char>) -> bool {
    exists|k: int| 0 <= k < cards.len() && (#[trigger] cards[k]).note_id@ == note_id
}

/// The highest position in column `column_id`, if it has cards.
pub open spec fn max_in_column(cards: Seq<KanbanCardAssignment>, column_id: Seq<char>) -> Option<int>
    decreases cards.len(),
{
    if cards.len() == 0 {
        None
    } else {
        let prev = max_in_column(cards.drop_last(), column_id);
        let c = cards.last();
        if c.column_id@ != column_id {
            prev
        } else {
            match prev {
                Some(m) => if c.order > m {
                    Some(c.order as int)
                } else {
                    Some(m)
                },
                None => Some(c.order as int),
            }
        }
    }
}

/// No card of column `column_id` is at the last position an `i32` holds
/// (so the position after the highest one exists).
pub open spec fn column_has_room(cards: Seq<KanbanCardAssignment>, column_id: Seq<char>) -> bool {
    forall|k: int| 0 <= k < cards.len() && (#[trigger] cards[k]).column_id@ == column_id ==> cards[k].order < i32::MAX
}

/// The highest position is one of the positions in the column.
proof fn lemma_max_in_column(cards: Seq<KanbanCardAssignment>, column_id: Seq<char>)
    ensures
        max_in_column(cards, column_id) matches Some(m) ==> exists|k: int|
            0 <= k < cards.len() && (#[trigger] cards[k]).column_id@ == column_id && cards[k].order == m,
    decreases cards.len(),
{
    if cards.len() > 0 {
        lemma_max_in_column(cards.drop_last(), column_id);
        let prev = max_in_column(cards.drop_last(), column_id);
        if let Some(m) = prev {
            let k = choose|k: int| 0 <= k < cards.drop_last().len() && (#[trigger] cards.drop_last()[k]).column_id@ == column_id
                && cards.drop_last()[k].order == m;
            assert(cards[k] == cards.drop_last()[k]);
        }
        assert(cards[cards.len() - 1] == cards.last());
    }
}

/// Puts note `note_id` at the end of column `column_id` (one past its
/// highest position, or at 0 in an empty column); does nothing when the
/// note already has a card.
pub fn add_note_to_kanban(kd: &mut KanbanData, note_id: &str, column_id: &str)
    requires
        !has_card(old(kd).assignments@, note_id@) ==> column_has_room(old(kd).assignments@, column_id@),
    ensures
        final(kd).columns == old(kd).columns,
        has_card(old(kd).assignments@, note_id@) ==> final(kd).assignments@ == old(kd).assignments@,
        !has_card(old(kd).assignments@, note_id@) ==> {
            &&& final(kd).assignments@.len() == old(kd).assignments@.len() + 1
            &&& final(kd).assignments@.drop_last() == old(kd).assignments@
            &&& final(kd).assignments@.last().note_id@ == note_id@
            &&& final(kd).assignments@.last().column_id@ == column_id@
            &&& final(kd).assignments@.last().order == match max_in_column(old(kd).assignments@, column_id@) {
                Some(m) => m + 1,
                None => 0,
            }
        },
{
    let n = kd.assignments.len();
    let mut i: usize = 0;
    let mut top: Option<i32> = None;
    while i < n
        invariant
            i <= n == kd.assignments@.len(),
            kd.assignments@ == old(kd).assignments@,
            kd.columns == old(kd).columns,
            forall|k: int| 0 <= k < i ==> (#[trigger] kd.assignments@[k]).note_id@ != note_id@,
            top matches Some(t) ==> max_in_column(kd.assignments@.subrange(0, i as int), column_id@) == Some(t as int),
            top is None ==> max_in_column(kd.assignments@.subrange(0, i as int), column_id@) is None,
        decreases n - i,
    {
        proof {
            assert(kd.assignments@.subrange(0, i + 1).drop_last() =~= kd.assignments@.subrange(0, i as int));
        }
        if str_eq(kd.assignments[i].note_id.as_str(), note_id) {
            return;
        }
        if str_eq(kd.assignments[i].column_id.as_str(), column_id) {
            let o = kd.assignments[i].order;
            top = match top {
                Some(t) => if o > t { Some(o) } else { Some(t) },
                None => Some(o),
            };
        }
        i = i + 1;
    }
    assert(kd.assignments@.subrange(0, n as int) =~= kd.assignments@);
    proof {
        lemma_max_in_column(kd.assignments@, column_id@);
    }
    let order = match top {
        Some(t) => t + 1,
        None => 0,
    };
    kd.assignments.push(KanbanCardAssignment { note_id: note_id.to_string(), column_id: column_id.to_string(), order });
    assert(kd.assignments@.drop_last() =~= old(kd).assignments@);
}

/// The cards that are not of note `note_id`, in order.
pub open spec fn without_note(cards: Seq<KanbanCardAssignment>, note_id: Seq<char>) -> Seq<KanbanCardAssignment> {
    cards.filter(not_of_note(note_id))
}

/// The test "not a card of note `note_id`".
pub open spec fn not_of_note(note_id: Seq<char>) -> spec_fn(KanbanCardAssignment) -> bool {
    |a: KanbanCardAssignment| a.note_id@ != note_id
}

/// The test "in column `column_id`".
pub open spec fn of_column(column_id: Seq<char>) -> spec_fn(KanbanCardAssignment) -> bool {
    |a: KanbanCardAssignment| a.column_id@ == column_id
}

/// The test "in another column than `column_id`".
pub open spec fn off_column(column_id: Seq<char>) -> spec_fn(KanbanCardAssignment) -> bool {
    |a: KanbanCardAssignment| a.column_id@ != column_id
}

/// The cards of column `column_id`, in order.
pub open spec fn in_column(cards: Seq<KanbanCardAssignment>, column_id: Seq<char>) -> Seq<KanbanCardAssignment> {
    cards.filter(of_column(column_id))
}

/// The cards of the other columns, in order.
pub open spec fn outside_column(cards: Seq<KanbanCardAssignment>, column_id: Seq<char>) -> Seq<KanbanCardAssignment> {
    cards.filter(off_column(column_id))
}

/// The position a card is moved to: `target` brought into `0..=len`.
pub open spec fn clamp_position(target: i32, len: int) -> int {
    let t = if target < 0 { 0 } else { target as int };
    if t < len { t } else { len }
}

/// Moves the card of note `note_id` to column `target_column_id` at
/// position `target_order` (brought into `0..=` the column's length): all
/// cards of the note are taken out (the last one is the one moved); the
/// target column's cards, sorted stably by position, get the moved card
/// inserted and are renumbered `0, 1, …`; they then follow the cards of the
/// other columns, which keep their order and positions. Without a card for
/// the note, nothing changes.
pub fn move_kanban_card(kd: &mut KanbanData, note_id: &str, target_column_id: &str, target_order: i32)
    requires
        old(kd).assignments@.len() < i32::MAX,
    ensures
        final(kd).columns == old(kd).columns,
        !has_card(old(kd).assignments@, note_id@) ==> final(kd).assignments@ == old(kd).assignments@,
        has_card(old(kd).assignments@, note_id@) ==> exists|sorted: Seq<KanbanCardAssignment>, moved: KanbanCardAssignment|
            is_move_result(
                final(kd).assignments@,
                old(kd).assignments@,
                note_id@,
                target_column_id@,
                target_order,
                sorted,
                moved,
            ),
        forall|x: Seq<char>| has_card(final(kd).assignments@, x) <==> has_card(old(kd).assignments@, x),
{
    let ghost orig = kd.assignments@;
    // Take the note's cards out, remembering the last one.
    let n = kd.assignments.len();
    let mut rest: Vec<KanbanCardAssignment> = Vec::new();
    let mut moving: Option<KanbanCardAssignment> = None;
    let mut i: usize = 0;
    while i < n
        invariant
            i <= n == orig.len(),
            kd.assignments@ == orig,
            kd.columns == old(kd).columns,
            rest@ == without_note(orig.subrange(0, i as int), note_id@),
            moving matches Some(m) ==> is_last_card_of(orig.subrange(0, i as int), note_id@, m),
            moving is None ==> !has_card(orig.subrange(0, i as int), note_id@),
        decreases n - i,
    {
        proof {
            reveal(Seq::filter);
            assert(orig.subrange(0, i + 1).drop_last() =~= orig.subrange(0, i as int));
        }
        if str_eq(kd.assignments[i].note_id.as_str(), note_id) {
            moving = Some(clone_card(&kd.assignments[i]));
            proof {
                let pre = orig.subrange(0, i + 1);
                assert(pre[i as int] == orig[i as int]);
            }
        } else {
            rest.push(clone_card(&kd.assignments[i]));
            proof {
                let pre = orig.subrange(0, i + 1);
                if moving is None {
                    assert forall|k: int| 0 <= k < pre.len() implies (#[trigger] pre[k]).note_id@ != note_id@ by {
                        if k < i {
                            assert(pre[k] == orig.subrange(0, i as int)[k]);
                        }
                    }
                } else {
                    let m = moving->0;
                    let k0 = choose|k: int| 0 <= k < orig.subrange(0, i as int).len() && orig.subrange(0, i as int)[k] == m
                        && m.note_id@ == note_id@ && forall|j: int|
                        k < j < orig.subrange(0, i as int).len() ==> (#[trigger] orig.subrange(0, i as int)[j]).note_id@ != note_id@;
                    assert(pre[k0] == m);
                    assert forall|j: int| k0 < j < pre.len() implies (#[trigger] pre[j]).note_id@ != note_id@ by {
                        if j < i {
                            assert(pre[j] == orig.subrange(0, i as int)[j]);
                        }
                    }
                }
            }
        }
        i = i + 1;
    }
    assert(orig.subrange(0, n as int) =~= orig);
    let m = match moving {
        None => {
            return;
        },
        Some(m) => m,
    };
    let moved = KanbanCardAssignment { note_id: m.note_id, column_id: target_column_id.to_string(), order: m.order };
    // Split the remaining cards by column.
    let mut col: Vec<KanbanCardAssignment> = Vec::new();
    let mut keys: Vec<i64> = Vec::new();
    let mut others: Vec<KanbanCardAssignment> = Vec::new();
    let mut j: usize = 0;
    while j < rest.len()
        invariant
            j <= rest@.len(),
            rest@.len() <= orig.len() < i32::MAX,
            col@ == in_column(rest@.subrange(0, j as int), target_column_id@),
            others@ == outside_column(rest@.subrange(0, j as int), target_column_id@),
            keys@.len() == col@.len(),
            forall|t: int| 0 <= t < col@.len() ==> keys@[t] == (#[trigger] col@[t]).order as int,
        decreases rest@.len() - j,
    {
        proof {
            reveal(Seq::filter);
            assert(rest@.subrange(0, j + 1).drop_last() =~= rest@.subrange(0, j as int));
            crate::kanban::lemma_filter_len_le(rest@.subrange(0, j as int), target_column_id@);
        }
        if str_eq(rest[j].column_id.as_str(), target_column_id) {
            keys.push(rest[j].order as i64);
            col.push(clone_card(&rest[j]));
        } else {
            others.push(clone_card(&rest[j]));
        }
        j = j + 1;
    }
    assert(rest@.subrange(0, rest@.len() as int) =~= rest@);
    proof {
        lemma_without_note_len(orig, note_id@);
        lemma_filter_len_le(rest@, target_column_id@);
    }
    let ghost col_in = col@;
    let sorted = sort_by_int_keys(col, keys, Ghost(card_key()));
    let len = sorted.len();
    let idx: usize = if target_order < 0 {
        0
    } else if (target_order as usize) < len {
        target_order as usize
    } else {
        len
    };
    let ghost sorted_v = sorted@;
    let mut placed = sorted;
    placed.insert(idx, moved);
    let ghost inserted = placed@;
    // Renumber the target column and put it after the other columns.
    let mut out = others;
    let ghost base = out@;
    let mut k: usize = 0;
    while k < placed.len()
        invariant
            k <= placed@.len() == inserted.len(),
            placed@ == inserted,
            inserted.len() <= i32::MAX,
            out@.len() == base.len() + k,
            out@.subrange(0, base.len() as int) == base,
            forall|t: int| 0 <= t < k ==> is_renumbered(#[trigger] out@[base.len() + t], inserted[t], t),
        decreases placed@.len() - k,
    {
        let c = &placed[k];
        let ghost before = out@;
        out.push(KanbanCardAssignment { note_id: c.note_id.clone(), column_id: c.column_id.clone(), order: k as i32 });
        proof {
            assert(out@.subrange(0, base.len() as int) =~= before.subrange(0, base.len() as int));
            assert forall|t: int| 0 <= t < k + 1 implies is_renumbered(#[trigger] out@[base.len() + t], inserted[t], t) by {
                if t < k {
                    assert(out@[base.len() + t] == before[base.len() + t]);
                }
            }
        }
        k = k + 1;
    }
    kd.assignments = out;
    proof {
        assert(is_move_result(kd.assignments@, orig, note_id@, target_column_id@, target_order, sorted_v, moved));
        assert forall|x: Seq<char>| has_card(kd.assignments@, x) <==> has_card(orig, x) by {
            lemma_move_keeps_notes(kd.assignments@, orig, note_id@, target_column_id@, target_order, sorted_v, moved, x);
        }
    }
}

/// A card's position, the key the target column is sorted by.
pub open spec fn card_key() -> spec_fn(KanbanCardAssignment) -> int {
    |a: KanbanCardAssignment| a.order as int
}

/// `m` is the last card of note `note_id` in `cards`.
pub open spec fn is_last_card_of(cards: Seq<KanbanCardAssignment>, note_id: Seq<char>, m: KanbanCardAssignment) -> bool {
    exists|k: int|
        0 <= k < cards.len() && cards[k] == m && m.note_id@ == note_id && forall|j: int|
            k < j < cards.len() ==> (#[trigger] cards[j]).note_id@ != note_id
}

/// `c` is `src` at position `i` (note and column kept).
pub open spec fn is_renumbered(c: KanbanCardAssignment, src: KanbanCardAssignment, i: int) -> bool {
    c.note_id == src.note_id && c.column_id == src.column_id && c.order == i
}

/// The cards after a move (see `move_kanban_card`), given the target
/// column's cards sorted by position and the moved card.
pub open spec fn is_move_result(
    result: Seq<KanbanCardAssignment>,
    cards: Seq<KanbanCardAssignment>,
    note_id: Seq<char>,
    target: Seq<char>,
    target_order: i32,
    sorted: Seq<KanbanCardAssignment>,
    moved: KanbanCardAssignment,
) -> bool {
    let rest = without_note(cards, note_id);
    let col = in_column(rest, target);
    let others = outside_column(rest, target);
    let placed = sorted.insert(clamp_position(target_order, col.len() as int), moved);
    &&& exists|m: KanbanCardAssignment| is_last_card_of(cards, note_id, m) && moved.note_id == m.note_id
        && moved.order == m.order
    &&& moved.column_id@ == target
    &&& is_stable_int_sort(sorted, col, card_key())
    &&& result.len() == others.len() + placed.len()
    &&& result.subrange(0, others.len() as int) == others
    &&& forall|t: int| 0 <= t < placed.len() ==> is_renumbered(#[trigger] result[others.len() + t], placed[t], t)
}

/// Filtering keeps at most as many items.
pub proof fn lemma_filter_len_le(cards: Seq<KanbanCardAssignment>, column_id: Seq<char>)
    ensures
        in_column(cards, column_id).len() <= cards.len(),
        outside_column(cards, column_id).len() <= cards.len(),
{
    cards.lemma_filter_len(of_column(column_id));
    cards.lemma_filter_len(off_column(column_id));
}

/// Taking a note's cards out keeps at most as many cards.
proof fn lemma_without_note_len(cards: Seq<KanbanCardAssignment>, note_id: Seq<char>)
    ensures
        without_note(cards, note_id).len() <= cards.len(),
{
    cards.lemma_filter_len(not_of_note(note_id));
}

/// Takes note `note_id` off the board (the note itself stays).
pub fn remove_note_from_kanban(kd: &mut KanbanData, note_id: &str)
    ensures
        final(kd).columns == old(kd).columns,
        final(kd).assignments@ == without_note(old(kd).assignments@, note_id@),
{
    let ghost orig = kd.assignments@;
    let mut kept: Vec<KanbanCardAssignment> = Vec::new();
    let n = kd.assignments.len();
    let mut i: usize = 0;
    while i < n
        invariant
            i <= n == orig.len(),
            kd.assignments@ == orig,
            kd.columns == old(kd).columns,
            kept@ == without_note(orig.subrange(0, i as int), note_id@),
        decreases n - i,
    {
        proof {
            reveal(Seq::filter);
            assert(orig.subrange(0, i + 1).drop_last() =~= orig.subrange(0, i as int));
        }
        if !str_eq(kd.assignments[i].note_id.as_str(), note_id) {
            kept.push(clone_card(&kd.assignments[i]));
        }
        i = i + 1;
    }
    assert(orig.subrange(0, n as int) =~= orig);
    kd.assignments = kept;
}

// ── What a move keeps ───────────────────────────────────────────────────────

/// What a filter keeps is in the original, and passes the test; what passes
/// the test is kept.
proof fn lemma_filter_members<A>(s: Seq<A>, pred: spec_fn(A) -> bool)
    ensures
        forall|i: int| 0 <= i < s.filter(pred).len() ==> s.contains(#[trigger] s.filter(pred)[i]) && pred(s.filter(pred)[i]),
        forall|i: int| 0 <= i < s.len() && pred(s[i]) ==> #[trigger] s.filter(pred).contains(s[i]),
    decreases s.len(),
{
    reveal(Seq::filter);
    #[allow(deprecated)]
    s.filter_lemma(pred);
    if s.len() > 0 {
        lemma_filter_members(s.drop_last(), pred);
        let f = s.filter(pred);
        let g = s.drop_last().filter(pred);
        assert forall|i: int| 0 <= i < f.len() implies s.contains(#[trigger] f[i]) && pred(f[i]) by {
            if i < g.len() {
                assert(f[i] == g[i]);
                let k = choose|k: int| 0 <= k < s.drop_last().len() && s.drop_last()[k] == g[i];
                assert(s[k] == g[i]);
            } else {
                assert(f[i] == s.last());
                assert(s[s.len() - 1] == s.last());
            }
        }
    }
}

/// A note that has a card keeps one after a move, and no note gains one:
/// the notes on the board are the same before and after.
pub proof fn lemma_move_keeps_notes(
    result: Seq<KanbanCardAssignment>,
    cards: Seq<KanbanCardAssignment>,
    note_id: Seq<char>,
    target: Seq<char>,
    target_order: i32,
    sorted: Seq<KanbanCardAssignment>,
    moved: KanbanCardAssignment,
    x: Seq<char>,
)
    requires
        has_card(cards, note_id),
        is_move_result(result, cards, note_id, target, target_order, sorted, moved),
    ensures
        has_card(result, x) <==> has_card(cards, x),
{
    let rest = without_note(cards, note_id);
    let col = in_column(rest, target);
    let others = outside_column(rest, target);
    let p = clamp_position(target_order, col.len() as int);
    let placed = sorted.insert(p, moved);
    let np = not_of_note(note_id);
    let inc = of_column(target);
    let outc = off_column(target);
    lemma_filter_members(cards, np);
    lemma_filter_members(rest, inc);
    lemma_filter_members(rest, outc);
    let m = choose|m: KanbanCardAssignment| is_last_card_of(cards, note_id, m) && moved.note_id == m.note_id && moved.order == m.order;
    let perm = choose|perm: Seq<int>|
        #![trigger int_stable_order(col.map_values(card_key()), perm)]
        int_stable_order(col.map_values(card_key()), perm) && sorted.len() == col.len() && forall|k: int|
            0 <= k < sorted.len() ==> #[trigger] sorted[k] == col[perm[k]];
    assert(m.note_id@ == note_id);
    if has_card(result, x) {
        let k = choose|k: int| 0 <= k < result.len() && (#[trigger] result[k]).note_id@ == x;
        if k < others.len() {
            assert(result.subrange(0, others.len() as int)[k] == result[k]);
            assert(others.contains(result[k]));
            let j = choose|j: int| 0 <= j < others.len() && others[j] == result[k];
            assert(rest.contains(others[j]));
            let r = choose|r: int| 0 <= r < rest.len() && rest[r] == others[j];
            assert(cards.contains(rest[r]));
            let c = choose|c: int| 0 <= c < cards.len() && cards[c] == rest[r];
            assert(cards[c].note_id@ == x);
        } else {
            let t = k - others.len();
            assert(is_renumbered(result[others.len() + t], placed[t], t));
            if t == p {
                assert(placed[t] == moved);
            } else {
                let s_i = if t < p { t } else { t - 1 };
                assert(placed[t] == sorted[s_i]);
                assert(sorted[s_i] == col[perm[s_i]]);
                assert(rest.contains(col[perm[s_i]]));
                let r = choose|r: int| 0 <= r < rest.len() && rest[r] == col[perm[s_i]];
                assert(cards.contains(rest[r]));
                let c = choose|c: int| 0 <= c < cards.len() && cards[c] == rest[r];
                assert(cards[c].note_id@ == x);
            }
        }
    }
    if has_card(cards, x) {
        let k = choose|k: int| 0 <= k < cards.len() && (#[trigger] cards[k]).note_id@ == x;
        if x == note_id {
            assert(placed[p] == moved);
            assert(is_renumbered(result[others.len() + p], placed[p], p));
            assert(result[others.len() + p].note_id@ == x);
        } else {
            assert(np(cards[k]));
            assert(rest.contains(cards[k]));
            let r = choose|r: int| 0 <= r < rest.len() && rest[r] == cards[k];
            if cards[k].column_id@ == target {
                assert(inc(rest[r]));
                assert(col.contains(rest[r]));
                let i = choose|i: int| 0 <= i < col.len() && col[i] == rest[r];
                assert(is_placed(perm, i));
                let k2 = choose|k2: int| 0 <= k2 < perm.len() && perm[k2] == i;
                assert(sorted[k2] == col[i]);
                let t = if k2 < p { k2 } else { k2 + 1 };
                assert(placed[t] == sorted[k2]);
                assert(is_renumbered(result[others.len() + t], placed[t], t));
                assert(result[others.len() + t].note_id@ == x);
            } else {
                assert(outc(rest[r]));
                assert(others.contains(rest[r]));
                let j = choose|j: int| 0 <= j < others.len() && others[j] == rest[r];
                assert(result.subrange(0, others.len() as int)[j] == result[j]);
                assert(result[j].note_id@ == x);
            }
        }
    }
}

/// A sequence whose items fail `pred` before `k` and pass it from `k` on
/// filters to its part from `k`.
proof fn lemma_filter_split<A>(s: Seq<A>, pred: spec_fn(A) -> bool, k: int)
    requires
        0 <= k <= s.len(),
        forall|i: int| 0 <= i < k ==> !pred(#[trigger] s[i]),
        forall|i: int| k <= i < s.len() ==> pred(#[trigger] s[i]),
    ensures
        s.filter(pred) == s.subrange(k, s.len() as int),
    decreases s.len(),
{
    reveal(Seq::filter);
    if s.len() == 0 {
        assert(s.filter(pred) =~= s.subrange(k, s.len() as int));
    } else if s.len() > k {
        let d = s.drop_last();
        assert forall|i: int| 0 <= i < k implies !pred(#[trigger] d[i]) by {
            assert(d[i] == s[i]);
        }
        assert forall|i: int| k <= i < d.len() implies pred(#[trigger] d[i]) by {
            assert(d[i] == s[i]);
        }
        lemma_filter_split(d, pred, k);
        assert(pred(s[s.len() - 1]));
        assert(s.filter(pred) =~= s.subrange(k, s.len() as int));
    } else {
        let d = s.drop_last();
        assert forall|i: int| 0 <= i < k - 1 implies !pred(#[trigger] d[i]) by {
            assert(d[i] == s[i]);
        }
        lemma_filter_split(d, pred, k - 1);
        assert(!pred(s[s.len() - 1]));
        assert(s.filter(pred) =~= s.subrange(k, s.len() as int));
    }
}

/// Where a moved card lands: in the target column of the result, which holds
/// the column's other cards and the moved card, numbered `0, 1, …` in
/// order, the note has exactly one card, at position `target_order` when
/// that lies between 0 and the number of other cards in the column; first
/// for a negative `target_order`; last for a larger one.
pub proof fn lemma_move_position(
    result: Seq<KanbanCardAssignment>,
    cards: Seq<KanbanCardAssignment>,
    note_id: Seq<char>,
    target: Seq<char>,
    target_order: i32,
    sorted: Seq<KanbanCardAssignment>,
    moved: KanbanCardAssignment,
)
    requires
        has_card(cards, note_id),
        is_move_result(result, cards, note_id, target, target_order, sorted, moved),
    ensures
        in_column(result, target).len() == in_column(without_note(cards, note_id), target).len() + 1,
        forall|k: int| 0 <= k < in_column(result, target).len() ==> (#[trigger] in_column(result, target)[k]).order == k,
        forall|k1: int, k2: int|
            0 <= k1 < in_column(result, target).len() && 0 <= k2 < in_column(result, target).len()
                && (#[trigger] in_column(result, target)[k1]).note_id@ == note_id
                && (#[trigger] in_column(result, target)[k2]).note_id@ == note_id ==> k1 == k2,
        0 <= target_order <= in_column(without_note(cards, note_id), target).len() ==> in_column(result, target)[target_order as int].note_id@
            == note_id,
        target_order < 0 ==> in_column(result, target)[0].note_id@ == note_id,
        target_order > in_column(without_note(cards, note_id), target).len() ==> in_column(result, target)[in_column(
            without_note(cards, note_id),
            target,
        ).len() as int].note_id@ == note_id,
{
    let rest = without_note(cards, note_id);
    let col = in_column(rest, target);
    let others = outside_column(rest, target);
    let p = clamp_position(target_order, col.len() as int);
    let placed = sorted.insert(p, moved);
    let np = not_of_note(note_id);
    let inc = of_column(target);
    let outc = off_column(target);
    let o = others.len() as int;
    lemma_filter_members(cards, np);
    lemma_filter_members(rest, inc);
    lemma_filter_members(rest, outc);
    let m = choose|m: KanbanCardAssignment| is_last_card_of(cards, note_id, m) && moved.note_id == m.note_id && moved.order == m.order;
    assert(m.note_id@ == note_id);
    let perm = choose|perm: Seq<int>|
        #![trigger int_stable_order(col.map_values(card_key()), perm)]
        int_stable_order(col.map_values(card_key()), perm) && sorted.len() == col.len() && forall|k: int|
            0 <= k < sorted.len() ==> #[trigger] sorted[k] == col[perm[k]];
    // What each placed card is: the moved one at `p`, a card of the
    // column (not of the note) elsewhere.
    assert forall|t: int| 0 <= t < placed.len() implies (#[trigger] placed[t]).column_id@ == target && (placed[t].note_id@
        == note_id <==> t == p) by {
        if t == p {
            assert(placed[t] == moved);
        } else {
            let j = if t < p { t } else { t - 1 };
            assert(placed[t] == sorted[j]);
            assert(0 <= perm[j] < col.len());
            assert(col.contains(col[perm[j]]));
            assert(inc(col[perm[j]]));
            assert(rest.contains(col[perm[j]]));
            assert(np(col[perm[j]]));
        }
    }
    // The result is the other columns' cards, then the target column's.
    assert forall|i: int| 0 <= i < o implies !inc(#[trigger] result[i]) by {
        assert(result.subrange(0, o)[i] == result[i]);
        assert(outc(others[i]));
    }
    assert forall|i: int| o <= i < result.len() implies inc(#[trigger] result[i]) by {
        let t = i - o;
        assert(is_renumbered(result[o + t], placed[t], t));
        assert(placed[t].column_id@ == target);
    }
    lemma_filter_split(result, inc, o);
    let c = in_column(result, target);
    assert(c == result.subrange(o, result.len() as int));
    assert forall|t: int| 0 <= t < c.len() implies (#[trigger] c[t]).order == t && (c[t].note_id@ == note_id <==> t == p) by {
        assert(c[t] == result[o + t]);
        assert(is_renumbered(result[o + t], placed[t], t));
        assert(placed[t].note_id@ == note_id <==> t == p);
    }
}

/// Filtering by a weaker test first changes nothing.
proof fn lemma_filter_filter<A>(s: Seq<A>, p1: spec_fn(A) -> bool, p2: spec_fn(A) -> bool)
    requires
        forall|x: A| #[trigger] p2(x) ==> p1(x),
    ensures
        s.filter(p1).filter(p2) == s.filter(p2),
    decreases s.len(),
{
    reveal(Seq::filter);
    if s.len() > 0 {
        let d = s.drop_last();
        lemma_filter_filter(d, p1, p2);
        if p1(s.last()) {
            let f1 = s.filter(p1);
            assert(f1.drop_last() =~= d.filter(p1));
            assert(f1.last() == s.last());
        }
    }
}

/// A move leaves the other columns alone: each column other than the
/// target holds the same cards, in the same order and with the same
/// positions, as before, less the moved note's cards.
pub proof fn lemma_move_keeps_other_columns(
    result: Seq<KanbanCardAssignment>,
    cards: Seq<KanbanCardAssignment>,
    note_id: Seq<char>,
    target: Seq<char>,
    target_order: i32,
    sorted: Seq<KanbanCardAssignment>,
    moved: KanbanCardAssignment,
    column: Seq<char>,
)
    requires
        has_card(cards, note_id),
        is_move_result(result, cards, note_id, target, target_order, sorted, moved),
        column != target,
    ensures
        in_column(result, column) == in_column(without_note(cards, note_id), column),
{
    let rest = without_note(cards, note_id);
    let col = in_column(rest, target);
    let others = outside_column(rest, target);
    let p = clamp_position(target_order, col.len() as int);
    let placed = sorted.insert(p, moved);
    let inc = of_column(target);
    let outc = off_column(target);
    let here = of_column(column);
    let o = others.len() as int;
    lemma_filter_members(rest, inc);
    let perm = choose|perm: Seq<int>|
        #![trigger int_stable_order(col.map_values(card_key()), perm)]
        int_stable_order(col.map_values(card_key()), perm) && sorted.len() == col.len() && forall|k: int|
            0 <= k < sorted.len() ==> #[trigger] sorted[k] == col[perm[k]];
    let tail = result.subrange(o, result.len() as int);
    assert forall|t: int| 0 <= t < tail.len() implies !here(#[trigger] tail[t]) by {
        assert(tail[t] == result[o + t]);
        assert(is_renumbered(result[o + t], placed[t], t));
        if t != p {
            let j = if t < p { t } else { t - 1 };
            assert(placed[t] == sorted[j]);
            assert(0 <= perm[j] < col.len());
            assert(col.contains(col[perm[j]]));
        } else {
            assert(placed[t] == moved);
        }
    }
    lemma_filter_split(tail, here, tail.len() as int);
    assert(result =~= result.subrange(0, o) + tail);
    Seq::filter_distributes_over_add(result.subrange(0, o), tail, here);
    assert(tail.filter(here) =~= Seq::<KanbanCardAssignment>::empty());
    lemma_filter_filter(rest, outc, here);
    assert(in_column(result, column) =~= others.filter(here));
}

} // verus!
