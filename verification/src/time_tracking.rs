//! Time tracking: sessions of work on a note. At most one timer runs at a
//! time (starting one stops the others). The entries are stored encrypted
//! by the caller.

use vstd::prelude::*;
use crate::codec::{new_id, is_uuid_v4_text};
use crate::text::str_eq;

verus! {

/// One session of work on a note (times in Unix milliseconds).
#[derive(Debug)]
pub struct TimeEntry {
    pub id: String,
    pub note_id: String,
    pub started_at: u64,
    /// `None` while the timer runs.
    pub ended_at: Option<u64>,
    /// Set when stopped: `ended_at - started_at` (0 when the clock went
    /// back).
    pub duration_ms: u64,
}

/// All entries of a vault.
pub struct TimeTrackingData {
    pub entries: Vec<TimeEntry>,
}

/// The time spent on one note.
pub struct NoteSummary {
    pub note_id: String,
    pub total_ms: u64,
}

/// Why stopping a timer fails.
#[derive(Debug, Clone, Copy, PartialEq, Eq, Structural)]
pub enum TimerError {
    /// No timer of this note runs.
    NotRunning,
    /// The system generator gave no random bytes for an entry id.
    Random,
}

impl TimerError {
    pub open spec fn spec_message(&self) -> Seq<char> {
        match self {
            TimerError::NotRunning => "No running timer for this note"@,
            TimerError::Random => "Random number generator failed"@,
        }
    }

    /// The message shown to the user.
    pub fn message(&self) -> (s: String)
        ensures
            s@ == self.spec_message(),
    {
        match self {
            TimerError::NotRunning => String::from_str("No running timer for this note"),
            TimerError::Random => String::from_str("Random number generator failed"),
        }
    }
}

/// `a - b`, or 0 when `b` is larger.
pub open spec fn sat_sub(a: u64, b: u64) -> u64 {
    if a >= b {
        (a - b) as u64
    } else {
        0
    }
}

/// Entry `e` closed at `now`.
pub open spec fn closed_at(e: TimeEntry, now: u64) -> TimeEntry {
    TimeEntry { ended_at: Some(now), duration_ms: sat_sub(now, e.started_at), ..e }
}

/// A copy of an entry.
pub fn clone_entry(e: &TimeEntry) -> (r: TimeEntry)
    ensures
        r == *e,
{
    TimeEntry { id: e.id.clone(), note_id: e.note_id.clone(), started_at: e.started_at, ended_at: e.ended_at, duration_ms: e.duration_ms }
}

/// Stops every running entry (of any note) at `now`; says whether one was
/// running. Closed entries are left as they are.
pub fn stop_running(data: &mut TimeTrackingData, now: u64) -> (changed: bool)
    ensures
        final(data).entries@.len() == old(data).entries@.len(),
        forall|i: int| 0 <= i < old(data).entries@.len() ==> #[trigger] final(data).entries@[i] == if old(data).entries@[i].ended_at is None {
            closed_at(old(data).entries@[i], now)
        } else {
            old(data).entries@[i]
        },
        changed == exists|i: int| 0 <= i < old(data).entries@.len() && (#[trigger] old(data).entries@[i]).ended_at is None,
        forall|i: int| 0 <= i < final(data).entries@.len() ==> (#[trigger] final(data).entries@[i]).ended_at is Some,
{
    let ghost orig = data.entries@;
    let n = data.entries.len();
    let mut changed = false;
    let mut i: usize = 0;
    while i < n
        invariant
            i <= n == orig.len() == data.entries@.len(),
            forall|k: int| 0 <= k < i ==> #[trigger] data.entries@[k] == if orig[k].ended_at is None {
                closed_at(orig[k], now)
            } else {
                orig[k]
            },
            forall|k: int| i <= k < n ==> #[trigger] data.entries@[k] == orig[k],
            changed == exists|k: int| 0 <= k < i && (#[trigger] orig[k]).ended_at is None,
        decreases n - i,
    {
        if data.entries[i].ended_at.is_none() {
            let e = clone_entry(&data.entries[i]);
            let dur = if now >= e.started_at { now - e.started_at } else { 0 };
            let closed = TimeEntry { ended_at: Some(now), duration_ms: dur, ..e };
            assert(closed == closed_at(orig[i as int], now));
            data.entries.set(i, closed);
            changed = true;
        }
        i = i + 1;
    }
    changed
}

/// Starts a timer for `note_id` at `now`, stopping every running one first
/// (at most one timer runs). Returns the new entry, which is appended;
/// `Random`, with the log unchanged, when the system generator gives no
/// random bytes for its id.
pub fn start_timer(data: &mut TimeTrackingData, note_id: &str, now: u64) -> (r: Result<TimeEntry, TimerError>)
    ensures
        r matches Err(err) ==> err == TimerError::Random && final(data).entries@ == old(data).entries@,
        r matches Ok(e) ==> {
            &&& final(data).entries@.len() == old(data).entries@.len() + 1
            &&& forall|i: int| 0 <= i < old(data).entries@.len() ==> #[trigger] final(data).entries@[i] == if old(data).entries@[i].ended_at is None {
                closed_at(old(data).entries@[i], now)
            } else {
                old(data).entries@[i]
            }
            &&& final(data).entries@.last() == e
            &&& forall|i: int| 0 <= i < old(data).entries@.len() ==> (#[trigger] final(data).entries@[i]).ended_at is Some
            &&& is_uuid_v4_text(e.id@)
            &&& e.note_id@ == note_id@
            &&& e.started_at == now
            &&& e.ended_at is None
            &&& e.duration_ms == 0
        },
{
    let id = match new_id() {
        Some(id) => id,
        None => return Err(TimerError::Random),
    };
    stop_running(data, now);
    let e = TimeEntry { id, note_id: note_id.to_string(), started_at: now, ended_at: None, duration_ms: 0 };
    data.entries.push(clone_entry(&e));
    Ok(e)
}

/// The position of the first running entry of note `note_id`.
pub open spec fn first_running(entries: Seq<TimeEntry>, note_id: Seq<char>) -> Option<int>
    decreases entries.len(),
{
    if entries.len() == 0 {
        None
    } else {
        match first_running(entries.drop_last(), note_id) {
            Some(k) => Some(k),
            None => if entries.last().note_id@ == note_id && entries.last().ended_at is None {
                Some(entries.len() - 1)
            } else {
                None
            },
        }
    }
}

/// Stops the running timer of note `note_id` (its first running entry) at
/// `now` and returns the closed entry; `NotRunning` when none runs.
pub fn stop_timer(data: &mut TimeTrackingData, note_id: &str, now: u64) -> (r: Result<TimeEntry, TimerError>)
    ensures
        match first_running(old(data).entries@, note_id@) {
            Some(k) => {
                &&& final(data).entries@ == old(data).entries@.update(k, closed_at(old(data).entries@[k], now))
                &&& r == Ok::<TimeEntry, TimerError>(closed_at(old(data).entries@[k], now))
            },
            None => final(data).entries@ == old(data).entries@ && r == Err::<TimeEntry, TimerError>(TimerError::NotRunning),
        },
{
    let ghost orig = data.entries@;
    let n = data.entries.len();
    let mut i: usize = 0;
    while i < n
        invariant
            i <= n == orig.len(),
            orig == old(data).entries@,
            data.entries@ == orig,
            first_running(orig.subrange(0, i as int), note_id@) is None,
        decreases n - i,
    {
        proof {
            assert(orig.subrange(0, i + 1).drop_last() =~= orig.subrange(0, i as int));
        }
        if str_eq(data.entries[i].note_id.as_str(), note_id) && data.entries[i].ended_at.is_none() {
            proof {
                assert(first_running(orig.subrange(0, i + 1), note_id@) == Some(i as int));
                lemma_first_running_prefix(orig, note_id@, i as int + 1);
            }
            let e = clone_entry(&data.entries[i]);
            let dur = if now >= e.started_at { now - e.started_at } else { 0 };
            let closed = TimeEntry { ended_at: Some(now), duration_ms: dur, ..e };
            assert(closed == closed_at(orig[i as int], now));
            data.entries.set(i, clone_entry(&closed));
            return Ok(closed);
        }
        i = i + 1;
    }
    assert(orig.subrange(0, n as int) =~= orig);
    Err(TimerError::NotRunning)
}

/// Stopping a note's timer right after starting it closes the entry just
/// started: when every earlier entry is closed (as `start_timer` leaves
/// them), the first running entry of the note is the appended one.
pub proof fn lemma_stop_after_start(entries: Seq<TimeEntry>, e: TimeEntry)
    requires
        forall|i: int| 0 <= i < entries.len() ==> (#[trigger] entries[i]).ended_at is Some,
        e.ended_at is None,
    ensures
        first_running(entries.push(e), e.note_id@) == Some(entries.len() as int),
{
    lemma_none_running(entries, e.note_id@);
    assert(entries.push(e).drop_last() =~= entries);
}

/// A list whose entries are all closed has no running entry.
proof fn lemma_none_running(entries: Seq<TimeEntry>, note_id: Seq<char>)
    requires
        forall|i: int| 0 <= i < entries.len() ==> (#[trigger] entries[i]).ended_at is Some,
    ensures
        first_running(entries, note_id) is None,
    decreases entries.len(),
{
    if entries.len() > 0 {
        assert forall|i: int| 0 <= i < entries.drop_last().len() implies (#[trigger] entries.drop_last()[i]).ended_at is Some by {
            assert(entries.drop_last()[i] == entries[i]);
        }
        lemma_none_running(entries.drop_last(), note_id);
        assert(entries.last() == entries[entries.len() - 1]);
    }
}

/// A running entry found in a prefix is the first one of the whole list.
proof fn lemma_first_running_prefix(entries: Seq<TimeEntry>, note_id: Seq<char>, i: int)
    requires
        0 <= i <= entries.len(),
        first_running(entries.subrange(0, i), note_id) is Some,
    ensures
        first_running(entries, note_id) == first_running(entries.subrange(0, i), note_id),
    decreases entries.len() - i,
{
    if i < entries.len() {
        assert(entries.subrange(0, i + 1).drop_last() =~= entries.subrange(0, i));
        lemma_first_running_prefix(entries, note_id, i + 1);
    } else {
        assert(entries.subrange(0, i) =~= entries);
    }
}

/// Deletes the entries with id `entry_id`.
pub fn delete_time_entry(data: &mut TimeTrackingData, entry_id: &str)
    ensures
        final(data).entries@ == old(data).entries@.filter(|e: TimeEntry| e.id@ != entry_id@),
{
    let ghost orig = data.entries@;
    let mut kept: Vec<TimeEntry> = Vec::new();
    let n = data.entries.len();
    let mut i: usize = 0;
    while i < n
        invariant
            i <= n == orig.len(),
            data.entries@ == orig,
            kept@ == orig.subrange(0, i as int).filter(|e: TimeEntry| e.id@ != entry_id@),
        decreases n - i,
    {
        proof {
            reveal(Seq::filter);
            assert(orig.subrange(0, i + 1).drop_last() =~= orig.subrange(0, i as int));
        }
        if !str_eq(data.entries[i].id.as_str(), entry_id) {
            kept.push(clone_entry(&data.entries[i]));
        }
        i = i + 1;
    }
    assert(orig.subrange(0, n as int) =~= orig);
    data.entries = kept;
}

/// The time spent on `note_id`: the durations of its closed entries.
pub open spec fn total_for(entries: Seq<TimeEntry>, note_id: Seq<char>) -> int
    decreases entries.len(),
{
    if entries.len() == 0 {
        0
    } else {
        let e = entries.last();
        total_for(entries.drop_last(), note_id) + if e.note_id@ == note_id && e.ended_at is Some {
            e.duration_ms as int
        } else {
            0
        }
    }
}

/// Whether some closed entry belongs to `note_id`.
pub open spec fn has_closed(entries: Seq<TimeEntry>, note_id: Seq<char>) -> bool {
    exists|k: int| 0 <= k < entries.len() && (#[trigger] entries[k]).note_id@ == note_id && entries[k].ended_at is Some
}

/// Totals only grow along the list.
proof fn lemma_total_prefix(entries: Seq<TimeEntry>, note_id: Seq<char>, i: int)
    requires
        0 <= i <= entries.len(),
    ensures
        total_for(entries.subrange(0, i), note_id) <= total_for(entries, note_id),
    decreases entries.len() - i,
{
    if i < entries.len() {
        lemma_total_prefix(entries, note_id, i + 1);
        assert(entries.subrange(0, i + 1).drop_last() =~= entries.subrange(0, i));
    } else {
        assert(entries.subrange(0, i) =~= entries);
    }
}

/// Time per note: one summary for each note with a closed entry (running
/// entries do not count), in the order in which the notes first have a
/// closed entry, with the sum of the durations of its closed entries.
pub fn get_time_summary(data: &TimeTrackingData) -> (r: Vec<NoteSummary>)
    requires
        forall|note: Seq<char>| #[trigger] total_for(data.entries@, note) <= u64::MAX,
    ensures
        forall|k: int| 0 <= k < r@.len() ==> has_closed(data.entries@, (#[trigger] r@[k]).note_id@)
            && r@[k].total_ms == total_for(data.entries@, r@[k].note_id@),
        forall|a: int, b: int| 0 <= a < b < r@.len() ==> r@[a].note_id@ != r@[b].note_id@,
        forall|note: Seq<char>| has_closed(data.entries@, note) ==> exists|k: int| 0 <= k < r@.len() && (#[trigger] r@[k]).note_id@ == note,
{
    let entries = &data.entries;
    let n = entries.len();
    let mut out: Vec<NoteSummary> = Vec::new();
    let mut i: usize = 0;
    while i < n
        invariant
            i <= n == entries@.len(),
            entries == &data.entries,
            forall|note: Seq<char>| #[trigger] total_for(entries@, note) <= u64::MAX,
            forall|k: int| 0 <= k < out@.len() ==> has_closed(entries@.subrange(0, i as int), (#[trigger] out@[k]).note_id@)
                && out@[k].total_ms == total_for(entries@.subrange(0, i as int), out@[k].note_id@),
            forall|a: int, b: int| 0 <= a < b < out@.len() ==> out@[a].note_id@ != out@[b].note_id@,
            forall|note: Seq<char>| has_closed(entries@.subrange(0, i as int), note) ==> exists|k: int|
                0 <= k < out@.len() && (#[trigger] out@[k]).note_id@ == note,
        decreases n - i,
    {
        let ghost pre = entries@.subrange(0, i as int);
        let ghost post = entries@.subrange(0, i + 1);
        assert(post.drop_last() =~= pre);
        assert(post.last() == entries@[i as int]);
        let e = &entries[i];
        proof {
            lemma_total_prefix(entries@, e.note_id@, i + 1);
            assert forall|note: Seq<char>| has_closed(post, note) implies (has_closed(pre, note) || (note == e.note_id@ && e.ended_at is Some)) by {
                let k = choose|k: int| 0 <= k < post.len() && (#[trigger] post[k]).note_id@ == note && post[k].ended_at is Some;
                if k < i {
                    assert(pre[k] == post[k]);
                }
            }
            assert forall|note: Seq<char>| has_closed(pre, note) implies has_closed(post, note) by {
                let k = choose|k: int| 0 <= k < pre.len() && (#[trigger] pre[k]).note_id@ == note && pre[k].ended_at is Some;
                assert(post[k] == pre[k]);
            }
        }
        if e.ended_at.is_some() {
            // Find the note's summary, if it has one.
            let mut j: usize = 0;
            let mut found = false;
            while j < out.len()
                invariant_except_break
                    !found,
                invariant
                    j <= out@.len(),
                    forall|t: int| 0 <= t < j ==> (#[trigger] out@[t]).note_id@ != e.note_id@,
                ensures
                    found ==> j < out@.len() && out@[j as int].note_id@ == e.note_id@,
                    !found ==> forall|t: int| 0 <= t < out@.len() ==> (#[trigger] out@[t]).note_id@ != e.note_id@,
                decreases out@.len() - j,
            {
                if str_eq(out[j].note_id.as_str(), e.note_id.as_str()) {
                    found = true;
                    break;
                }
                j = j + 1;
            }
            if found {
                let ghost before = out@;
                let total = out[j].total_ms + e.duration_ms;
                let s = NoteSummary { note_id: out[j].note_id.clone(), total_ms: total };
                out.set(j, s);
                proof {
                    assert forall|k: int| 0 <= k < out@.len() implies has_closed(post, (#[trigger] out@[k]).note_id@)
                        && out@[k].total_ms == total_for(post, out@[k].note_id@) by {
                        assert(out@[k].note_id@ == before[k].note_id@);
                    }
                    assert forall|note: Seq<char>| has_closed(post, note) implies exists|k: int|
                        0 <= k < out@.len() && (#[trigger] out@[k]).note_id@ == note by {
                        if has_closed(pre, note) {
                            let k = choose|k: int| 0 <= k < before.len() && (#[trigger] before[k]).note_id@ == note;
                            assert(out@[k].note_id@ == note);
                        } else {
                            assert(out@[j as int].note_id@ == note);
                        }
                    }
                    assert forall|a: int, b: int| 0 <= a < b < out@.len() implies out@[a].note_id@ != out@[b].note_id@ by {
                        assert(out@[a].note_id@ == before[a].note_id@);
                        assert(out@[b].note_id@ == before[b].note_id@);
                    }
                }
            } else {
                let ghost before = out@;
                out.push(NoteSummary { note_id: e.note_id.clone(), total_ms: e.duration_ms });
                proof {
                    if has_closed(pre, e.note_id@) {
                        let k = choose|k: int| 0 <= k < before.len() && (#[trigger] before[k]).note_id@ == e.note_id@;
                        assert(before[k].note_id@ != e.note_id@);
                    }
                    assert(total_for(pre, e.note_id@) == 0) by {
                        lemma_no_closed_total(pre, e.note_id@);
                    }
                    assert forall|k: int| 0 <= k < out@.len() implies has_closed(post, (#[trigger] out@[k]).note_id@)
                        && out@[k].total_ms == total_for(post, out@[k].note_id@) by {
                        if k < before.len() {
                            assert(out@[k] == before[k]);
                        } else {
                            assert(post[i as int] == entries@[i as int]);
                        }
                    }
                    assert forall|note: Seq<char>| has_closed(post, note) implies exists|k: int|
                        0 <= k < out@.len() && (#[trigger] out@[k]).note_id@ == note by {
                        if has_closed(pre, note) {
                            let k = choose|k: int| 0 <= k < before.len() && (#[trigger] before[k]).note_id@ == note;
                            assert(out@[k] == before[k]);
                        } else {
                            assert(out@[before.len() as int].note_id@ == note);
                        }
                    }
                }
            }
        } else {
            proof {
                assert forall|k: int| 0 <= k < out@.len() implies has_closed(post, (#[trigger] out@[k]).note_id@)
                    && out@[k].total_ms == total_for(post, out@[k].note_id@) by {
                }
            }
        }
        i = i + 1;
    }
    assert(entries@.subrange(0, n as int) =~= entries@);
    out
}

/// Without a closed entry of a note, its total is 0.
proof fn lemma_no_closed_total(entries: Seq<TimeEntry>, note_id: Seq<char>)
    requires
        !has_closed(entries, note_id),
    ensures
        total_for(entries, note_id) == 0,
    decreases entries.len(),
{
    if entries.len() > 0 {
        assert forall|k: int| 0 <= k < entries.drop_last().len() implies !((#[trigger] entries.drop_last()[k]).note_id@ == note_id
            && entries.drop_last()[k].ended_at is Some) by {
            assert(entries.drop_last()[k] == entries[k]);
        }
        lemma_no_closed_total(entries.drop_last(), note_id);
        assert(entries[entries.len() - 1] == entries.last());
    }
}

} // verus!
