use rune::time_tracking::{
    delete_time_entry, get_time_summary, start_timer, stop_running, stop_timer, TimeEntry, TimeTrackingData, TimerError,
};

fn entry(id: &str, note: &str, start: u64, end: Option<u64>, dur: u64) -> TimeEntry {
    TimeEntry { id: id.into(), note_id: note.into(), started_at: start, ended_at: end, duration_ms: dur }
}

#[test]
fn stop_running_closes_all_open_entries() {
    let mut data = TimeTrackingData { entries: vec![entry("1", "a", 1000, None, 0), entry("2", "b", 2000, Some(2500), 500)] };
    let changed = stop_running(&mut data, 3000);
    assert!(changed);
    let a = data.entries.iter().find(|e| e.note_id == "a").unwrap();
    assert_eq!(a.ended_at, Some(3000));
    assert_eq!(a.duration_ms, 2000);
    let b = data.entries.iter().find(|e| e.note_id == "b").unwrap();
    assert_eq!(b.duration_ms, 500);
}

#[test]
fn stop_running_noop_when_nothing_open() {
    let mut data = TimeTrackingData { entries: vec![entry("1", "a", 1000, Some(1500), 500)] };
    assert!(!stop_running(&mut data, 3000));
}

#[test]
fn clock_going_back_gives_zero_duration() {
    let mut data = TimeTrackingData { entries: vec![entry("1", "a", 5000, None, 0)] };
    assert!(stop_running(&mut data, 4000));
    assert_eq!(data.entries[0].duration_ms, 0);
    assert_eq!(data.entries[0].ended_at, Some(4000));
}

#[test]
fn start_stops_the_running_timer_first() {
    let mut data = TimeTrackingData { entries: vec![entry("1", "a", 1000, None, 0)] };
    let e = start_timer(&mut data, "b", 4000).unwrap();
    assert_eq!(e.note_id, "b");
    assert_eq!(e.started_at, 4000);
    assert!(e.ended_at.is_none());
    assert_eq!(e.id.len(), 36);
    assert_eq!(data.entries.len(), 2);
    assert_eq!(data.entries[0].ended_at, Some(4000));
    assert_eq!(data.entries[0].duration_ms, 3000);
    let running: Vec<&TimeEntry> = data.entries.iter().filter(|e| e.ended_at.is_none()).collect();
    assert_eq!(running.len(), 1);
    assert_eq!(running[0].note_id, "b");
}

#[test]
fn stop_timer_closes_the_notes_timer_or_fails() {
    let mut data = TimeTrackingData { entries: vec![entry("1", "a", 1000, None, 0), entry("2", "b", 2000, None, 0)] };
    let e = stop_timer(&mut data, "b", 2600).unwrap();
    assert_eq!(e.id, "2");
    assert_eq!(e.duration_ms, 600);
    assert!(data.entries[0].ended_at.is_none());
    let err = stop_timer(&mut data, "b", 3000).unwrap_err();
    assert_eq!(err, TimerError::NotRunning);
    assert_eq!(err.message(), "No running timer for this note");
}

#[test]
fn delete_and_summary() {
    let mut data = TimeTrackingData {
        entries: vec![
            entry("1", "a", 0, Some(100), 100),
            entry("2", "b", 0, Some(50), 50),
            entry("3", "a", 0, Some(25), 25),
            entry("4", "c", 0, None, 0),
        ],
    };
    let s = get_time_summary(&data);
    let mut pairs: Vec<(String, u64)> = s.iter().map(|x| (x.note_id.clone(), x.total_ms)).collect();
    pairs.sort();
    assert_eq!(pairs, vec![("a".to_string(), 125), ("b".to_string(), 50)]);
    delete_time_entry(&mut data, "1");
    assert_eq!(data.entries.len(), 3);
    let s = get_time_summary(&data);
    let a = s.iter().find(|x| x.note_id == "a").unwrap();
    assert_eq!(a.total_ms, 25);
}

#[test]
fn at_most_one_timer_runs_and_stop_closes_the_new_one() {
    let mut data = TimeTrackingData { entries: vec![entry("1", "a", 1000, None, 0), entry("2", "b", 1500, None, 0)] };
    let started = start_timer(&mut data, "c", 4000).unwrap();
    let running: Vec<&TimeEntry> = data.entries.iter().filter(|e| e.ended_at.is_none()).collect();
    assert_eq!(running.len(), 1);
    assert_eq!(running[0].id, started.id);
    let stopped = stop_timer(&mut data, "c", 6500).unwrap();
    assert_eq!(stopped.id, started.id);
    assert_eq!(stopped.duration_ms, 2500);
    assert!(data.entries.iter().all(|e| e.ended_at.is_some()));
    assert!(matches!(stop_timer(&mut data, "c", 7000), Err(TimerError::NotRunning)));
}
