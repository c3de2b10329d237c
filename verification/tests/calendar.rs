use rune::calendar::{calendar_note, count_tasks, get_calendar_notes, is_date_shaped, scan_dates};
use rune::notes::NoteData;

#[test]
fn scans_plain_and_bracketed_dates() {
    let content = "Spotkanie 2025-06-10 oraz [[2025-12-01]] i znowu 2025-06-10.";
    let dates = scan_dates(content);
    assert_eq!(dates, vec!["2025-06-10", "2025-12-01"]);
}

#[test]
fn rejects_non_dates_and_bad_months() {
    let content = "2025-13-01 2025-00-10 12025-06-10x 9999-09-09";
    let dates = scan_dates(content);
    assert_eq!(dates, vec!["9999-09-09"]);
}

#[test]
fn counts_tasks() {
    let content = "- [ ] a\n  - [x] b\n* [X] c\n+ [ ] d\nplain line\n- not a task";
    let (done, total) = count_tasks(content);
    assert_eq!(total, 4);
    assert_eq!(done, 2);
}

#[test]
fn date_shape_checks_month_and_day() {
    assert!(is_date_shaped(b"2024-02-29"));
    assert!(is_date_shaped(b"2024-12-31"));
    assert!(!is_date_shaped(b"2024-12-32"));
    assert!(!is_date_shaped(b"2024-00-10"));
    assert!(!is_date_shaped(b"2024/12/01"));
    assert!(!is_date_shaped(b"2024-1-01"));
}

#[test]
fn dates_touching_digits_and_unicode_neighbours() {
    // A digit right after the date cancels it; letters and brackets do not.
    assert!(scan_dates("x2025-01-019").is_empty());
    assert_eq!(scan_dates("żółć2025-01-01ąę"), vec!["2025-01-01"]);
    assert_eq!(scan_dates("2025-01-012025-01-02"), Vec::<String>::new());
    assert_eq!(scan_dates("2025-01-01-2025-01-02"), vec!["2025-01-01", "2025-01-02"]);
}

#[test]
fn tasks_on_crlf_lines_and_short_lines() {
    let (done, total) = count_tasks("- [x] a\r\n- [ ]\r\n* [y] no\n-[x] no");
    assert_eq!(total, 2);
    assert_eq!(done, 1);
    assert_eq!(count_tasks(""), (0, 0));
}

fn note(id: &str, content: &str) -> NoteData {
    NoteData {
        id: id.to_string(),
        title: format!("Title {id}"),
        content: content.to_string(),
        tags: vec!["#t".to_string()],
        folder_id: None,
        pinned: false,
        created_at: "2026-01-01T00:00:00Z".to_string(),
        updated_at: "2026-01-02T00:00:00Z".to_string(),
    }
}

#[test]
fn calendar_entry_of_a_note() {
    let n = note("a", "Due 2026-03-04\n- [x] done\n- [ ] open");
    let c = calendar_note(&n);
    assert_eq!(c.id, "a");
    assert_eq!(c.title, "Title a");
    assert_eq!(c.dates, vec!["2026-03-04"]);
    assert_eq!(c.tags, vec!["#t"]);
    assert!(c.has_tasks);
    assert_eq!((c.tasks_done, c.tasks_total), (1, 2));
    let all = get_calendar_notes(&vec![n, note("b", "nothing")]);
    assert_eq!(all.len(), 2);
    assert!(!all[1].has_tasks);
    assert!(all[1].dates.is_empty());
}

#[test]
fn task_counts_add_up_over_joined_texts() {
    let a = "- [x] one\r\n  * [ ] two\nnot a task\r";
    let b = "+ [X] three\n- [ ] four";
    let joined = format!("{a}\n{b}");
    let (da, ta) = count_tasks(a);
    let (db, tb) = count_tasks(b);
    assert_eq!(count_tasks(&joined), (da + db, ta + tb));
    assert_eq!((da, ta), (1, 2));
    assert!(da <= ta && db <= tb);
    assert_eq!(count_tasks(&format!("\n{b}")), (db, tb));
}
