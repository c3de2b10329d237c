use rune::notes::NoteData;
use rune::search::{
    build_index_conn, build_match_query, hits_from_outcome, shown_hits, RawHit, finish_snippet, fts_search, join_tags, remove_from_index, split_tags, upsert,
};

fn note(id: &str, title: &str, content: &str, tags: &[&str]) -> NoteData {
    NoteData {
        id: id.into(),
        title: title.into(),
        content: content.into(),
        tags: tags.iter().map(|s| s.to_string()).collect(),
        folder_id: None,
        pinned: false,
        created_at: "2026-01-01T00:00:00Z".into(),
        updated_at: "2026-01-01T00:00:00Z".into(),
    }
}

#[test]
fn finds_by_content_word() {
    let notes = vec![
        note("a", "Groceries", "buy milk and bread tomorrow", &["home"]),
        note("b", "Work", "ship the release candidate", &["dev"]),
    ];
    let conn = build_index_conn(&notes).unwrap();
    let q = build_match_query("bread");
    let mut stmt = conn.prepare("SELECT id FROM notes_fts WHERE notes_fts MATCH ?1").unwrap();
    let ids: Vec<String> = stmt.query_map([&q], |r| r.get::<_, String>(0)).unwrap().flatten().collect();
    assert_eq!(ids, vec!["a"]);
}

#[test]
fn special_chars_do_not_crash() {
    let notes = vec![note("a", "Title", "alpha beta gamma", &[])];
    let conn = build_index_conn(&notes).unwrap();
    for raw in ["alp", "\"quote", "a*b", "beta AND", "()"] {
        let q = build_match_query(raw);
        if q.is_empty() {
            continue;
        }
        let mut stmt = conn.prepare("SELECT id FROM notes_fts WHERE notes_fts MATCH ?1").unwrap();
        let _ = stmt.query_map([&q], |r| r.get::<_, String>(0)).map(|rows| rows.flatten().count());
    }
}

#[test]
fn snippet_is_html_safe() {
    let s = finish_snippet("\u{2}<script>\u{3} ok & <b>");
    assert!(s.contains("<mark>&lt;script&gt;</mark>"));
    assert!(!s.contains("<script>"));
    assert!(s.contains("&amp;"));
}

#[test]
fn match_query_quotes_every_word() {
    assert_eq!(build_match_query("  bread  milk "), "\"bread\"* \"milk\"*");
    assert_eq!(build_match_query("say \"hi\""), "\"say\"* \"\"\"hi\"\"\"*");
    assert_eq!(build_match_query(" \t\n"), "");
}

#[test]
fn tags_split_and_join() {
    assert_eq!(split_tags(" #a  #b\t#c "), vec!["#a", "#b", "#c"]);
    assert!(split_tags("   ").is_empty());
    assert_eq!(join_tags(&vec!["#a".to_string(), "#b".to_string()]), "#a #b");
    assert_eq!(join_tags(&Vec::new()), "");
}

#[test]
fn index_search_upsert_and_remove() {
    let notes = vec![
        note("a", "Groceries", "buy milk and bread tomorrow", &["home", "food"]),
        note("b", "Work", "ship the release candidate", &["dev"]),
    ];
    let mut conn = build_index_conn(&notes).unwrap();
    let hits = fts_search(&mut conn, "bre");
    assert_eq!(hits.len(), 1);
    assert_eq!(hits[0].id, "a");
    assert_eq!(hits[0].tags, vec!["home", "food"]);
    assert!(hits[0].snippet.contains("<mark>bread</mark>"));
    assert!(fts_search(&mut conn, "   ").is_empty());

    let changed = note("b", "Work", "bread for the office", &["dev"]);
    upsert(&mut conn, &changed).unwrap();
    let hits = fts_search(&mut conn, "bread");
    assert_eq!(hits.len(), 2);

    assert!(remove_from_index(&mut conn, "a"));
    let hits = fts_search(&mut conn, "bread");
    assert_eq!(hits.len(), 1);
    assert_eq!(hits[0].id, "b");
}

#[test]
fn raw_rows_are_shown_safely() {
    let raw = RawHit {
        id: "a".into(),
        title: "T".into(),
        snippet: "x <b>\u{2}milk\u{3}</b> y".into(),
        tags: "home  work".into(),
        folder_id: Some("f".into()),
        pinned: 1,
        created_at: "c".into(),
        updated_at: "u".into(),
    };
    let hits = shown_hits(&vec![raw]);
    assert_eq!(hits.len(), 1);
    assert_eq!(hits[0].snippet, "x &lt;b&gt;<mark>milk</mark>&lt;/b&gt; y");
    assert_eq!(hits[0].tags, vec!["home".to_string(), "work".to_string()]);
    assert!(hits[0].pinned);
    assert_eq!(hits[0].folder_id.as_deref(), Some("f"));
}

#[test]
fn query_outcome_to_hits() {
    let raw = RawHit {
        id: "n1".to_string(),
        title: "Plan".to_string(),
        snippet: "a <b> \u{2}rust\u{3} c".to_string(),
        tags: "work  rust".to_string(),
        folder_id: Some("f1".to_string()),
        pinned: 1,
        created_at: "2024-01-01T00:00:00Z".to_string(),
        updated_at: "2024-01-02T00:00:00Z".to_string(),
    };
    let hits = hits_from_outcome(&Ok(vec![raw]));
    assert_eq!(hits.len(), 1);
    assert_eq!(hits[0].id, "n1");
    assert_eq!(hits[0].snippet, "a &lt;b&gt; <mark>rust</mark> c");
    assert_eq!(hits[0].tags, vec!["work".to_string(), "rust".to_string()]);
    assert!(hits[0].pinned);
    assert_eq!(hits[0].folder_id.as_deref(), Some("f1"));
    let none = hits_from_outcome(&Err(rusqlite::Error::InvalidQuery));
    assert!(none.is_empty());
}
