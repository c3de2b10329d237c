use rune::crypto::encrypt;
use rune::notes::{
    build_note_file, decrypt_note_file, extract_wikilink_titles, find_backlinks, get_graph_data,
    leading_snippet, linking_line, list_notes, note_path_in, search_notes, snippet_around,
    split_lines, trim_context, NoteData,
};

fn sample() -> NoteData {
    NoteData {
        id: "note-abc_123".into(),
        title: "Note title".into(),
        content: "Body\nwith multiple\nlines and unicode ąćę".into(),
        tags: vec!["#crypto".into(), "#test".into()],
        folder_id: Some("dziennik".into()),
        pinned: true,
        created_at: "2026-06-19T10:00:00.000Z".into(),
        updated_at: "2026-06-19T11:30:00.000Z".into(),
    }
}

fn to_json(n: &NoteData) -> Vec<u8> {
    let mut m = serde_json::Map::new();
    m.insert("id".into(), serde_json::Value::String(n.id.clone()));
    m.insert("title".into(), serde_json::Value::String(n.title.clone()));
    m.insert("content".into(), serde_json::Value::String(n.content.clone()));
    m.insert(
        "tags".into(),
        serde_json::Value::Array(n.tags.iter().map(|t| serde_json::Value::String(t.clone())).collect()),
    );
    m.insert(
        "folderId".into(),
        match &n.folder_id {
            Some(f) => serde_json::Value::String(f.clone()),
            None => serde_json::Value::Null,
        },
    );
    m.insert("pinned".into(), serde_json::Value::Bool(n.pinned));
    m.insert("createdAt".into(), serde_json::Value::String(n.created_at.clone()));
    m.insert("updatedAt".into(), serde_json::Value::String(n.updated_at.clone()));
    serde_json::to_vec(&serde_json::Value::Object(m)).unwrap()
}

#[test]
fn note_file_round_trip() {
    let key = [7u8; 32];
    let note = sample();

    let plaintext = to_json(&note);
    let enc = encrypt(&key, &plaintext).unwrap();
    let bytes = build_note_file(&enc);

    assert_eq!(&bytes[..12], &enc.nonce);
    assert!(bytes.len() > 12 + 16);

    let decoded: serde_json::Value = serde_json::from_slice(&decrypt_note_file(&key, &bytes).unwrap()).unwrap();
    assert_eq!(decoded["id"], note.id.as_str());
    assert_eq!(decoded["title"], note.title.as_str());
    assert_eq!(decoded["content"], note.content.as_str());
    assert_eq!(decoded["tags"][0], note.tags[0].as_str());
    assert_eq!(decoded["tags"][1], note.tags[1].as_str());
    assert_eq!(decoded["folderId"], "dziennik");
    assert_eq!(decoded["pinned"], note.pinned);
    assert_eq!(decoded["updatedAt"], note.updated_at.as_str());
}

#[test]
fn wrong_key_is_rejected() {
    let note = sample();
    let plaintext = to_json(&note);
    let enc = encrypt(&[1u8; 32], &plaintext).unwrap();
    let bytes = build_note_file(&enc);
    assert!(decrypt_note_file(&[2u8; 32], &bytes).is_err());
}

#[test]
fn nonce_is_fresh_each_time() {
    let key = [3u8; 32];
    let a = encrypt(&key, b"identyczny plaintext").unwrap();
    let b = encrypt(&key, b"identyczny plaintext").unwrap();
    assert_ne!(a.nonce, b.nonce);
}

#[test]
fn note_path_guards_traversal() {
    let dir = "notes";
    assert!(note_path_in(dir, "../etc/passwd").is_err());
    assert!(note_path_in(dir, "a/b").is_err());
    assert!(note_path_in(dir, "a\\b").is_err());
    assert!(note_path_in(dir, "").is_err());
    assert!(note_path_in(dir, "ok-123_ID").is_ok());
}

#[test]
fn note_path_joins_directory_and_name() {
    assert_eq!(note_path_in("notes", "ok-1").unwrap(), "notes/ok-1.rune");
    assert_eq!(note_path_in("notes/", "ok-1").unwrap(), "notes/ok-1.rune");
    assert_eq!(note_path_in("", "ok-1").unwrap(), "ok-1.rune");
    assert!(note_path_in("notes", &"x".repeat(129)).is_err());
    assert!(note_path_in("notes", &"x".repeat(128)).is_ok());
}

#[test]
fn truncated_file_is_rejected() {
    assert!(decrypt_note_file(&[0u8; 32], &[0u8; 10]).is_err());
}

#[test]
fn snippet_centers_on_match() {
    let content = "The quick brown fox jumps over the lazy dog and keeps running far into the woods";
    let lower = content.to_lowercase();
    let s = snippet_around(content, &lower, "fox", 20);
    assert!(s.to_lowercase().contains("fox"));
    assert!(s.starts_with('…') && s.ends_with('…'));
    assert!(!s.contains('\n'));
}

#[test]
fn snippet_short_content_no_ellipsis() {
    let content = "short body";
    let lower = content.to_lowercase();
    let s = snippet_around(content, &lower, "body", 80);
    assert_eq!(s, "short body");
}

#[test]
fn leading_snippet_truncates() {
    let s = leading_snippet("hello world this is a fairly long note body indeed", 10);
    assert!(s.ends_with('…'));
    assert!(s.chars().count() <= 11);
}

#[test]
fn snippet_exact_window() {
    // 10 characters each side of "fox" (width 20), flattened and trimmed.
    let content = "The quick brown fox jumps over the lazy dog and keeps running far into the woods";
    let s = snippet_around(content, &content.to_lowercase(), "fox", 20);
    assert_eq!(s, "…ick brown fox jumps ove…");
    // No match: the leading snippet.
    assert_eq!(snippet_around("a\tb\nc", "a\tb\nc", "zz", 80), "a b c");
    assert_eq!(leading_snippet("hello world", 5), "hello…");
    assert_eq!(leading_snippet("  hi  ", 80), "hi");
}

#[test]
fn extracts_wikilink_titles() {
    let content = "See [[Project Atlas]] and [[ Meeting Notes ]].\nAlso [[]] empty and [[Daily]].";
    let titles = extract_wikilink_titles(content);
    assert_eq!(titles, vec!["Project Atlas", "Meeting Notes", "Daily"]);
}

#[test]
fn unclosed_wikilink_is_ignored() {
    assert!(extract_wikilink_titles("broken [[start without end").is_empty());
    let titles = extract_wikilink_titles("ąćę [[Tytuł]] żółć");
    assert_eq!(titles, vec!["Tytuł"]);
}

#[test]
fn nested_brackets_take_the_first_closing() {
    assert_eq!(extract_wikilink_titles("[[a [[b]] c]]"), vec!["a [[b"]);
    assert_eq!(extract_wikilink_titles("[[x]][[y]]"), vec!["x", "y"]);
}

#[test]
fn lines_split_like_str_lines() {
    assert_eq!(split_lines("a\r\nb\n\nc\n"), vec!["a", "b", "", "c"]);
    assert_eq!(split_lines("x\ry"), vec!["x\ry"]);
    assert!(split_lines("").is_empty());
}

#[test]
fn context_lines_are_trimmed_and_cut() {
    assert_eq!(trim_context("   short  ", 120), "short");
    assert_eq!(trim_context("abcdef ghij", 7), "abcdef…");
    assert_eq!(linking_line("one\ntwo [[Target]] here\n[[target]]", "target").unwrap(), "two [[Target]] here");
    assert!(linking_line("no links", "target").is_none());
}

fn note(id: &str, title: &str, content: &str, tags: &[&str], updated: &str) -> NoteData {
    NoteData {
        id: id.into(),
        title: title.into(),
        content: content.into(),
        tags: tags.iter().map(|s| s.to_string()).collect(),
        folder_id: None,
        pinned: false,
        created_at: "2026-01-01T00:00:00Z".into(),
        updated_at: updated.into(),
    }
}

#[test]
fn search_scan_matches_title_tags_and_content() {
    let notes = vec![
        note("a", "Groceries", "buy milk and bread", &["home"], "2026-01-01"),
        note("b", "Work", "ship the <release>", &["dev"], "2026-03-01"),
        note("c", "Bread recipes", "flour & water", &[], "2026-02-01"),
        note("d", "Misc", "nothing", &["Breadcrumbs"], "2026-02-01"),
    ];
    let hits = search_notes(&notes, "  BREAD ");
    let ids: Vec<&str> = hits.iter().map(|h| h.id.as_str()).collect();
    // Newest first; equal times keep note order.
    assert_eq!(ids, vec!["c", "d", "a"]);
    assert_eq!(hits[2].snippet, "buy milk and bread");
    // Title match only: the start of the content, escaped.
    assert_eq!(hits[0].snippet, "flour &amp; water");
    assert!(search_notes(&notes, "   ").is_empty());
    let rel = search_notes(&notes, "release");
    assert_eq!(rel[0].snippet, "ship the &lt;release&gt;");
}

#[test]
fn listing_is_newest_first_and_stable() {
    let notes = vec![
        note("a", "A", "", &[], "2026-01-01"),
        note("b", "B", "", &[], "2026-05-01"),
        note("c", "C", "", &[], "2026-01-01"),
    ];
    let list = list_notes(&notes);
    let ids: Vec<&str> = list.iter().map(|m| m.id.as_str()).collect();
    assert_eq!(ids, vec!["b", "a", "c"]);
}

#[test]
fn backlinks_skip_self_and_sort_by_title() {
    let notes = vec![
        note("t", "Target", "I mention [[Target]] myself", &[], "1"),
        note("z", "zeta", "first line\nsee [[ target ]] here", &[], "1"),
        note("a", "Alpha", "[[Other]]\n[[TARGET]] and more", &[], "1"),
        note("n", "None", "no link", &[], "1"),
    ];
    let hits = find_backlinks(&notes, " target ");
    let ids: Vec<&str> = hits.iter().map(|h| h.id.as_str()).collect();
    assert_eq!(ids, vec!["a", "z"]);
    assert_eq!(hits[0].context, "[[TARGET]] and more");
    assert_eq!(hits[1].context, "see [[ target ]] here");
    assert!(find_backlinks(&notes, "  ").is_empty());
}

#[test]
fn graph_edges_dedup_skip_self_and_last_title_wins() {
    let notes = vec![
        note("1", "A", "[[B]] [[b]] [[A]] [[Missing]]", &[], "1"),
        note("2", "B", "[[A]]", &[], "1"),
        note("3", "b", "", &[], "1"),
    ];
    let g = get_graph_data(&notes);
    assert_eq!(g.nodes.len(), 3);
    assert_eq!(g.nodes[2].title, "b");
    let edges: Vec<(&str, &str)> = g.edges.iter().map(|e| (e.source.as_str(), e.target.as_str())).collect();
    // "B" and "b" both resolve to the last note titled b (id 3); once only.
    assert_eq!(edges, vec![("1", "3"), ("2", "1")]);
}
