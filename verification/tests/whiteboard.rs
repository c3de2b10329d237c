use rune::whiteboard::{find_whiteboard, list_whiteboards, remove_whiteboard, scene_file, upsert_whiteboard, WhiteboardMeta};

#[test]
fn upsert_creates_then_updates() {
    let mut list: Vec<WhiteboardMeta> = Vec::new();
    let m = upsert_whiteboard(&mut list, "w1", "n1", None, 100);
    assert_eq!(m.title, "Untitled board");
    assert_eq!((m.created_at, m.updated_at), (100, 100));
    let m = upsert_whiteboard(&mut list, "w1", "n2", Some("Plan"), 200);
    assert_eq!(list.len(), 1);
    assert_eq!(m.title, "Plan");
    assert_eq!(m.note_id, "n2");
    assert_eq!((m.created_at, m.updated_at), (100, 200));
    // A save from the window keeps the title.
    let m = upsert_whiteboard(&mut list, "w1", "n2", None, 300);
    assert_eq!(m.title, "Plan");
    assert_eq!(list[0].updated_at, 300);
}

#[test]
fn whiteboard_index_queries() {
    let mut list = Vec::new();
    upsert_whiteboard(&mut list, "w1", "n1", Some("A"), 1);
    upsert_whiteboard(&mut list, "w2", "n2", Some("B"), 2);
    upsert_whiteboard(&mut list, "w3", "n1", Some("C"), 3);
    let titles: Vec<String> = list_whiteboards(&list, "n1").iter().map(|m| m.title.clone()).collect();
    assert_eq!(titles, vec!["A", "C"]);
    assert_eq!(find_whiteboard(&list, "w2").unwrap().title, "B");
    assert!(find_whiteboard(&list, "zz").is_none());
    assert!(remove_whiteboard(&mut list, "w2"));
    assert!(!remove_whiteboard(&mut list, "w2"));
    assert_eq!(list.len(), 2);
    assert_eq!(scene_file("wb", "w1").unwrap(), "wb/w1.rune");
    assert!(scene_file("wb", "w/1").is_err());
}
