use rune::kanban::{
    add_note_to_kanban, default_kanban, move_kanban_card, remove_note_from_kanban, KanbanCardAssignment, KanbanData,
};

fn card(note: &str, col: &str, order: i32) -> KanbanCardAssignment {
    KanbanCardAssignment { note_id: note.into(), column_id: col.into(), order }
}

fn cards(kd: &KanbanData) -> Vec<(String, String, i32)> {
    kd.assignments.iter().map(|a| (a.note_id.clone(), a.column_id.clone(), a.order)).collect()
}

fn t(n: &str, c: &str, o: i32) -> (String, String, i32) {
    (n.to_string(), c.to_string(), o)
}

#[test]
fn default_board_has_three_columns() {
    let kd = default_kanban().unwrap();
    let names: Vec<&str> = kd.columns.iter().map(|c| c.name.as_str()).collect();
    assert_eq!(names, vec!["To Do", "In Progress", "Done"]);
    assert_eq!(kd.columns[2].order, 2);
    assert!(kd.columns[0].color.is_none());
    assert_ne!(kd.columns[0].id, kd.columns[1].id);
    assert!(kd.assignments.is_empty());
}

#[test]
fn adding_puts_the_card_last_once() {
    let mut kd = KanbanData { columns: Vec::new(), assignments: vec![card("a", "c1", 4), card("b", "c1", 2), card("x", "c2", 9)] };
    add_note_to_kanban(&mut kd, "n", "c1");
    assert_eq!(cards(&kd)[3], t("n", "c1", 5));
    add_note_to_kanban(&mut kd, "n", "c2");
    assert_eq!(kd.assignments.len(), 4);
    add_note_to_kanban(&mut kd, "m", "empty");
    assert_eq!(cards(&kd)[4], t("m", "empty", 0));
}

#[test]
fn moving_renumbers_the_target_column() {
    let mut kd = KanbanData {
        columns: Vec::new(),
        assignments: vec![card("a", "c1", 0), card("b", "c2", 5), card("c", "c2", 1), card("d", "c1", 1)],
    };
    move_kanban_card(&mut kd, "a", "c2", 1);
    assert_eq!(cards(&kd), vec![t("d", "c1", 1), t("c", "c2", 0), t("a", "c2", 1), t("b", "c2", 2)]);
    // Past the end goes last; negative goes first.
    move_kanban_card(&mut kd, "d", "c2", 99);
    assert_eq!(cards(&kd)[3], t("d", "c2", 3));
    move_kanban_card(&mut kd, "b", "c2", -5);
    assert_eq!(cards(&kd)[0], t("b", "c2", 0));
    // Unknown note: nothing changes.
    let before = cards(&kd);
    move_kanban_card(&mut kd, "zz", "c1", 0);
    assert_eq!(cards(&kd), before);
}

#[test]
fn removing_takes_every_card_of_the_note() {
    let mut kd = KanbanData { columns: Vec::new(), assignments: vec![card("a", "c1", 0), card("b", "c1", 1), card("a", "c2", 0)] };
    remove_note_from_kanban(&mut kd, "a");
    assert_eq!(cards(&kd), vec![t("b", "c1", 1)]);
}
