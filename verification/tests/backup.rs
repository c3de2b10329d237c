use rune::backup::{backup_dir_name, is_backup_name, list_backup_dirs, newest_first, prune_count, BackupInfo};

#[test]
fn backup_folders_are_named_and_ordered() {
    assert_eq!(backup_dir_name("2026-01-02-03-04-05"), "rune-backup-2026-01-02-03-04-05");
    assert!(is_backup_name("rune-backup-x"));
    assert!(!is_backup_name("rune-backu"));
    assert!(!is_backup_name("other"));
    let names = vec![
        "rune-backup-2026-02-01".to_string(),
        "notes".to_string(),
        "rune-backup-2025-12-31".to_string(),
        "rune-backup-2026-01-15".to_string(),
    ];
    assert_eq!(list_backup_dirs(&names), vec!["rune-backup-2025-12-31", "rune-backup-2026-01-15", "rune-backup-2026-02-01"]);
}

#[test]
fn pruning_keeps_the_newest() {
    assert_eq!(prune_count(5, 0), 0);
    assert_eq!(prune_count(5, 3), 2);
    assert_eq!(prune_count(2, 3), 0);
    let list = vec![
        BackupInfo { path: "a".into(), created_at: "1".into(), size_bytes: 1 },
        BackupInfo { path: "b".into(), created_at: "2".into(), size_bytes: 2 },
    ];
    let r = newest_first(list);
    assert_eq!(r[0].path, "b");
    assert_eq!(r[1].path, "a");
}
