use rune::crypto::{decrypts_ok, seal_data_file};
use rune::fsutil::{candidate_dirs, lock_blocks, lock_content, lock_owner, parse_u32, strip_tmp, tmp_for, tmp_action, TmpAction};

#[test]
fn strip_tmp_recovers_final_name() {
    let p = "x/abc.rune.tmp";
    assert_eq!(strip_tmp(p).unwrap(), "x/abc.rune");
    assert!(strip_tmp("x/abc.rune").is_none());
}

#[test]
fn tmp_names_round_trip() {
    assert_eq!(tmp_for("notes/abc.rune"), "notes/abc.rune.tmp");
    assert_eq!(strip_tmp(&tmp_for("a/b.rune")).unwrap(), "a/b.rune");
    assert!(strip_tmp("dir.tmp/file").is_none());
    assert_eq!(strip_tmp(".tmp").unwrap(), "");
}

#[test]
fn recovery_decisions() {
    assert_eq!(tmp_action(true, true), TmpAction::Delete);
    assert_eq!(tmp_action(false, true), TmpAction::Promote);
    assert_eq!(tmp_action(false, false), TmpAction::Delete);
    let dirs = candidate_dirs("base");
    assert_eq!(dirs[0], "base");
    assert_eq!(dirs[1], "base/notes");
    assert_eq!(dirs[6], "base/whiteboards_duress");
}

#[test]
fn lock_file_contents() {
    assert_eq!(lock_content(4242, "2026-01-01T00:00:00Z"), "4242\n2026-01-01T00:00:00Z");
    assert_eq!(lock_owner("4242\n2026-01-01T00:00:00Z"), Some(4242));
    assert_eq!(lock_owner("  17 \r\nx"), Some(17));
    assert_eq!(lock_owner("+17"), Some(17));
    assert_eq!(lock_owner("abc"), None);
    assert_eq!(lock_owner(""), None);
    assert_eq!(parse_u32("4294967295"), Some(u32::MAX));
    assert_eq!(parse_u32("4294967296"), None);
    assert_eq!(parse_u32("-1"), None);
    assert_eq!(parse_u32("+"), None);
    assert!(lock_blocks(Some(5), 6, true));
    assert!(!lock_blocks(Some(6), 6, true));
    assert!(!lock_blocks(Some(5), 6, false));
    assert!(!lock_blocks(None, 6, true));
}

#[test]
fn lock_written_by_a_process_names_it() {
    for pid in [0u32, 7, 10, 4242, u32::MAX] {
        let text = lock_content(pid, "2026-03-01T10:20:30Z");
        assert_eq!(lock_owner(&text), Some(pid));
        assert!(!lock_blocks(lock_owner(&text), pid, true));
    }
}

#[test]
fn recover_deletes_unverifiable_and_stale_tmp() {
    let key = [7u8; 32];
    // A leftover with junk and no final file: removed.
    assert_eq!(tmp_action(false, decrypts_ok(&key, b"not encrypted")), TmpAction::Delete);
    // A leftover beside its final file: removed.
    assert_eq!(tmp_action(true, decrypts_ok(&key, b"stale")), TmpAction::Delete);
    // A complete data file with no final file: promoted.
    let good = seal_data_file(&key, b"recovered").unwrap();
    assert_eq!(tmp_action(false, decrypts_ok(&key, &good)), TmpAction::Promote);
    assert_eq!(strip_tmp("notes/good.rune.tmp").unwrap(), "notes/good.rune");
}

#[test]
fn trailing_separators_are_ignored() {
    assert_eq!(strip_tmp("a.tmp/").unwrap(), "a");
    assert_eq!(strip_tmp("x/a.rune.tmp//").unwrap(), "x/a.rune");
    assert!(strip_tmp("x.tmp/a/").is_none());
}
