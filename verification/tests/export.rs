use rune::export::{
    build_export_file, has_extension, imported_note, lookup, merge_folders, open_export, parse_export_file, relink_attachment, seal_export, validate_export_destination, validate_import_source, ExportError, MAGIC,
};
use rune::folders::FolderData;
use rune::models::ArgonParams;

fn params() -> ArgonParams {
    ArgonParams { memory_kib: 8192, iterations: 1, parallelism: 1 }
}

#[test]
fn export_file_round_trip() {
    let enc = seal_export("export-pw", [3u8; 32], &params(), b"{\"notes\":[]}").unwrap();
    assert_eq!(enc.salt, [3u8; 32]);
    let file = build_export_file(b"{\"version\":1}", &enc);
    assert_eq!(&file[..8], &MAGIC);
    assert_eq!(&file[8..12], &1u32.to_le_bytes());
    let (header, blob) = parse_export_file(&file).unwrap();
    assert_eq!(header, b"{\"version\":1}");
    assert_eq!(open_export("export-pw", &params(), &blob).unwrap(), b"{\"notes\":[]}");
    assert_eq!(open_export("wrong", &params(), &blob).unwrap_err(), ExportError::InvalidPassword);
    let bad = ArgonParams { memory_kib: 8192, iterations: 0, parallelism: 1 };
    assert_eq!(open_export("export-pw", &bad, &blob).unwrap_err(), ExportError::KeyDerivation);
    assert_eq!(seal_export("pw", [0u8; 32], &bad, b"x").unwrap_err(), ExportError::KeyDerivation);
}

#[test]
fn export_file_errors() {
    assert_eq!(parse_export_file(b"RUNEVLT").unwrap_err(), ExportError::NotVault);
    let mut bad_magic = vec![0u8; 100];
    bad_magic[..7].copy_from_slice(b"RUNEVLX");
    assert_eq!(parse_export_file(&bad_magic).unwrap_err(), ExportError::NotVault);
    let mut short = Vec::new();
    short.extend_from_slice(&MAGIC);
    short.extend_from_slice(&1u32.to_le_bytes());
    short.extend_from_slice(&1000u32.to_le_bytes());
    short.extend_from_slice(&[0u8; 50]);
    assert_eq!(parse_export_file(&short).unwrap_err(), ExportError::Corrupted);
    let mut cut = Vec::new();
    cut.extend_from_slice(&MAGIC);
    cut.extend_from_slice(&1u32.to_le_bytes());
    cut.extend_from_slice(&2u32.to_le_bytes());
    cut.extend_from_slice(b"{}");
    cut.extend_from_slice(&[0u8; 43]);
    assert_eq!(parse_export_file(&cut).unwrap_err(), ExportError::Corrupted);
    assert_eq!(ExportError::NotVault.message(), "Not a valid .vault file");
    assert_eq!(ExportError::Corrupted.message(), "Corrupted export file");
}

fn folder(id: &str, name: &str, order: i32) -> FolderData {
    FolderData { id: id.into(), name: name.into(), created_at: "t".into(), order }
}

#[test]
fn imported_folders_follow_the_existing_ones() {
    let mut existing = vec![folder("e1", "One", 3), folder("e2", "Two", 7)];
    let imported = vec![folder("i1", "Imp A", 0), folder("i2", "Imp B", 5)];
    let map = merge_folders(&mut existing, &imported, vec!["n1".into(), "n2".into()]);
    assert_eq!(existing.len(), 4);
    assert_eq!((existing[2].id.as_str(), existing[2].name.as_str(), existing[2].order), ("n1", "Imp A", 8));
    assert_eq!((existing[3].id.as_str(), existing[3].order), ("n2", 9));
    assert_eq!(map, vec![("i1".to_string(), "n1".to_string()), ("i2".to_string(), "n2".to_string())]);
    let mut empty: Vec<FolderData> = Vec::new();
    merge_folders(&mut empty, &imported, vec!["x".into(), "y".into()]);
    assert_eq!(empty[0].order, 0);
    assert_eq!(empty[1].order, 1);
}

#[test]
fn lookup_takes_the_last_entry() {
    let map = vec![("a".to_string(), "1".to_string()), ("b".to_string(), "2".to_string()), ("a".to_string(), "3".to_string())];
    assert_eq!(lookup(&map, "a").unwrap(), "3");
    assert_eq!(lookup(&map, "b").unwrap(), "2");
    assert!(lookup(&map, "c").is_none());
}

#[test]
fn attachment_references_are_relinked() {
    let c = "![img](attachment://old) and attachment://old again, attachment://older";
    assert_eq!(
        relink_attachment(c, "old", "new"),
        "![img](attachment://new) and attachment://new again, attachment://newer"
    );
    assert_eq!(relink_attachment("no refs", "old", "new"), "no refs");
}

#[test]
fn extension_check_ignores_ascii_case() {
    assert!(has_extension(Some("vault"), "vault"));
    assert!(has_extension(Some("VAULT"), "vault"));
    assert!(has_extension(Some("VaUlT"), "vault"));
    assert!(!has_extension(Some("txt"), "vault"));
    assert!(!has_extension(Some("vaults"), "vault"));
    assert!(!has_extension(None, "vault"));
}

#[test]
fn export_destination_decisions() {
    assert_eq!(
        validate_export_destination(false, Some("vault"), "vault", Some(true), false, false).unwrap_err(),
        "Destination must be an absolute .vault file path"
    );
    assert_eq!(
        validate_export_destination(true, Some("txt"), "vault", Some(true), false, false).unwrap_err(),
        "Destination must be an absolute .vault file path"
    );
    assert!(validate_export_destination(true, Some("VAULT"), "vault", Some(true), false, false).is_ok());
    assert!(validate_export_destination(true, Some("docx"), "docx", Some(true), true, true).is_ok());
    assert_eq!(
        validate_export_destination(true, Some("vault"), "vault", Some(false), false, false).unwrap_err(),
        "Destination directory not found"
    );
    assert_eq!(
        validate_export_destination(true, Some("vault"), "vault", None, false, false).unwrap_err(),
        "Destination directory not found"
    );
    assert_eq!(
        validate_export_destination(true, Some("vault"), "vault", Some(true), true, false).unwrap_err(),
        "Destination directory not found"
    );
}

#[test]
fn import_source_decisions() {
    assert!(validate_import_source(true, Some("vault"), true).is_ok());
    assert_eq!(validate_import_source(true, Some("vault"), false).unwrap_err(), "Source must be an existing .vault file");
    assert!(validate_import_source(true, Some("txt"), true).is_err());
    assert!(validate_import_source(false, Some("vault"), true).is_err());
}

#[test]
fn imported_folders_follow_negative_orders() {
    let f = |id: &str, order: i32| FolderData { id: id.into(), name: id.into(), created_at: "t".into(), order };
    let mut existing = vec![f("a", -5), f("b", -3)];
    let imported = vec![f("i1", 0)];
    merge_folders(&mut existing, &imported, vec!["n1".into()]);
    assert_eq!(existing[2].order, -2);
}

/// The facts `validate_export_destination` takes, read off a path whose
/// parent folder exists and which names no file yet.
fn fresh_destination(p: &std::path::Path) -> (bool, Option<String>) {
    (p.is_absolute(), p.extension().and_then(|e| e.to_str()).map(str::to_string))
}

#[test]
fn export_destination_requires_absolute_expected_extension() {
    let (abs, ext) = fresh_destination(std::path::Path::new("backup.vault"));
    assert!(validate_export_destination(abs, ext.as_deref(), "vault", Some(true), false, false).is_err());

    let dir = std::path::Path::new("/home/user/backups");
    let (abs, ext) = fresh_destination(&dir.join("backup.txt"));
    assert!(validate_export_destination(abs, ext.as_deref(), "vault", Some(true), false, false).is_err());
    let (abs, ext) = fresh_destination(&dir.join("backup.VAULT"));
    assert!(validate_export_destination(abs, ext.as_deref(), "vault", Some(true), false, false).is_ok());
}

#[test]
fn import_source_must_be_an_existing_vault_file() {
    let dir = std::path::Path::new("/home/user/backups");
    let source = dir.join("backup.vault");
    let ext = |p: &std::path::Path| p.extension().and_then(|e| e.to_str()).map(str::to_string);

    // Before the file is written, then after.
    assert!(validate_import_source(source.is_absolute(), ext(&source).as_deref(), false).is_err());
    assert!(validate_import_source(source.is_absolute(), ext(&source).as_deref(), true).is_ok());
    let txt = dir.join("backup.txt");
    assert!(validate_import_source(txt.is_absolute(), ext(&txt).as_deref(), false).is_err());
}

#[test]
fn new_export_opens_with_its_password() {
    let enc = rune::export::seal_new_export("pw", &params(), b"payload").unwrap();
    let again = rune::export::seal_new_export("pw", &params(), b"payload").unwrap();
    assert_ne!(enc.salt, again.salt);
    assert_eq!(open_export("pw", &params(), &enc).unwrap(), b"payload");
    assert_eq!(open_export("other", &params(), &enc).unwrap_err(), ExportError::InvalidPassword);
}

#[test]
fn imported_note_gets_new_ids_and_links() {
    let src = rune::notes::NoteData {
        id: "old-note".into(),
        title: "T".into(),
        content: "![a](attachment://a1) ![b](attachment://b1) attachment://c1".into(),
        tags: vec!["x".into()],
        folder_id: Some("f-old".into()),
        pinned: true,
        created_at: "c".into(),
        updated_at: "u".into(),
    };
    let folders = vec![("f-old".to_string(), "f-new".to_string())];
    let relinks = vec![("a1".to_string(), "a2".to_string()), ("b1".to_string(), "b2".to_string())];
    let n = imported_note(&src, "new-note", &folders, &relinks);
    assert_eq!(n.id, "new-note");
    assert_eq!(n.content, "![a](attachment://a2) ![b](attachment://b2) attachment://c1");
    assert_eq!(n.folder_id.as_deref(), Some("f-new"));
    assert_eq!(n.tags, vec!["x".to_string()]);
    assert!(n.pinned);
    let unfiled = rune::notes::NoteData { folder_id: Some("gone".into()), ..n };
    assert!(imported_note(&unfiled, "z", &folders, &Vec::new()).folder_id.is_none());
}
