use rune::attachments::{
    attachment_file, data_url, ext_for, list_attachments_for_note, mime_for, remove_attachment_meta, seal_attachment,
    split_note_attachments, split_orphans, AttachmentError, AttachmentMeta, MAX_SIZE,
};
use rune::codec::{decode_attachment, encode_attachment, new_id};
use rune::crypto::open_data_file;

fn meta(id: &str, note: &str, mime: &str) -> AttachmentMeta {
    AttachmentMeta {
        id: id.into(),
        original_filename: format!("{id}.bin"),
        mime_type: mime.into(),
        size_bytes: 1,
        note_id: note.into(),
        created_at: "0".into(),
    }
}

#[test]
fn extension_from_name_or_mime() {
    assert_eq!(ext_for("Photo.JPG", "image/png"), "jpg");
    assert_eq!(ext_for("archive.tar.gz", "x"), "gz");
    assert_eq!(ext_for("noext", "application/pdf"), "pdf");
    assert_eq!(ext_for("weird.p-g", "image/png"), "png");
    assert_eq!(ext_for("trailing.", "image/svg+xml"), "svg");
    assert_eq!(ext_for("x", "image/jpeg"), "jpg");
    assert_eq!(ext_for("x", "image/gif"), "gif");
    assert_eq!(ext_for("x", "image/webp"), "webp");
    assert_eq!(ext_for("x", "text/plain"), "bin");
}

#[test]
fn sealed_attachment_opens_again() {
    let key = [6u8; 32];
    let (id, file) = seal_attachment(&key, b"PDF bytes").unwrap();
    assert_eq!(id.len(), 36);
    assert!(attachment_file("att", &id).is_ok());
    assert_eq!(open_data_file(&key, &file).unwrap(), b"PDF bytes");
    let big = vec![0u8; MAX_SIZE + 1];
    assert_eq!(seal_attachment(&key, &big).unwrap_err(), AttachmentError::TooLarge);
    assert_eq!(AttachmentError::TooLarge.message(), "File too large (max 20MB)");
}

#[test]
fn data_urls_and_base64() {
    assert_eq!(data_url("image/png", b"hi"), "data:image/png;base64,aGk=");
    assert_eq!(encode_attachment(b"hello world~"), "aGVsbG8gd29ybGR+");
    assert_eq!(decode_attachment("aGVsbG8gd29ybGR+").unwrap(), b"hello world~");
    assert!(decode_attachment("not base64!").is_none());
}

#[test]
fn ids_are_fresh_uuids() {
    let a = new_id().unwrap();
    let b = new_id().unwrap();
    assert_ne!(a, b);
    assert_eq!(a.len(), 36);
    assert_eq!(a.chars().filter(|c| *c == '-').count(), 4);
    assert_eq!(a.chars().nth(14), Some('4'));
    assert!(matches!(a.chars().nth(19), Some('8' | '9' | 'a' | 'b')));
}

#[test]
fn index_queries_and_edits() {
    let list = vec![meta("a1", "n1", "image/png"), meta("a2", "n2", "application/pdf"), meta("a3", "n1", "image/gif")];
    assert_eq!(mime_for(&list, "a2"), "application/pdf");
    assert_eq!(mime_for(&list, "zz"), "application/octet-stream");
    let of_n1: Vec<String> = list_attachments_for_note(&list, "n1").iter().map(|a| a.id.clone()).collect();
    assert_eq!(of_n1, vec!["a1", "a3"]);

    let mut l2 = list_attachments_for_note(&list, "n1");
    assert!(remove_attachment_meta(&mut l2, "a1"));
    assert!(!remove_attachment_meta(&mut l2, "a1"));
    assert_eq!(l2.len(), 1);

    let (keep, gone) = split_note_attachments(&list, "n1");
    assert_eq!(keep.len(), 1);
    assert_eq!(gone, vec!["a1", "a3"]);

    let with_bad = vec![meta("b1", "../x", "m"), meta("b2", "n2", "m"), meta("b3", "n3", "m")];
    let (keep, gone) = split_orphans(&with_bad, &vec![true, true, false]);
    let kept: Vec<String> = keep.iter().map(|a| a.id.clone()).collect();
    assert_eq!(kept, vec!["b2"]);
    assert_eq!(gone, vec!["b1", "b3"]);
}

#[test]
fn attachment_base64_round_trip_and_strict_decoding() {
    let cases: [&[u8]; 5] = [b"", b"A", b"AB", b"ABC", b"\x00\xff\x10rune attachment"];
    for bytes in cases.iter() {
        let text = encode_attachment(bytes);
        assert_eq!(decode_attachment(&text).as_deref(), Some(*bytes));
    }
    assert_eq!(encode_attachment(b"A"), "QQ==");
    assert_eq!(decode_attachment("QQ==").as_deref(), Some(&b"A"[..]));
    // Missing padding, trailing bits, and characters outside the alphabet are refused.
    assert_eq!(decode_attachment("QQ"), None);
    assert_eq!(decode_attachment("QR=="), None);
    assert_eq!(decode_attachment("QQ==\n"), None);
    assert_eq!(decode_attachment("Q-=="), None);
}
