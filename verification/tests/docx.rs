use rune::docx::{build_docx, find_marker, parse_inline, DocBlock, BOLD, CODE, ITALIC, PLAIN};

fn runs(s: &str) -> Vec<(String, u8)> {
    parse_inline(s)
}

fn r(s: &str, st: u8) -> (String, u8) {
    (s.to_string(), st)
}

#[test]
fn inline_styles() {
    assert_eq!(runs("a **b** *c* `d` e"), vec![r("a ", PLAIN), r("b", BOLD), r(" ", PLAIN), r("c", ITALIC), r(" ", PLAIN), r("d", CODE), r(" e", PLAIN)]);
    assert_eq!(runs(""), vec![r("", PLAIN)]);
    // Unclosed markers stay plain; `**` without a closing pair falls back to italic.
    assert_eq!(runs("*open"), vec![r("*open", PLAIN)]);
    assert_eq!(runs("**x*"), vec![r("", ITALIC), r("x*", PLAIN)]);
    assert_eq!(runs("``"), vec![r("", CODE)]);
}

#[test]
fn markers_are_found_from_a_start() {
    let chars: Vec<char> = "ab**cd**".chars().collect();
    assert_eq!(find_marker(&chars, 0, &['*', '*']), Some(2));
    assert_eq!(find_marker(&chars, 3, &['*', '*']), Some(6));
    assert_eq!(find_marker(&chars, 7, &['*', '*']), None);
}

#[test]
fn document_layout() {
    let doc = build_docx("Title", "# H1\n## H2\n### H3\n- item *x*\n\n```\ncode *no*\n```\ntext");
    assert_eq!(doc.len(), 8);
    match &doc[0] {
        DocBlock::Heading { text, size } => assert_eq!((text.as_str(), *size), ("Title", 40)),
        _ => panic!("title"),
    }
    match &doc[2] {
        DocBlock::Heading { text, size } => assert_eq!((text.as_str(), *size), ("H2", 32)),
        _ => panic!("h2"),
    }
    match &doc[3] {
        DocBlock::Heading { text, size } => assert_eq!((text.as_str(), *size), ("H3", 28)),
        _ => panic!("h3"),
    }
    match &doc[4] {
        DocBlock::Runs { runs } => assert_eq!(runs, &vec![r("\u{2022}  item ", PLAIN), r("x", ITALIC)]),
        _ => panic!("item"),
    }
    assert!(matches!(doc[5], DocBlock::Blank));
    match &doc[6] {
        DocBlock::Code { text, size } => {
            assert_eq!(text, "code *no*");
            assert_eq!(*size, 20);
        }
        _ => panic!("code"),
    }
    match &doc[7] {
        DocBlock::Runs { runs } => assert_eq!(runs, &vec![r("text", PLAIN)]),
        _ => panic!("text"),
    }
}
