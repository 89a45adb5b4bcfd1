use fleeting_dedup::text::normalize;

#[test]
fn normalize_case_folds() {
    assert_eq!(normalize("ABC"), "abc");
    assert_eq!(normalize("Hello World"), "hello world");
}

#[test]
fn normalize_collapses_whitespace() {
    assert_eq!(normalize("hello   world"), "hello world");
    assert_eq!(normalize("a\t\nb"), "a b");
    assert_eq!(normalize("  a  b  "), "a b");
}

#[test]
fn normalize_agrees_on_equivalent_messages() {
    assert_eq!(normalize("Hello World"), normalize("hello   world"));
    assert_eq!(normalize("HELLO\tWORLD"), normalize(" hello world "));
    // composed and decomposed forms of the same text
    assert_eq!(normalize("e\u{301}clair"), normalize("\u{e9}clair"));
}

#[test]
fn normalize_composes_nfc() {
    // "e" followed by a combining acute accent composes to a single code point
    assert_eq!(normalize("e\u{301}clair"), "\u{e9}clair");
}

#[test]
fn normalize_is_idempotent() {
    let samples = [
        "Hello World",
        "  MANY   spaces  here ",
        "e\u{301}clair  Cafe\u{301}",
        "",
        "   ",
        "already normalized",
    ];
    for s in samples {
        let once = normalize(s);
        let twice = normalize(&once);
        assert_eq!(twice, once);
    }
}

#[test]
fn normalize_empty_input_gives_empty_key() {
    assert_eq!(normalize(""), "");
    assert_eq!(normalize(" \t\n "), "");
}

#[test]
fn normalize_unicode_whitespace() {
    // no-break space and ideographic space are whitespace too
    assert_eq!(normalize("a\u{a0}b"), "a b");
    assert_eq!(normalize("a\u{3000}b"), "a b");
}
