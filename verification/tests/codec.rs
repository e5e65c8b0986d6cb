use escaping::Escape;
use escaping::IsControl;

fn esc() -> Escape<IsControl> {
    Escape::new(
        '\\',
        &['\\', '[', ']', '"', '\0', '\n', '\r', '\t'],
        &[('\n', "n"), ('\r', "r"), ('\0', "0"), ('\t', "t")],
        Some(IsControl),
    )
    .unwrap()
}

#[test]
fn basic_round_trip() {
    assert_eq!(esc().escape("foo [e] bar\n"), r#"foo \[e\] bar\n"#);
    assert_eq!(esc().unescape(r#"foo \[e\] bar\n"#), "foo [e] bar\n");
}

#[test]
fn test_escape_to() {
    let mut buf = String::new();
    esc().escape_to("foo [e] bar\n", &mut buf);
    assert_eq!(buf, r#"foo \[e\] bar\n"#);
}

#[test]
fn test_unescape_to() {
    let mut buf = String::new();
    esc().unescape_to(r#"foo \[e\] bar\n"#, &mut buf);
    assert_eq!(buf, "foo [e] bar\n");
}

#[test]
fn test_escape_no_change() {
    assert_eq!(esc().escape("foo bar"), "foo bar");
}

#[test]
fn test_unescape_no_change() {
    assert_eq!(esc().unescape("foo bar"), "foo bar");
}

#[test]
fn test_generic_escape() {
    let input = "control\u{1}";
    let escaped = esc().escape(input);
    assert!(escaped.contains(r#"\u{1}"#));
    let unescaped = esc().unescape(&escaped);
    assert_eq!(unescaped, input);
}

#[test]
fn escape_to_appends() {
    let mut buf = String::from("seen: ");
    esc().escape_to("[x]", &mut buf);
    assert_eq!(buf, r#"seen: \[x\]"#);
}

#[test]
fn escapes_the_escape_char_itself() {
    assert_eq!(esc().escape(r#"a\b"#), r#"a\\b"#);
    assert_eq!(esc().unescape(r#"a\\b"#), r#"a\b"#);
}

#[test]
fn empty_string_round_trip() {
    assert_eq!(esc().escape(""), "");
    assert_eq!(esc().unescape(""), "");
}

#[test]
fn translation_round_trip() {
    assert_eq!(esc().escape("a\nb\tc\rd\0e"), r#"a\nb\tc\rd\0e"#);
    assert_eq!(esc().unescape(r#"a\nb\tc\rd\0e"#), "a\nb\tc\rd\0e");
}

#[test]
fn numeric_escape_uses_lowercase_hex() {
    // U+009F is a control character outside the escaped set.
    assert_eq!(esc().escape("x\u{9f}y"), r#"x\u{9f}y"#);
    assert_eq!(esc().escape("\u{10}"), r#"\u{10}"#);
    assert_eq!(esc().unescape(r#"x\u{9f}y"#), "x\u{9f}y");
}

#[test]
fn numeric_escape_accepts_uppercase_hex() {
    assert_eq!(esc().unescape(r#"\u{A}"#), "\u{a}");
    assert_eq!(esc().unescape(r#"\u{41}"#), "A");
}

#[test]
fn malformed_escapes_pass_through() {
    // An unknown escape keeps the following character literally.
    assert_eq!(esc().unescape(r#"\x"#), "x");
    // No closing brace, empty digits, junk digits: the 'u' is kept
    // literally and scanning continues after it.
    assert_eq!(esc().unescape(r#"\u{1"#), "u{1");
    assert_eq!(esc().unescape(r#"\u{}"#), "u{}");
    assert_eq!(esc().unescape(r#"\u{zz}"#), "u{zz}");
    // Out-of-range and surrogate code points are not characters.
    assert_eq!(esc().unescape(r#"\u{110000}"#), "u{110000}");
    assert_eq!(esc().unescape(r#"\u{d800}"#), "u{d800}");
    assert_eq!(esc().unescape(r#"\u{ffffffffffffffff}"#), "u{ffffffffffffffff}");
}

#[test]
fn trailing_escape_char_is_consumed() {
    assert_eq!(esc().unescape(r#"abc\"#), "abc");
}

#[test]
fn unescape_is_total_on_untrusted_text() {
    // Arbitrary text decodes without error.
    let junk = r#"\\\u{\n\\\[]"\u{ffff,\"#;
    let _ = esc().unescape(junk);
}

#[test]
fn round_trip_with_non_ascii_text() {
    let input = "héllo ☃ [w]\n\u{7f}";
    let escaped = esc().escape(input);
    assert_eq!(esc().unescape(&escaped), input);
}
