use escaping::is_sep;
use escaping::Escape;
use escaping::IsControl;

fn esc() -> Escape<IsControl> {
    Escape::new(
        '\\',
        &['\\', '[', ']', '"', '\0', '\n', '\r', '\t'],
        &[('\n', "n"), ('\r', "r"), ('\0', "0"), ('\t', "t")],
        Some(IsControl),
    )
    .unwrap()
}

#[test]
fn test_is_escaped() {
    let s = r#"foo \[e\] bar\n"#;
    // Characters: f o o ' ' \ [ e \ ] ' ' b a r \ n  (15 in all).
    assert!(esc().is_escaped(s, 5)); // position of [
    assert!(esc().is_escaped(s, 8)); // position of ]
    assert!(esc().is_escaped(s, 14)); // position of n
    assert!(!esc().is_escaped(s, 4)); // position of \
    assert!(!esc().is_escaped(s, 0)); // f
    assert!(!esc().is_escaped(s, 6)); // e
}

#[test]
fn is_escaped_parity_of_runs() {
    let s = r#"a\\\\b\\\c"#;
    // a \ \ \ \ b \ \ \ c
    assert!(!esc().is_escaped(s, 1)); // first backslash: nothing before it
    assert!(esc().is_escaped(s, 2)); // after one backslash
    assert!(!esc().is_escaped(s, 3)); // after two
    assert!(esc().is_escaped(s, 4)); // after three
    assert!(!esc().is_escaped(s, 5)); // b: after four
    assert!(esc().is_escaped(s, 9)); // c: after three
}

#[test]
fn is_escaped_past_the_end() {
    assert!(esc().is_escaped("ab", 3));
    assert!(!esc().is_escaped("ab", 2));
}

#[test]
fn test_split() {
    let s = "a\\,b,c\\,d";
    let parts: Vec<&str> = esc().split(s, ',');
    assert_eq!(parts, vec!["a\\,b", "c\\,d"]);
}

#[test]
fn test_splitn() {
    let s = "a\\,b,c\\,d";
    let parts: Vec<&str> = esc().splitn(s, 3, ',');
    assert_eq!(parts, vec!["a\\,b", "c\\,d"]);
}

#[test]
fn split_keeps_empty_segments() {
    let parts: Vec<&str> = esc().split("a,,b", ',');
    assert_eq!(parts, vec!["a", "", "b"]);
    let parts: Vec<&str> = esc().split(",a,", ',');
    assert_eq!(parts, vec!["", "a", ""]);
}

#[test]
fn split_of_empty_string() {
    let parts: Vec<&str> = esc().split("", ',');
    assert_eq!(parts, vec![""]);
}

#[test]
fn split_separator_after_escaped_separator() {
    // The separator right after the escape marker is data and clears the
    // flag, so the one that follows it splits.
    let parts: Vec<&str> = esc().split("a\\,,b", ',');
    assert_eq!(parts, vec!["a\\,", "b"]);
}

#[test]
fn splitn_limits_the_segments() {
    let s = "a,b,c,d";
    let parts: Vec<&str> = esc().splitn(s, 2, ',');
    assert_eq!(parts, vec!["a", "b,c,d"]);
    let parts: Vec<&str> = esc().splitn(s, 1, ',');
    assert_eq!(parts, vec!["a,b,c,d"]);
    let parts: Vec<&str> = esc().splitn(s, 0, ',');
    assert!(parts.is_empty());
}

#[test]
fn is_sep_threads_the_flag() {
    let mut flag = false;
    // "a\,b,c": only the second comma splits.
    assert!(!is_sep(&mut flag, '\\', 'a', ','));
    assert!(!is_sep(&mut flag, '\\', '\\', ','));
    assert!(flag);
    assert!(!is_sep(&mut flag, '\\', ',', ','));
    assert!(!flag);
    assert!(!is_sep(&mut flag, '\\', 'b', ','));
    assert!(is_sep(&mut flag, '\\', ',', ','));
    assert!(!is_sep(&mut flag, '\\', 'c', ','));
}

#[test]
fn escaped_escape_char_does_not_hide_a_separator() {
    // "x\\,y": the backslash is itself escaped, so the comma splits.
    let parts: Vec<&str> = esc().split("x\\\\,y", ',');
    assert_eq!(parts, vec!["x\\\\", "y"]);
}
