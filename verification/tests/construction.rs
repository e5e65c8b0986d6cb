use escaping::ConfigError;
use escaping::Escape;
use escaping::IsControl;

fn full_escaped() -> [char; 8] {
    ['\\', '[', ']', '"', '\0', '\n', '\r', '\t']
}

#[test]
fn test_new_success() {
    let _ = Escape::new(
        '\\',
        &full_escaped(),
        &[('\n', "n"), ('\r', "r"), ('\0', "0"), ('\t', "t")],
        Some(IsControl),
    )
    .unwrap();
}

#[test]
fn test_new_fail_missing_escape_char() {
    let res = Escape::<IsControl>::new(
        '\\',
        &['[', ']', '"', '\0', '\n', '\r', '\t'],
        &[('\n', "n"), ('\r', "r"), ('\0', "0"), ('\t', "t")],
        None,
    );
    assert!(res.is_err());
}

#[test]
fn test_new_fail_duplicate_tr_key() {
    let res = Escape::<IsControl>::new(
        '\\',
        &full_escaped(),
        &[('\n', "n"), ('\r', "r"), ('\0', "0"), ('\n', "t")], // duplicate key '\n'
        None,
    );
    assert!(res.is_err());
}

#[test]
fn test_new_fail_non_ascii_escape_char() {
    let res = Escape::<IsControl>::new(
        '☃',
        &full_escaped(),
        &[('\n', "n"), ('\r', "r"), ('\0', "0"), ('\t', "t")],
        None,
    );
    assert!(res.is_err());
}

#[test]
fn test_new_fail_translate_escape_char() {
    let res = Escape::<IsControl>::new(
        '\\',
        &full_escaped(),
        &[('\\', "esc"), ('\r', "r"), ('\0', "0"), ('\t', "t")],
        None,
    );
    assert!(res.is_err());
}

#[test]
fn test_new_fail_empty_translation_target() {
    let res = Escape::<IsControl>::new(
        '\\',
        &full_escaped(),
        &[('\n', ""), ('\r', "r"), ('\0', "0"), ('\t', "t")],
        None,
    );
    assert!(res.is_err());
}

#[test]
fn test_new_fail_non_ascii_translation_target() {
    let res = Escape::<IsControl>::new(
        '\\',
        &full_escaped(),
        &[('\n', "nñ"), ('\r', "r"), ('\0', "0"), ('\t', "t")],
        None,
    );
    assert!(res.is_err());
}

#[test]
fn test_new_fail_translation_starts_with_u() {
    let res = Escape::<IsControl>::new(
        '\\',
        &full_escaped(),
        &[('\n', "uabc"), ('\r', "r"), ('\0', "0"), ('\t', "t")],
        None,
    );
    assert!(res.is_err());
}

#[test]
fn test_new_fail_translation_contains_escape() {
    let res = Escape::<IsControl>::new(
        '\\',
        &full_escaped(),
        &[('\n', "n\\"), ('\r', "r"), ('\0', "0"), ('\t', "t")],
        None,
    );
    assert!(res.is_err());
}

#[test]
fn test_new_fail_key_not_in_escape() {
    let res = Escape::<IsControl>::new(
        '\\',
        &['\\', '[', ']', '"', '\0', '\r', '\t', 'x'],
        &[('\n', "n"), ('\r', "r"), ('\0', "0"), ('\t', "t")],
        None,
    );
    assert!(res.is_err());
}

#[test]
fn test_new_fail_duplicate_translation_target() {
    let res = Escape::<IsControl>::new(
        '\\',
        &full_escaped(),
        &[('\n', "n"), ('\r', "n"), ('\0', "0"), ('\t', "t")],
        None,
    );
    assert!(res.is_err());
}

#[test]
fn error_kinds_are_distinct() {
    let set = full_escaped();
    assert_eq!(
        Escape::<IsControl>::new('☃', &set, &[], None).unwrap_err(),
        ConfigError::NonAsciiEscapeChar
    );
    assert_eq!(
        Escape::<IsControl>::new('\\', &['a'], &[], None).unwrap_err(),
        ConfigError::EscapeCharNotEscaped
    );
    assert_eq!(
        Escape::<IsControl>::new('\\', &set, &[('\\', "e")], None).unwrap_err(),
        ConfigError::TranslatesEscapeChar
    );
    assert_eq!(
        Escape::<IsControl>::new('\\', &set, &[('\n', "")], None).unwrap_err(),
        ConfigError::EmptyTarget
    );
    assert_eq!(
        Escape::<IsControl>::new('\\', &set, &[('\n', "ñ")], None).unwrap_err(),
        ConfigError::NonAsciiTarget
    );
    assert_eq!(
        Escape::<IsControl>::new('\\', &set, &[('\n', "u1")], None).unwrap_err(),
        ConfigError::TargetStartsWithU
    );
    assert_eq!(
        Escape::<IsControl>::new('\\', &set, &[('\n', "n\\")], None).unwrap_err(),
        ConfigError::TargetContainsEscape
    );
    assert_eq!(
        Escape::<IsControl>::new('\\', &set, &[('x', "x")], None).unwrap_err(),
        ConfigError::KeyNotEscaped
    );
    assert_eq!(
        Escape::<IsControl>::new('\\', &set, &[('\n', "n"), ('\n', "m")], None).unwrap_err(),
        ConfigError::DuplicateKey
    );
    assert_eq!(
        Escape::<IsControl>::new('\\', &set, &[('\n', "n"), ('\r', "n")], None).unwrap_err(),
        ConfigError::DuplicateTarget
    );
}

#[test]
fn first_violation_wins() {
    // The escape character check comes before any translation check.
    let res = Escape::<IsControl>::new('☃', &['a'], &[('\n', "")], None);
    assert_eq!(res.unwrap_err(), ConfigError::NonAsciiEscapeChar);
}

#[test]
fn getters_return_the_configuration() {
    let esc = Escape::new(
        '\\',
        &full_escaped(),
        &[('\n', "n"), ('\r', "r"), ('\0', "0"), ('\t', "t")],
        Some(IsControl),
    )
    .unwrap();
    assert_eq!(esc.get_escape_char(), '\\');
    assert_eq!(esc.get_escaped(), &full_escaped());
    let tr = esc.get_tr();
    assert_eq!(tr.len(), 4);
    assert_eq!(tr[0].0, '\n');
    assert_eq!(tr[0].1.as_str(), "n");
    assert_eq!(tr[3].0, '\t');
    assert_eq!(tr[3].1.as_str(), "t");
}
