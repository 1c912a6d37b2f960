use celkit::{escape_text, unescape_text};

#[test]
fn escape_short_forms() {
    assert_eq!(escape_text("\u{8}\u{c}\n\r\t\\\""), "\\b\\f\\n\\r\\t\\\\\\\"");
}

#[test]
fn escape_other_control_characters() {
    assert_eq!(escape_text("\u{0}"), "\\u{0000}");
    assert_eq!(escape_text("\u{1f}"), "\\u{001f}");
    assert_eq!(escape_text("\u{7f}"), "\\u{007f}");
    assert_eq!(escape_text("\u{9f}"), "\\u{009f}");
    assert_eq!(escape_text("\u{1b}[0m"), "\\u{001b}[0m");
}

#[test]
fn escape_leaves_everything_else() {
    assert_eq!(escape_text(""), "");
    assert_eq!(escape_text("plain text 123"), "plain text 123");
    assert_eq!(escape_text("é ß 日本語 😀 \u{a0}"), "é ß 日本語 😀 \u{a0}");
    assert_eq!(escape_text("'/{}"), "'/{}");
}

#[test]
fn unescape_all_forms() {
    assert_eq!(unescape_text("\\b\\f\\n\\r\\t\\\\\\\"").unwrap(), "\u{8}\u{c}\n\r\t\\\"");
    assert_eq!(unescape_text("\\u{0041}\\u{00e9}\\u{001F}").unwrap(), "Aé\u{1f}");
    assert_eq!(unescape_text("\\u{ffff}").unwrap(), "\u{ffff}");
    assert_eq!(unescape_text("").unwrap(), "");
    assert_eq!(unescape_text("no escapes").unwrap(), "no escapes");
}

#[test]
fn unescape_inverts_escape() {
    let all_low: String = (0u32..0x100).filter_map(char::from_u32).collect();
    for s in ["", "a\nb", "\"quoted\"", "back\\slash", "tab\there", "é日本語😀", "\u{0}\u{7f}\u{85}", &all_low] {
        assert_eq!(unescape_text(&escape_text(s)).unwrap(), s);
    }
}

#[test]
fn unescape_unrecognized_escape() {
    let e = unescape_text("ab\\qcd").unwrap_err();
    assert_eq!(e.message, "unrecognized escape sequence");
    assert_eq!((e.line, e.column), (Some(1), Some(3)));
    assert!(e.context.is_none());
}

#[test]
fn unescape_unterminated_escape() {
    let e = unescape_text("abc\\").unwrap_err();
    assert_eq!(e.message, "unterminated escape sequence");
    assert_eq!((e.line, e.column), (Some(1), Some(4)));
}

#[test]
fn unescape_bad_unicode_escapes() {
    for bad in ["\\u{41}", "\\u{004}", "\\u{00g1}", "\\u0041", "\\u{0041", "\\u{00411}", "\\u{d800}", "\\u", "\\u{"] {
        let e = unescape_text(bad).unwrap_err();
        assert_eq!(e.message, "invalid unicode escape sequence", "{}", bad);
        assert_eq!((e.line, e.column), (Some(1), Some(1)));
    }
}

#[test]
fn unescape_error_position_counts_lines() {
    let e = unescape_text("one\ntwo\nth\\xree").unwrap_err();
    assert_eq!((e.line, e.column), (Some(3), Some(3)));
}
