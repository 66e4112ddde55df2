use termview::text::{char_is_whitespace, strip_text_indent};

#[test]
fn plain_line_is_kept() {
    assert_eq!(strip_text_indent("Hello"), "Hello");
}

#[test]
fn indented_lines_keep_one_space() {
    assert_eq!(strip_text_indent("\n    hello\n  world  "), " hello world");
}

#[test]
fn crlf_ends_a_line() {
    assert_eq!(strip_text_indent("a\r\nb"), "ab");
    assert_eq!(strip_text_indent("a\r"), " a");
}

#[test]
fn whitespace_only_becomes_one_space() {
    assert_eq!(strip_text_indent("   "), " ");
    assert_eq!(strip_text_indent("\n"), "");
    assert_eq!(strip_text_indent(""), "");
}

#[test]
fn unicode_whitespace_is_trimmed() {
    assert_eq!(strip_text_indent("\u{a0}x\u{2003}"), " x");
    assert_eq!(strip_text_indent("été"), "été");
}

#[test]
fn whitespace_set_agrees_with_std() {
    for u in 0u32..=0x10ffff {
        if let Some(c) = char::from_u32(u) {
            assert_eq!(char_is_whitespace(c), c.is_whitespace(), "{u:#x}");
        }
    }
}

#[test]
fn zero_width_space_is_not_trimmed() {
    assert_eq!(strip_text_indent("\u{200b}x"), "\u{200b}x");
}
