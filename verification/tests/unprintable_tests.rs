use umber::unprintable::{get_char_style, show_unprintable, CharStyle};

#[test]
fn test_show_unprintable_unicode() {
    let input = "hello\tworld\n";
    let result = show_unprintable(input, CharStyle::Unicode);
    assert_eq!(result, "hello→world␊\n");
}

#[test]
fn test_show_unprintable_caret() {
    let input = "hello\tworld\n";
    let result = show_unprintable(input, CharStyle::Caret);
    assert_eq!(result, "hello^Iworld$\n");
}

#[test]
fn test_spaces_to_middle_dot() {
    let input = "hello world";
    let result = show_unprintable(input, CharStyle::Unicode);
    assert_eq!(result, "hello·world");
}

#[test]
fn test_carriage_return() {
    let input = "hello\rworld";
    let result = show_unprintable(input, CharStyle::Unicode);
    assert_eq!(result, "hello↵world");
}

#[test]
fn test_escape_character() {
    let input = "start\x1bend";
    let result = show_unprintable(input, CharStyle::Unicode);
    assert_eq!(result, "start␛end");
}

#[test]
fn test_null_character() {
    let input = "start\0end";
    let result = show_unprintable(input, CharStyle::Unicode);
    assert_eq!(result, "start␀end");
}

#[test]
fn test_other_control_chars() {
    let input = "start\x01\x02\x03end";
    let result = show_unprintable(input, CharStyle::Unicode);
    assert_eq!(result, "start␁␂␃end");
}

#[test]
fn test_del_character() {
    let input = "start\x7fend";
    let result = show_unprintable(input, CharStyle::Unicode);
    assert_eq!(result, "start␡end");
}

#[test]
fn control_chars_in_caret_mode() {
    assert_eq!(
        show_unprintable("start\x01\x02\x03end", CharStyle::Caret),
        "start^A^B^Cend"
    );
    assert_eq!(show_unprintable("a\rb", CharStyle::Caret), "a^Mb");
    assert_eq!(show_unprintable("a\x1bb", CharStyle::Caret), "a^[b");
    assert_eq!(show_unprintable("a\0b", CharStyle::Caret), "a^@b");
    assert_eq!(show_unprintable("a\x7fb", CharStyle::Caret), "a^?b");
}

#[test]
fn zero_width_characters_become_tags() {
    assert_eq!(
        show_unprintable("a\u{200b}b\u{200c}c\u{200d}d\u{feff}e", CharStyle::Unicode),
        "a[ZWSP]b[ZWNJ]c[ZWJ]d[BOM]e"
    );
    assert_eq!(
        show_unprintable("a\u{200b}b", CharStyle::Caret),
        "a[ZWSP]b"
    );
}

#[test]
fn ordinary_text_passes_through() {
    assert_eq!(
        show_unprintable("héllo→wörld", CharStyle::Unicode),
        "héllo→wörld"
    );
    assert_eq!(show_unprintable("", CharStyle::Caret), "");
}

#[test]
fn char_style_follows_locale() {
    assert!(matches!(get_char_style(None), CharStyle::Unicode));
    assert!(matches!(
        get_char_style(Some("en_US.UTF-8")),
        CharStyle::Unicode
    ));
    assert!(matches!(get_char_style(Some("de_DE.utf8")), CharStyle::Unicode));
    assert!(matches!(get_char_style(Some("C")), CharStyle::Caret));
    assert!(matches!(get_char_style(Some("POSIX")), CharStyle::Caret));
    assert!(matches!(get_char_style(Some("")), CharStyle::Caret));
}
