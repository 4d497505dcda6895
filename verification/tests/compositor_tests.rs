use umber::decorations::{render_decorated_line, DecorationConfig};
use umber::emit::{ended_with_newline, plain_fallback, plan_emit, preprocess_bytes, EmitPlan};
use umber::git::LineChange;
use umber::slicing::LineRange;
use umber::stream::{
    highlight_line_count, number_plain_text, write_highlight_iter_plain,
    write_highlight_iter_with_decorations, write_numbered_bytes, HlEvent, StreamBuffer,
};
use umber::style::{Style, Theme};
use umber::unprintable::CharStyle;

const DIM: &str = "\u{1b}[38;2;100;100;100m";
const RESET: &str = "\u{1b}[0m";

fn no_decorations() -> DecorationConfig {
    DecorationConfig {
        show_numbers: false,
        show_changes: false,
        show_headers: false,
    }
}

#[test]
fn stream_buffer_flushes_by_policy() {
    let mut b = StreamBuffer::new();
    b.push("hello ");
    b.push("world");
    assert_eq!(b.len(), 11);
    assert_eq!(b.sink, "");
    b.flush_if_at_least(100);
    assert_eq!(b.sink, "");
    b.flush_if_at_least(5);
    assert_eq!(b.sink, "hello world");
    assert_eq!(b.len(), 0);
    b.push("more");
    b.flush();
    assert_eq!(b.into_sink(), "hello worldmore");
}

#[test]
fn streaming_without_styling_reproduces_the_text() {
    // The streaming compositor must not drop or duplicate content: with a
    // theme that styles nothing, its output is exactly the input text.
    let text = "fn main() {\n    body\n}\n\nlast line";
    let events = vec![
        HlEvent::ScopeStart(0),
        HlEvent::Source("fn main() {\n    ".to_string()),
        HlEvent::ScopeEnd,
        HlEvent::Source("body\n}\n\nlast".to_string()),
        HlEvent::ScopeStart(1),
        HlEvent::Source(" line".to_string()),
        HlEvent::ScopeEnd,
    ];
    let theme = Theme::new_empty();
    let keys = vec!["keyword".to_string(), "none".to_string()];
    let mut out = StreamBuffer::new();
    write_highlight_iter_plain(&mut out, &events, &theme, &keys, false, CharStyle::Unicode);
    assert_eq!(out.into_sink(), text);
}

#[test]
fn streaming_styles_pieces_without_touching_content() {
    let events = vec![
        HlEvent::ScopeStart(0),
        HlEvent::Source("let".to_string()),
        HlEvent::ScopeEnd,
        HlEvent::Source(" x\n".to_string()),
    ];
    let mut theme = Theme::new_empty();
    theme.push_entry("keyword".to_string(), Style::color_only(1, 2, 3));
    let keys = vec!["keyword".to_string()];
    let mut out = StreamBuffer::new();
    write_highlight_iter_plain(&mut out, &events, &theme, &keys, false, CharStyle::Unicode);
    let rendered = out.into_sink();
    assert_eq!(rendered, "\u{1b}[38;2;1;2;3mlet\u{1b}[0m x\n");
}

#[test]
fn streaming_marks_line_feeds_in_unprintable_mode() {
    let events = vec![HlEvent::Source("ab\n\ncd".to_string())];
    let theme = Theme::new_empty();
    let keys: Vec<String> = Vec::new();
    let mut out = StreamBuffer::new();
    write_highlight_iter_plain(&mut out, &events, &theme, &keys, true, CharStyle::Unicode);
    // "ab" gets its glyph before the newline; the blank line gets none;
    // the final line has content, so it gets a trailing glyph.
    assert_eq!(out.into_sink(), "ab␊\n\ncd␊");
}

#[test]
fn decorated_lines_start_with_aligned_numbers() {
    // A 3-line file starting at line 10: numbers right-aligned to width 2,
    // whatever the per-line content length is.
    let theme = Theme::new_empty();
    let cfg = DecorationConfig {
        show_numbers: true,
        show_changes: false,
        show_headers: false,
    };
    let contents: [Vec<(String, Option<String>)>; 3] = [
        vec![("x".to_string(), None)],
        vec![("a much longer line of content".to_string(), None)],
        vec![],
    ];
    for (i, content) in contents.iter().enumerate() {
        let line_no = 10 + i;
        let out = render_decorated_line(content, line_no, &cfg, None, &theme, 2);
        let expected_prefix = format!("{DIM}{line_no}{RESET}{DIM} {RESET}{DIM}│ {RESET}");
        assert!(
            out.starts_with(&expected_prefix),
            "line {line_no}: {out:?}"
        );
    }
    // Narrower numbers are padded on the left.
    let out = render_decorated_line(&contents[0], 9, &cfg, None, &theme, 3);
    assert!(out.starts_with(&format!("{DIM}  9{RESET}")), "{out:?}");
}

#[test]
fn end_to_end_five_lines_with_one_modified() {
    // Feeding a 5-line file with one modified line and requesting both line
    // numbers and change markers yields exactly 5 rows, each beginning with
    // a right-aligned number, a one-character marker, and the grid glyph.
    let text = "alpha\nbeta\ngamma\ndelta\nepsilon";
    let events = vec![HlEvent::Source(text.to_string())];
    let changes = umber::git::parse_unified_diff("@@ -3,1 +3,1 @@\n-old gamma\n+gamma\n");
    assert_eq!(changes.len(), 3);
    assert_eq!(changes[2], Some(LineChange::Modified));
    let theme = Theme::new_empty();
    let keys: Vec<String> = Vec::new();
    let cfg = DecorationConfig {
        show_numbers: true,
        show_changes: true,
        show_headers: false,
    };
    let mut out = StreamBuffer::new();
    write_highlight_iter_with_decorations(
        &mut out,
        text,
        &events,
        &theme,
        &keys,
        &cfg,
        1,
        &changes,
        false,
        CharStyle::Unicode,
    );
    let rendered = out.into_sink();
    let rows: Vec<&str> = rendered.split('\n').collect();
    assert_eq!(rows.len(), 5, "{rendered:?}");
    let modified_marker = format!("\u{1b}[38;2;255;200;100m~{RESET}");
    let blank_marker = format!("{DIM} {RESET}");
    for (i, row) in rows.iter().enumerate() {
        let n = i + 1;
        assert!(row.starts_with(&format!("{DIM}{n}{RESET}")), "row {n}: {row:?}");
        if n == 3 {
            assert!(row.contains(&modified_marker), "row {n}: {row:?}");
        } else {
            assert!(!row.contains(&modified_marker), "row {n}: {row:?}");
            assert!(row.contains(&blank_marker), "row {n}: {row:?}");
        }
        assert!(row.contains("│ "), "row {n}: {row:?}");
    }
    assert!(rows[2].contains("gamma"));
}

#[test]
fn change_column_disappears_without_changes() {
    let text = "only\n";
    let events = vec![HlEvent::Source(text.to_string())];
    let changes: Vec<Option<LineChange>> = Vec::new();
    let theme = Theme::new_empty();
    let keys: Vec<String> = Vec::new();
    let cfg = DecorationConfig {
        show_numbers: true,
        show_changes: true,
        show_headers: false,
    };
    let mut out = StreamBuffer::new();
    write_highlight_iter_with_decorations(
        &mut out, text, &events, &theme, &keys, &cfg, 1, &changes, false, CharStyle::Unicode,
    );
    let rendered = out.into_sink();
    // Only number + separator + grid: no marker cell.
    assert!(rendered.starts_with(&format!("{DIM}1{RESET}{DIM} {RESET}{DIM}│ {RESET}only")));
}

#[test]
fn numbered_text_aligns_to_the_last_line() {
    let out = number_plain_text("a\nb\nc", 9, false, CharStyle::Unicode);
    assert_eq!(out, " 9  a\n10  b\n11  c");
    let out = number_plain_text("x y\n", 1, true, CharStyle::Unicode);
    assert_eq!(out, "1  x·y␊\n");
    assert_eq!(number_plain_text("", 1, false, CharStyle::Unicode), "");
}

#[test]
fn numbered_bytes_match_numbered_text() {
    let mut out: Vec<u8> = Vec::new();
    write_numbered_bytes(&mut out, &b"a\nb\nc".to_vec(), 9);
    assert_eq!(String::from_utf8(out).unwrap(), " 9  a\n10  b\n11  c");
    let mut empty: Vec<u8> = Vec::new();
    write_numbered_bytes(&mut empty, &Vec::new(), 1);
    assert!(empty.is_empty());
}

#[test]
fn line_counts_match_the_highlighter() {
    assert_eq!(highlight_line_count(""), 1);
    assert_eq!(highlight_line_count("a"), 1);
    assert_eq!(highlight_line_count("a\n"), 2);
    assert_eq!(highlight_line_count("a\nb"), 2);
}

#[test]
fn themes_find_styles_hierarchically() {
    let mut theme = Theme::new_empty();
    theme.push_entry("keyword".to_string(), Style::color_only(0, 0, 0));
    theme.push_entry("keyword.return".to_string(), Style::color_only(255, 0, 0));
    assert_eq!(
        theme.find_style("keyword.return"),
        Some(Style::color_only(255, 0, 0))
    );
    assert_eq!(
        theme.find_style("keyword.operator"),
        Some(Style::color_only(0, 0, 0))
    );
    assert_eq!(theme.find_style("keyword"), Some(Style::color_only(0, 0, 0)));
    assert_eq!(theme.find_style("other"), None);

    let mut fallback = Theme::new_empty();
    fallback.push_entry("_normal".to_string(), Style::color_only(7, 8, 9));
    assert_eq!(fallback.find_style("other"), Some(Style::color_only(7, 8, 9)));
}

#[test]
fn emit_plans_pick_the_right_path() {
    let none = no_decorations();
    let numbers = DecorationConfig {
        show_numbers: true,
        ..none
    };
    assert_eq!(plan_emit(false, &none, false, true, true), EmitPlan::RawBytes);
    assert_eq!(
        plan_emit(false, &none, true, true, false),
        EmitPlan::TransformedText
    );
    assert_eq!(
        plan_emit(true, &none, false, true, true),
        EmitPlan::HighlightText
    );
    assert_eq!(
        plan_emit(true, &numbers, false, true, false),
        EmitPlan::NumberedText
    );
    assert_eq!(
        plan_emit(true, &numbers, false, false, false),
        EmitPlan::NumberedBytes
    );
    assert_eq!(
        plan_emit(false, &numbers, false, true, true),
        EmitPlan::NumberedBytes
    );
    assert_eq!(
        plan_emit(false, &numbers, true, true, true),
        EmitPlan::NumberedText
    );
}

#[test]
fn preprocess_slices_then_squeezes() {
    let bytes = b"one\n\n\n\ntwo\nthree\n".to_vec();
    let out = preprocess_bytes(&bytes, Some(LineRange { start: 1, end: 5 }), true, 1);
    assert_eq!(String::from_utf8(out).unwrap(), "one\n\ntwo\n");
    let untouched = preprocess_bytes(&bytes, None, false, 1);
    assert_eq!(untouched, bytes);
    assert!(ended_with_newline(&bytes));
    assert!(!ended_with_newline(&b"abc".to_vec()));
    assert!(ended_with_newline(&Vec::new()));
}

#[test]
fn plain_fallback_matches_its_modes() {
    assert_eq!(
        plain_fallback("a\nb", true, false, 1, CharStyle::Unicode),
        "1  a\n2  b"
    );
    assert_eq!(
        plain_fallback("a b", false, true, 1, CharStyle::Unicode),
        "a·b"
    );
    assert_eq!(plain_fallback("as is", false, false, 1, CharStyle::Unicode), "as is");
}

#[test]
fn scope_underflow_is_a_harmless_no_op() {
    // A malformed event stream that closes scopes it never opened must not
    // crash or change the content.
    let events = vec![
        HlEvent::ScopeEnd,
        HlEvent::ScopeEnd,
        HlEvent::Source("x\ny".to_string()),
    ];
    let theme = Theme::new_empty();
    let keys: Vec<String> = Vec::new();
    let mut out = StreamBuffer::new();
    write_highlight_iter_plain(&mut out, &events, &theme, &keys, false, CharStyle::Unicode);
    assert_eq!(out.into_sink(), "x\ny");
}

#[test]
fn unknown_style_indices_render_unstyled() {
    let events = vec![
        HlEvent::ScopeStart(99),
        HlEvent::Source("plain".to_string()),
        HlEvent::ScopeEnd,
    ];
    let mut theme = Theme::new_empty();
    theme.push_entry("keyword".to_string(), Style::color_only(1, 2, 3));
    let keys = vec!["keyword".to_string()];
    let mut out = StreamBuffer::new();
    write_highlight_iter_plain(&mut out, &events, &theme, &keys, false, CharStyle::Unicode);
    assert_eq!(out.into_sink(), "plain");
}

#[test]
fn the_reserved_none_key_suppresses_styling() {
    let events = vec![
        HlEvent::ScopeStart(0),
        HlEvent::Source("quiet".to_string()),
        HlEvent::ScopeEnd,
    ];
    let mut theme = Theme::new_empty();
    theme.push_entry("none".to_string(), Style::color_only(1, 2, 3));
    let keys = vec!["none".to_string()];
    let mut out = StreamBuffer::new();
    write_highlight_iter_plain(&mut out, &events, &theme, &keys, false, CharStyle::Unicode);
    assert_eq!(out.into_sink(), "quiet");
}

#[test]
fn the_buffer_drains_itself_at_the_high_water_mark() {
    let mut b = StreamBuffer::new();
    let chunk = "x".repeat(1024);
    for _ in 0..63 {
        b.push(&chunk);
    }
    assert_eq!(b.sink, "");
    b.push(&chunk);
    assert_eq!(b.sink.len(), 64 * 1024);
    assert_eq!(b.len(), 0);
}
