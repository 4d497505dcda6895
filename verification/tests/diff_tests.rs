use umber::git::{parse_diff_header, parse_unified_diff, LineChange};

#[test]
fn modified_then_added_lines_are_classified() {
    let diff = "@@ -3,2 +3,3 @@\n-old\n+new1\n+new2\n";
    let changes = parse_unified_diff(diff);
    assert_eq!(changes.len(), 4);
    assert_eq!(changes[0], None);
    assert_eq!(changes[1], None);
    assert_eq!(changes[2], Some(LineChange::Modified));
    assert_eq!(changes[3], Some(LineChange::Added));
}

#[test]
fn pure_removals_yield_an_empty_map() {
    let diff = "@@ -3,1 +2,0 @@\n-foo\n";
    let changes = parse_unified_diff(diff);
    assert!(changes.is_empty());
}

#[test]
fn context_lines_advance_the_cursor() {
    let diff = "@@ -1,3 +1,3 @@\n a\n+b\n";
    let changes = parse_unified_diff(diff);
    assert_eq!(changes.len(), 2);
    assert_eq!(changes[0], None);
    assert_eq!(changes[1], Some(LineChange::Added));
}

#[test]
fn metadata_lines_are_skipped() {
    let diff = "--- a/x\n+++ b/x\n@@ -1,0 +1,1 @@\n+hi\n\\ No newline at end of file\n";
    let changes = parse_unified_diff(diff);
    assert_eq!(changes.len(), 1);
    assert_eq!(changes[0], Some(LineChange::Added));
}

#[test]
fn malformed_headers_leave_the_cursor_alone() {
    let diff = "@@ nonsense @@\n+first\n";
    let changes = parse_unified_diff(diff);
    assert_eq!(changes.len(), 1);
    assert_eq!(changes[0], Some(LineChange::Added));
}

#[test]
fn empty_and_garbage_input_degrade_to_no_changes() {
    assert!(parse_unified_diff("").is_empty());
    assert!(parse_unified_diff("nothing to see here\njust text\n").is_empty());
}

#[test]
fn hunk_headers_parse_both_starts() {
    let h = parse_diff_header("@@ -3,5 +7,6 @@").expect("header should parse");
    assert_eq!(h.old_start, 3);
    assert_eq!(h.new_start, 7);
    assert!(parse_diff_header("@@ -3,5 @@").is_none());
    assert!(parse_diff_header("@@ -x,5 +7,6 @@").is_none());
    assert!(parse_diff_header("@@ 3,5 +7,6 @@").is_none());
    assert!(parse_diff_header("not a header").is_none());
}

#[test]
fn later_hunks_reset_the_cursor() {
    let diff = "@@ -1,0 +1,1 @@\n+one\n@@ -10,0 +10,1 @@\n+ten\n";
    let changes = parse_unified_diff(diff);
    assert_eq!(changes.len(), 10);
    assert_eq!(changes[0], Some(LineChange::Added));
    assert_eq!(changes[9], Some(LineChange::Added));
    assert!(changes[1..9].iter().all(|c| c.is_none()));
}
