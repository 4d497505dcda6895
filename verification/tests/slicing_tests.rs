use umber::slicing::{
    count_lines_bytes, slice_bytes_by_line_range, squeeze_blank_lines_bytes, LineRange,
};

fn bytes(s: &str) -> Vec<u8> {
    s.as_bytes().to_vec()
}

#[test]
fn slice_keeps_only_lines_in_range() {
    let b = bytes("one\ntwo\nthree\nfour\n");
    let out = slice_bytes_by_line_range(&b, LineRange { start: 2, end: 3 });
    assert_eq!(out, bytes("two\nthree\n"));
}

#[test]
fn slice_includes_final_unterminated_line() {
    let b = bytes("one\ntwo\nthree");
    let out = slice_bytes_by_line_range(&b, LineRange { start: 3, end: 5 });
    assert_eq!(out, bytes("three"));
}

#[test]
fn slice_of_empty_input_is_empty() {
    let b: Vec<u8> = Vec::new();
    let out = slice_bytes_by_line_range(&b, LineRange { start: 1, end: 10 });
    assert!(out.is_empty());
}

#[test]
fn slice_past_the_end_is_empty() {
    let b = bytes("one\ntwo\n");
    let out = slice_bytes_by_line_range(&b, LineRange { start: 5, end: 9 });
    assert!(out.is_empty());
}

#[test]
fn slice_from_line_one_is_idempotent() {
    let b = bytes("a\nb\nc\nd\ne\n");
    let r = LineRange { start: 1, end: 3 };
    let once = slice_bytes_by_line_range(&b, r);
    let twice = slice_bytes_by_line_range(&once, r);
    assert_eq!(once, bytes("a\nb\nc\n"));
    assert_eq!(twice, once);
}

#[test]
fn squeeze_collapses_blank_runs_to_the_limit() {
    let b = bytes("a\n\n\n\n\nb\n\n\nc\n");
    let out = squeeze_blank_lines_bytes(&b, 1);
    assert_eq!(out, bytes("a\n\nb\n\nc\n"));
    let out2 = squeeze_blank_lines_bytes(&b, 2);
    assert_eq!(out2, bytes("a\n\n\nb\n\n\nc\n"));
}

#[test]
fn squeeze_limit_zero_removes_all_blank_lines() {
    let b = bytes("a\n\n\nb\n");
    let out = squeeze_blank_lines_bytes(&b, 0);
    assert_eq!(out, bytes("a\nb\n"));
}

#[test]
fn squeeze_treats_crlf_blank_lines_as_blank() {
    let b = bytes("a\r\n\r\n\r\n\r\nb\r\n");
    let out = squeeze_blank_lines_bytes(&b, 1);
    assert_eq!(out, bytes("a\r\n\r\nb\r\n"));
}

#[test]
fn squeeze_is_idempotent() {
    let b = bytes("\n\n\nx\n\n\n\ny\n\n");
    for limit in 0..4usize {
        let once = squeeze_blank_lines_bytes(&b, limit);
        let twice = squeeze_blank_lines_bytes(&once, limit);
        assert_eq!(twice, once, "limit {limit}");
    }
}

#[test]
fn squeeze_never_leaves_a_long_blank_run() {
    let b = bytes("\n\n\n\n\na\n\n\n\n\n\nb\n\n\n");
    for limit in 0..4usize {
        let out = squeeze_blank_lines_bytes(&b, limit);
        let mut run = 0usize;
        for line in out.split_inclusive(|c: &u8| *c == b'\n') {
            let mut content = line;
            if content.last() == Some(&b'\n') {
                content = &content[..content.len() - 1];
            }
            if content.last() == Some(&b'\r') {
                content = &content[..content.len() - 1];
            }
            if content.is_empty() {
                run += 1;
                assert!(run <= limit, "limit {limit}");
            } else {
                run = 0;
            }
        }
    }
}

#[test]
fn count_lines_counts_terminated_and_final_lines() {
    assert_eq!(count_lines_bytes(&bytes("")), 0);
    assert_eq!(count_lines_bytes(&bytes("a")), 1);
    assert_eq!(count_lines_bytes(&bytes("a\n")), 1);
    assert_eq!(count_lines_bytes(&bytes("a\nb")), 2);
    assert_eq!(count_lines_bytes(&bytes("a\nb\n")), 2);
}
