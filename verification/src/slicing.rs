//! Line-oriented byte buffer operations: slicing a buffer to a 1-based
//! inclusive line range, compacting runs of blank lines, and counting lines.
//!
//! All of it works on raw bytes, before any UTF-8 interpretation: lines are
//! maximal runs ending in `\n` (byte 10), plus a final unterminated run.

use vstd::prelude::*;

verus! {

/// A 1-based inclusive line range.
#[derive(Debug, Clone, Copy, PartialEq, Eq, Structural)]
pub struct LineRange {
    pub start: usize,
    pub end: usize,
}

/// The invariant of a line range: 1-based and non-empty.
pub open spec fn wf_line_range(r: LineRange) -> bool {
    1 <= r.start && r.start <= r.end
}

/// Length of the first line of `b`, including its `\n` terminator if any.
pub open spec fn first_line_len(b: Seq<u8>) -> int
    decreases b.len(),
{
    if b.len() == 0 {
        0
    } else if b[0] == 10 {
        1
    } else {
        1 + first_line_len(b.drop_first())
    }
}

pub proof fn lemma_first_line_len_bounds(b: Seq<u8>)
    requires
        b.len() > 0,
    ensures
        1 <= first_line_len(b) <= b.len(),
    decreases b.len(),
{
    if b[0] == 10 {
    } else if b.len() == 1 {
        assert(b.drop_first().len() == 0);
        assert(first_line_len(b.drop_first()) == 0);
    } else {
        lemma_first_line_len_bounds(b.drop_first());
    }
}

/// The lines of `b`: each keeps its terminator; a final run without `\n`
/// counts as a line; empty input has no lines.
pub open spec fn byte_lines(b: Seq<u8>) -> Seq<Seq<u8>>
    decreases b.len(),
    via byte_lines_decreases
{
    if b.len() == 0 {
        seq![]
    } else {
        seq![b.take(first_line_len(b))] + byte_lines(b.skip(first_line_len(b)))
    }
}

#[via_fn]
proof fn byte_lines_decreases(b: Seq<u8>) {
    if b.len() > 0 {
        lemma_first_line_len_bounds(b);
    }
}

/// `first_line_len` is where the scan for the first `\n` stops.
proof fn lemma_first_line_scan(s: Seq<u8>, k: int)
    requires
        0 <= k <= s.len(),
        forall|j: int| 0 <= j < k ==> s[j] != 10,
        k == s.len() || s[k] == 10,
    ensures
        first_line_len(s) == if k < s.len() {
            k + 1
        } else {
            k
        },
    decreases k,
{
    if k == 0 {
    } else {
        lemma_first_line_scan(s.drop_first(), k - 1);
    }
}

/// Splitting off the first line of the tail of `b`.
pub proof fn lemma_byte_lines_step(b: Seq<u8>, pos: int, end: int)
    requires
        0 <= pos < b.len(),
        end == pos + first_line_len(b.skip(pos)),
    ensures
        pos < end <= b.len(),
        byte_lines(b.skip(pos)) == seq![b.subrange(pos, end)] + byte_lines(b.skip(end)),
{
    lemma_first_line_len_bounds(b.skip(pos));
    assert(b.skip(pos).take(first_line_len(b.skip(pos))) =~= b.subrange(pos, end));
    assert(b.skip(pos).skip(first_line_len(b.skip(pos))) =~= b.skip(end));
}

/// Find the end of the line starting at `start`: one past its `\n`, or the
/// end of the buffer for a final unterminated line.
pub fn find_line_end(bytes: &Vec<u8>, start: usize) -> (end: usize)
    requires
        start < bytes@.len(),
    ensures
        start < end <= bytes@.len(),
        end - start == first_line_len(bytes@.skip(start as int)),
        end <= bytes@.len() && (end - start < first_line_len(bytes@.skip(start as int)) + 1),
        forall|j: int| start <= j < end - 1 ==> bytes@[j] != 10,
        bytes@[end - 1] == 10 || end == bytes@.len(),
    decreases bytes@.len() - start,
{
    let mut pos: usize = start;
    while pos < bytes.len() && bytes[pos] != 10
        invariant
            start <= pos <= bytes@.len(),
            forall|j: int| start <= j < pos ==> bytes@[j] != 10,
        decreases bytes@.len() - pos,
    {
        pos += 1;
    }
    proof {
        let s = bytes@.skip(start as int);
        let k = pos - start;
        assert(forall|j: int| 0 <= j < k ==> s[j] == bytes@[start + j] && bytes@[start + j] != 10);
        assert(k == s.len() || s[k] == 10);
        lemma_first_line_scan(s, k);
    }
    if pos < bytes.len() {
        pos + 1
    } else {
        pos
    }
}

/// Append `bytes[from..to]` to `out`.
pub fn push_byte_range(out: &mut Vec<u8>, bytes: &Vec<u8>, from: usize, to: usize)
    requires
        from <= to <= bytes@.len(),
    ensures
        final(out)@ == old(out)@ + bytes@.subrange(from as int, to as int),
{
    let mut i: usize = from;
    while i < to
        invariant
            from <= i <= to <= bytes@.len(),
            out@ =~= old(out)@ + bytes@.subrange(from as int, i as int),
        decreases to - i,
    {
        let b: u8 = bytes[i];
        out.push(b);
        assert(out@ =~= old(out)@ + bytes@.subrange(from as int, i as int + 1));
        i += 1;
    }
}

/// The bytes that a slice to lines `[start, end]` keeps, walking the lines
/// from 1-based position `line_no` and stopping past `end`.
pub open spec fn slice_lines_from(ls: Seq<Seq<u8>>, start: int, end: int, line_no: int) -> Seq<u8>
    decreases ls.len(),
{
    if ls.len() == 0 || line_no > end {
        Seq::empty()
    } else {
        (if line_no >= start {
            ls[0]
        } else {
            Seq::empty()
        }) + slice_lines_from(ls.drop_first(), start, end, line_no + 1)
    }
}

/// What slicing a buffer to a line range returns: the in-range lines,
/// each with its terminator, in order.
pub open spec fn slice_spec(b: Seq<u8>, r: LineRange) -> Seq<u8> {
    slice_lines_from(byte_lines(b), r.start as int, r.end as int, 1)
}

/// Copy the bytes of the 1-based inclusive line range `range` out of
/// `bytes`, stopping the scan once past `range.end`. A final unterminated
/// line counts as a line.
pub fn slice_bytes_by_line_range(bytes: &Vec<u8>, range: LineRange) -> (out: Vec<u8>)
    requires
        wf_line_range(range),
    ensures
        out@ == slice_spec(bytes@, range),
{
    let mut out: Vec<u8> = Vec::new();
    let mut pos: usize = 0;
    let mut line_no: usize = 1;
    proof {
        assert(bytes@.skip(0) =~= bytes@);
        assert(out@ + slice_spec(bytes@, range) =~= slice_spec(bytes@, range));
    }
    while pos < bytes.len() && line_no <= range.end
        invariant
            wf_line_range(range),
            pos <= bytes@.len(),
            1 <= line_no,
            line_no <= pos + 1,
            slice_spec(bytes@, range) == out@ + slice_lines_from(
                byte_lines(bytes@.skip(pos as int)),
                range.start as int,
                range.end as int,
                line_no as int,
            ),
        decreases bytes@.len() - pos,
    {
        let line_start = pos;
        let end = find_line_end(bytes, pos);
        proof {
            lemma_byte_lines_step(bytes@, pos as int, end as int);
        }
        let ghost line = bytes@.subrange(line_start as int, end as int);
        let ghost ls = byte_lines(bytes@.skip(line_start as int));
        let ghost rest = byte_lines(bytes@.skip(end as int));
        let ghost out0 = out@;
        if line_no >= range.start {
            push_byte_range(&mut out, bytes, line_start, end);
        }
        proof {
            let st = range.start as int;
            let en = range.end as int;
            let ln = line_no as int;
            assert(ls.drop_first() =~= rest);
            assert(ls[0] == line);
            let kept = if ln >= st {
                line
            } else {
                Seq::<u8>::empty()
            };
            assert(slice_lines_from(ls, st, en, ln) == kept + slice_lines_from(rest, st, en, ln
                + 1));
            assert(out@ =~= out0 + kept);
            assert((out0 + kept) + slice_lines_from(rest, st, en, ln + 1) =~= out0 + (kept
                + slice_lines_from(rest, st, en, ln + 1)));
        }
        pos = end;
        if line_no == range.end {
            proof {
                assert(slice_lines_from(rest, range.start as int, range.end as int, line_no as int
                    + 1) =~= Seq::<u8>::empty());
                assert(out@ + Seq::<u8>::empty() =~= out@);
            }
            return out;
        }
        line_no += 1;
    }
    proof {
        assert(out@ + Seq::<u8>::empty() =~= out@);
    }
    proof {
        if pos >= bytes@.len() {
            assert(bytes@.skip(pos as int) =~= Seq::<u8>::empty());
            assert(byte_lines(bytes@.skip(pos as int)) =~= Seq::<Seq<u8>>::empty());
        }
    }
    out
}

/// Whether a line is blank: empty content once its `\n` terminator and a
/// single `\r` directly before it (or at the end of an unterminated line)
/// are set aside.
pub open spec fn is_blank_line(l: Seq<u8>) -> bool {
    let c = if l.len() > 0 && l.last() == 10 {
        l.drop_last()
    } else {
        l
    };
    let c2 = if c.len() > 0 && c.last() == 13 {
        c.drop_last()
    } else {
        c
    };
    c2.len() == 0
}

/// The bytes that blank-line compaction keeps, walking the lines with `cnt`
/// blank lines immediately before the current position: a blank line is kept
/// only while the running count stays within `limit`; a non-blank line resets
/// the count.
pub open spec fn squeeze_lines_from(ls: Seq<Seq<u8>>, limit: int, cnt: int) -> Seq<u8>
    decreases ls.len(),
{
    if ls.len() == 0 {
        Seq::empty()
    } else if is_blank_line(ls[0]) {
        (if cnt + 1 <= limit {
            ls[0]
        } else {
            Seq::empty()
        }) + squeeze_lines_from(ls.drop_first(), limit, cnt + 1)
    } else {
        ls[0] + squeeze_lines_from(ls.drop_first(), limit, 0)
    }
}

/// What blank-line compaction returns for a whole buffer.
pub open spec fn squeeze_spec(b: Seq<u8>, limit: int) -> Seq<u8> {
    squeeze_lines_from(byte_lines(b), limit, 0)
}

/// Collapse every run of consecutive blank lines to at most `limit` lines.
/// A line whose content is empty apart from an optional `\r` before its
/// terminator counts as blank.
pub fn squeeze_blank_lines_bytes(bytes: &Vec<u8>, limit: usize) -> (out: Vec<u8>)
    ensures
        out@ == squeeze_spec(bytes@, limit as int),
{
    let mut out: Vec<u8> = Vec::new();
    let mut pos: usize = 0;
    let mut blank_count: usize = 0;
    proof {
        assert(bytes@.skip(0) =~= bytes@);
        assert(out@ + squeeze_spec(bytes@, limit as int) =~= squeeze_spec(bytes@, limit as int));
    }
    while pos < bytes.len()
        invariant
            pos <= bytes@.len(),
            blank_count <= pos,
            squeeze_spec(bytes@, limit as int) == out@ + squeeze_lines_from(
                byte_lines(bytes@.skip(pos as int)),
                limit as int,
                blank_count as int,
            ),
        decreases bytes@.len() - pos,
    {
        let line_start = pos;
        let end = find_line_end(bytes, pos);
        proof {
            lemma_byte_lines_step(bytes@, pos as int, end as int);
        }
        let ghost line = bytes@.subrange(line_start as int, end as int);
        let content_nl: usize = if bytes[end - 1] == 10 {
            end - 1
        } else {
            end
        };
        let content_end: usize = if content_nl > line_start && bytes[content_nl - 1] == 13 {
            content_nl - 1
        } else {
            content_nl
        };
        let blank = content_end == line_start;
        proof {
            let c = if line.len() > 0 && line.last() == 10 {
                line.drop_last()
            } else {
                line
            };
            assert(c =~= bytes@.subrange(line_start as int, content_nl as int));
            let c2 = if c.len() > 0 && c.last() == 13 {
                c.drop_last()
            } else {
                c
            };
            assert(c2 =~= bytes@.subrange(line_start as int, content_end as int));
            assert(blank == is_blank_line(line));
        }
        let ghost ls = byte_lines(bytes@.skip(line_start as int));
        let ghost rest = byte_lines(bytes@.skip(end as int));
        let ghost out0 = out@;
        let ghost cnt0 = blank_count as int;
        if blank {
            blank_count += 1;
            if blank_count <= limit {
                push_byte_range(&mut out, bytes, line_start, end);
            }
        } else {
            blank_count = 0;
            push_byte_range(&mut out, bytes, line_start, end);
        }
        proof {
            let li = limit as int;
            assert(ls.drop_first() =~= rest);
            assert(ls[0] == line);
            let kept = if is_blank_line(line) {
                if cnt0 + 1 <= li {
                    line
                } else {
                    Seq::<u8>::empty()
                }
            } else {
                line
            };
            assert(squeeze_lines_from(ls, li, cnt0) == kept + squeeze_lines_from(
                rest,
                li,
                blank_count as int,
            ));
            assert(out@ =~= out0 + kept);
            assert((out0 + kept) + squeeze_lines_from(rest, li, blank_count as int) =~= out0 + (kept
                + squeeze_lines_from(rest, li, blank_count as int)));
        }
        pos = end;
    }
    proof {
        assert(bytes@.skip(pos as int) =~= Seq::<u8>::empty());
        assert(byte_lines(bytes@.skip(pos as int)) =~= Seq::<Seq<u8>>::empty());
    }
    out
}

/// Number of lines in a byte buffer: one per `\n`, plus a final unterminated
/// line; zero for an empty buffer.
pub fn count_lines_bytes(bytes: &Vec<u8>) -> (n: usize)
    ensures
        n == byte_lines(bytes@).len(),
{
    let mut pos: usize = 0;
    let mut n: usize = 0;
    proof {
        assert(bytes@.skip(0) =~= bytes@);
    }
    while pos < bytes.len()
        invariant
            pos <= bytes@.len(),
            n <= pos,
            byte_lines(bytes@).len() == n + byte_lines(bytes@.skip(pos as int)).len(),
        decreases bytes@.len() - pos,
    {
        let end = find_line_end(bytes, pos);
        proof {
            lemma_byte_lines_step(bytes@, pos as int, end as int);
        }
        pos = end;
        n += 1;
    }
    proof {
        assert(bytes@.skip(pos as int) =~= Seq::<u8>::empty());
        assert(byte_lines(bytes@.skip(pos as int)) =~= Seq::<Seq<u8>>::empty());
    }
    n
}

} // verus!

verus! {

/// Concatenation of a sequence of lines back into one byte sequence.
pub open spec fn concat_lines(ls: Seq<Seq<u8>>) -> Seq<u8>
    decreases ls.len(),
{
    if ls.len() == 0 {
        Seq::empty()
    } else {
        ls[0] + concat_lines(ls.drop_first())
    }
}

/// A well-formed line: non-empty, with `\n` at most as its final byte.
pub open spec fn wf_line(l: Seq<u8>) -> bool {
    l.len() > 0 && forall|i: int| 0 <= i < l.len() - 1 ==> l[i] != 10
}

/// A well-formed split: every piece is a line and every piece but the last
/// ends in `\n`.
pub open spec fn wf_lines(ls: Seq<Seq<u8>>) -> bool {
    (forall|i: int| 0 <= i < ls.len() ==> wf_line(#[trigger] ls[i])) && (forall|i: int|
        0 <= i < ls.len() - 1 ==> (#[trigger] ls[i]).last() == 10)
}

/// Bytes before the first line's final position hold no `\n`.
proof fn lemma_first_line_no_nl(b: Seq<u8>)
    requires
        b.len() > 0,
    ensures
        forall|j: int| 0 <= j < first_line_len(b) - 1 ==> b[j] != 10,
        first_line_len(b) == b.len() || b[first_line_len(b) - 1] == 10,
    decreases b.len(),
{
    lemma_first_line_len_bounds(b);
    if b[0] != 10 && b.len() > 1 {
        lemma_first_line_no_nl(b.drop_first());
        assert forall|j: int| 0 <= j < first_line_len(b) - 1 implies b[j] != 10 by {
            if j > 0 {
                assert(b.drop_first()[j - 1] != 10);
            }
        }
        let k = first_line_len(b);
        if k < b.len() {
            assert(first_line_len(b.drop_first()) == k - 1);
            lemma_first_line_len_bounds(b.drop_first());
            assert(k >= 2);
            assert(b.drop_first() =~= b.subrange(1, b.len() as int));
            assert(b.subrange(1, b.len() as int)[k - 2] == b[k - 1]);
            assert(b.drop_first()[k - 2] == 10);
        }
    }
}

/// Splitting a buffer into lines gives a well-formed split.
pub proof fn lemma_byte_lines_wf(b: Seq<u8>)
    ensures
        wf_lines(byte_lines(b)),
    decreases b.len(),
{
    if b.len() > 0 {
        let k = first_line_len(b);
        lemma_first_line_len_bounds(b);
        lemma_first_line_no_nl(b);
        let ls = byte_lines(b);
        let rest = byte_lines(b.skip(k));
        lemma_byte_lines_wf(b.skip(k));
        assert(wf_line(b.take(k)));
        if k < b.len() {
            assert(b.take(k).last() == 10);
        } else {
            assert(b.skip(k) =~= Seq::<u8>::empty());
            assert(rest =~= Seq::<Seq<u8>>::empty());
        }
        assert forall|i: int| 0 <= i < ls.len() implies wf_line(#[trigger] ls[i]) by {
            if i > 0 {
                assert(ls[i] == rest[i - 1]);
            }
        }
        assert forall|i: int| 0 <= i < ls.len() - 1 implies (#[trigger] ls[i]).last() == 10 by {
            if i > 0 {
                assert(ls[i] == rest[i - 1]);
            }
        }
    }
}

/// The first line of a concatenation that starts with a full line is that
/// line.
proof fn lemma_first_line_of_concat(l: Seq<u8>, rest: Seq<u8>)
    requires
        wf_line(l),
        l.last() == 10 || rest.len() == 0,
    ensures
        first_line_len(l + rest) == l.len(),
{
    let c = l + rest;
    if l.last() == 10 {
        assert(c[l.len() - 1] == 10);
        lemma_first_line_scan(c, l.len() - 1);
    } else {
        assert(c =~= l);
        lemma_first_line_scan(c, l.len() as int);
    }
}

/// Splitting the concatenation of a well-formed split returns the split.
pub proof fn lemma_byte_lines_roundtrip(ls: Seq<Seq<u8>>)
    requires
        wf_lines(ls),
    ensures
        byte_lines(concat_lines(ls)) == ls,
    decreases ls.len(),
{
    if ls.len() == 0 {
        assert(byte_lines(concat_lines(ls)) =~= ls);
    } else {
        let l = ls[0];
        let rest = ls.drop_first();
        let c = concat_lines(ls);
        assert(wf_line(l));
        if ls.len() > 1 {
            assert(l.last() == 10);
        } else {
            assert(rest =~= Seq::<Seq<u8>>::empty());
            assert(concat_lines(rest) =~= Seq::<u8>::empty());
        }
        lemma_first_line_of_concat(l, concat_lines(rest));
        assert(first_line_len(c) == l.len());
        assert(c.take(l.len() as int) =~= l);
        assert(c.skip(l.len() as int) =~= concat_lines(rest));
        assert(wf_lines(rest)) by {
            assert(forall|i: int|
                0 <= i < rest.len() ==> #[trigger] rest[i] == ls[i + 1] && wf_line(ls[i + 1]));
            assert forall|i: int| 0 <= i < rest.len() - 1 implies (#[trigger] rest[i]).last()
                == 10 by {
                assert(rest[i] == ls[i + 1]);
            }
        }
        lemma_byte_lines_roundtrip(rest);
        assert(byte_lines(c) =~= ls);
    }
}

/// `x` clamped into `[lo, hi]`.
pub open spec fn clamp(x: int, lo: int, hi: int) -> int {
    if x < lo {
        lo
    } else if x > hi {
        hi
    } else {
        x
    }
}

/// Walking lines from position `line_no` and keeping those in `[start, end]`
/// concatenates exactly the in-range block of lines: the slice holds bytes of
/// those lines and nothing else.
pub proof fn lemma_slice_from_concat(ls: Seq<Seq<u8>>, st: int, en: int, ln: int)
    requires
        1 <= st <= en,
        1 <= ln,
    ensures
        slice_lines_from(ls, st, en, ln) == concat_lines(
            ls.subrange(clamp(st - ln, 0, ls.len() as int), clamp(en - ln + 1, 0, ls.len() as int)),
        ),
    decreases ls.len(),
{
    let n = ls.len() as int;
    let lo = clamp(st - ln, 0, n);
    let hi = clamp(en - ln + 1, 0, n);
    if ls.len() == 0 {
        assert(ls.subrange(lo, hi) =~= Seq::<Seq<u8>>::empty());
    } else if ln > en {
        assert(hi == 0 && lo == 0);
        assert(ls.subrange(0, 0) =~= Seq::<Seq<u8>>::empty());
    } else {
        let rest = ls.drop_first();
        lemma_slice_from_concat(rest, st, en, ln + 1);
        let lo1 = clamp(st - ln - 1, 0, n - 1);
        let hi1 = clamp(en - ln, 0, n - 1);
        if ln >= st {
            assert(lo == 0);
            assert(hi >= 1);
            assert(lo1 == 0);
            assert(rest.subrange(lo1, hi1) =~= ls.subrange(1, hi));
            assert(ls.subrange(lo, hi).drop_first() =~= ls.subrange(1, hi));
            assert(ls.subrange(lo, hi)[0] == ls[0]);
            assert(concat_lines(ls.subrange(lo, hi)) == ls[0] + concat_lines(ls.subrange(1, hi)));
        } else {
            assert(lo >= 1);
            assert(rest.subrange(lo1, hi1) =~= ls.subrange(lo, hi));
            assert(Seq::<u8>::empty() + slice_lines_from(rest, st, en, ln + 1)
                =~= slice_lines_from(rest, st, en, ln + 1));
        }
    }
}

/// A prefix of a well-formed split is well formed.
proof fn lemma_wf_lines_prefix(ls: Seq<Seq<u8>>, hi: int)
    requires
        wf_lines(ls),
        0 <= hi <= ls.len(),
    ensures
        wf_lines(ls.subrange(0, hi)),
{
    let p = ls.subrange(0, hi);
    assert(forall|i: int| 0 <= i < p.len() ==> #[trigger] p[i] == ls[i]);
}

/// Slicing keeps exactly the bytes of the lines in the range: the result is
/// the concatenation of lines `start` through `end` (1-based, clamped to the
/// lines that exist) of the input, each with its terminator.
pub proof fn lemma_slice_selects_range(b: Seq<u8>, r: LineRange)
    requires
        wf_line_range(r),
    ensures
        slice_spec(b, r) == concat_lines(
            byte_lines(b).subrange(
                clamp(r.start - 1, 0, byte_lines(b).len() as int),
                clamp(r.end as int, 0, byte_lines(b).len() as int),
            ),
        ),
{
    lemma_slice_from_concat(byte_lines(b), r.start as int, r.end as int, 1);
}

/// Slicing from line 1 is idempotent: slicing an already-sliced buffer with
/// the same range changes nothing. (With `start > 1` this fails: the sliced
/// result starts over at line 1, so its lines sit at new positions.)
pub proof fn lemma_slice_idempotent_from_first_line(b: Seq<u8>, r: LineRange)
    requires
        wf_line_range(r),
        r.start == 1,
    ensures
        slice_spec(slice_spec(b, r), r) == slice_spec(b, r),
{
    let ls = byte_lines(b);
    let n = ls.len() as int;
    let hi = clamp(r.end as int, 0, n);
    lemma_slice_selects_range(b, r);
    let sel = ls.subrange(0, hi);
    lemma_byte_lines_wf(b);
    lemma_wf_lines_prefix(ls, hi);
    lemma_byte_lines_roundtrip(sel);
    let s1 = slice_spec(b, r);
    assert(byte_lines(s1) == sel);
    lemma_slice_selects_range(s1, r);
    assert(sel.subrange(0, clamp(r.end as int, 0, sel.len() as int)) =~= sel);
}

} // verus!

verus! {

/// The lines that blank-line compaction keeps, walking the lines with `cnt`
/// blank lines immediately before the current position.
pub open spec fn squeeze_kept(ls: Seq<Seq<u8>>, limit: int, cnt: int) -> Seq<Seq<u8>>
    decreases ls.len(),
{
    if ls.len() == 0 {
        seq![]
    } else if is_blank_line(ls[0]) {
        (if cnt + 1 <= limit {
            seq![ls[0]]
        } else {
            seq![]
        }) + squeeze_kept(ls.drop_first(), limit, cnt + 1)
    } else {
        seq![ls[0]] + squeeze_kept(ls.drop_first(), limit, 0)
    }
}

/// The byte-level compaction is the concatenation of the kept lines.
pub proof fn lemma_squeeze_bytes_are_kept_lines(ls: Seq<Seq<u8>>, limit: int, cnt: int)
    ensures
        squeeze_lines_from(ls, limit, cnt) == concat_lines(squeeze_kept(ls, limit, cnt)),
    decreases ls.len(),
{
    if ls.len() > 0 {
        let rest = ls.drop_first();
        let kept_here = if is_blank_line(ls[0]) {
            if cnt + 1 <= limit {
                seq![ls[0]]
            } else {
                seq![]
            }
        } else {
            seq![ls[0]]
        };
        let cnt1: int = if is_blank_line(ls[0]) {
            cnt + 1
        } else {
            0
        };
        lemma_squeeze_bytes_are_kept_lines(rest, limit, cnt1);
        let tail = squeeze_kept(rest, limit, cnt1);
        if kept_here.len() == 1 {
            assert((kept_here + tail).drop_first() =~= tail);
            assert(concat_lines(kept_here + tail) == ls[0] + concat_lines(tail));
        } else {
            assert(kept_here + tail =~= tail);
            assert(Seq::<u8>::empty() + squeeze_lines_from(rest, limit, cnt1)
                =~= squeeze_lines_from(rest, limit, cnt1));
        }
    }
}

/// Compaction keeps a well-formed split well formed (it only drops lines).
proof fn lemma_squeeze_kept_wf(ls: Seq<Seq<u8>>, limit: int, cnt: int)
    requires
        wf_lines(ls),
    ensures
        wf_lines(squeeze_kept(ls, limit, cnt)),
        squeeze_kept(ls, limit, cnt).len() <= ls.len(),
    decreases ls.len(),
{
    if ls.len() == 0 {
    } else {
        let rest = ls.drop_first();
        let cnt1: int = if is_blank_line(ls[0]) {
            cnt + 1
        } else {
            0
        };
        assert(wf_lines(rest)) by {
            assert(forall|i: int|
                0 <= i < rest.len() ==> #[trigger] rest[i] == ls[i + 1] && wf_line(ls[i + 1]));
            assert forall|i: int| 0 <= i < rest.len() - 1 implies (#[trigger] rest[i]).last()
                == 10 by {
                assert(rest[i] == ls[i + 1]);
            }
        }
        lemma_squeeze_kept_wf(rest, limit, cnt1);
        let out = squeeze_kept(ls, limit, cnt);
        let tail = squeeze_kept(rest, limit, cnt1);
        let kept_here = if is_blank_line(ls[0]) && cnt + 1 > limit {
            Seq::<Seq<u8>>::empty()
        } else {
            seq![ls[0]]
        };
        assert(out =~= kept_here + tail);
        assert forall|i: int| 0 <= i < out.len() implies wf_line(#[trigger] out[i]) by {
            if i < kept_here.len() {
                assert(out[i] == ls[0]);
            } else {
                assert(out[i] == tail[i - kept_here.len()]);
            }
        }
        assert forall|i: int| 0 <= i < out.len() - 1 implies (#[trigger] out[i]).last() == 10 by {
            if i < kept_here.len() {
                assert(out[i] == ls[0]);
                assert(tail.len() > 0);
                assert(rest.len() > 0);
                assert(ls.len() > 1);
            } else {
                assert(out[i] == tail[i - kept_here.len()]);
            }
        }
    }
}

/// No blank run longer than the budget allows: every blank line spends one
/// unit of budget, a non-blank line restores it to `limit`. Starting with
/// budget `limit`, this says no more than `limit` consecutive blank lines
/// occur anywhere.
pub open spec fn runs_ok(ls: Seq<Seq<u8>>, limit: int, budget: int) -> bool
    decreases ls.len(),
{
    if ls.len() == 0 {
        true
    } else if is_blank_line(ls[0]) {
        budget > 0 && runs_ok(ls.drop_first(), limit, budget - 1)
    } else {
        runs_ok(ls.drop_first(), limit, limit)
    }
}

proof fn lemma_runs_ok_mono(ls: Seq<Seq<u8>>, limit: int, b1: int, b2: int)
    requires
        runs_ok(ls, limit, b1),
        b1 <= b2,
    ensures
        runs_ok(ls, limit, b2),
    decreases ls.len(),
{
    if ls.len() > 0 {
        if is_blank_line(ls[0]) {
            lemma_runs_ok_mono(ls.drop_first(), limit, b1 - 1, b2 - 1);
        } else {
            lemma_runs_ok_mono(ls.drop_first(), limit, limit, limit);
        }
    }
}

proof fn lemma_squeeze_kept_runs(ls: Seq<Seq<u8>>, limit: int, cnt: int)
    requires
        0 <= cnt,
        0 <= limit,
    ensures
        runs_ok(squeeze_kept(ls, limit, cnt), limit, if cnt <= limit {
            limit - cnt
        } else {
            0
        }),
    decreases ls.len(),
{
    if ls.len() > 0 {
        let rest = ls.drop_first();
        if is_blank_line(ls[0]) {
            lemma_squeeze_kept_runs(rest, limit, cnt + 1);
            if cnt + 1 <= limit {
                let out = squeeze_kept(ls, limit, cnt);
                let tail = squeeze_kept(rest, limit, cnt + 1);
                assert(out == seq![ls[0]] + tail);
                assert(out.drop_first() =~= tail);
                assert(out[0] == ls[0]);
            } else {
                assert(squeeze_kept(ls, limit, cnt) =~= squeeze_kept(rest, limit, cnt + 1));
            }
        } else {
            lemma_squeeze_kept_runs(rest, limit, 0);
            let out = squeeze_kept(ls, limit, cnt);
            let tail = squeeze_kept(rest, limit, 0);
            assert(out.drop_first() =~= tail);
            assert(out[0] == ls[0]);
        }
    }
}

/// Compacting a buffer leaves no run of more than `limit` consecutive blank
/// lines anywhere in the result.
pub proof fn lemma_squeeze_blank_runs_bounded(b: Seq<u8>, limit: int)
    requires
        0 <= limit,
    ensures
        runs_ok(byte_lines(squeeze_spec(b, limit)), limit, limit),
{
    let ls = byte_lines(b);
    lemma_byte_lines_wf(b);
    lemma_squeeze_bytes_are_kept_lines(ls, limit, 0);
    lemma_squeeze_kept_wf(ls, limit, 0);
    lemma_byte_lines_roundtrip(squeeze_kept(ls, limit, 0));
    lemma_squeeze_kept_runs(ls, limit, 0);
}

proof fn lemma_squeeze_kept_idem(ls: Seq<Seq<u8>>, limit: int, c1: int, c2: int)
    requires
        0 <= c2 <= c1,
    ensures
        squeeze_kept(squeeze_kept(ls, limit, c1), limit, c2) == squeeze_kept(ls, limit, c1),
    decreases ls.len(),
{
    if ls.len() > 0 {
        let rest = ls.drop_first();
        if is_blank_line(ls[0]) {
            lemma_squeeze_kept_idem(rest, limit, c1 + 1, if c1 + 1 <= limit {
                c2 + 1
            } else {
                c2
            });
            let tail = squeeze_kept(rest, limit, c1 + 1);
            if c1 + 1 <= limit {
                let out = seq![ls[0]] + tail;
                assert(squeeze_kept(ls, limit, c1) == out);
                assert(out.drop_first() =~= tail);
                assert(out[0] == ls[0]);
                assert(c2 + 1 <= limit);
                assert(squeeze_kept(out, limit, c2) =~= seq![ls[0]] + squeeze_kept(
                    tail,
                    limit,
                    c2 + 1,
                ));
            } else {
                assert(squeeze_kept(ls, limit, c1) =~= tail);
            }
        } else {
            lemma_squeeze_kept_idem(rest, limit, 0, 0);
            let tail = squeeze_kept(rest, limit, 0);
            let out = seq![ls[0]] + tail;
            assert(squeeze_kept(ls, limit, c1) == out);
            assert(out.drop_first() =~= tail);
            assert(out[0] == ls[0]);
            assert(squeeze_kept(out, limit, c2) =~= seq![ls[0]] + squeeze_kept(tail, limit, 0));
        }
    }
}

/// Compaction is idempotent: compacting an already-compacted buffer with the
/// same limit changes nothing.
pub proof fn lemma_squeeze_idempotent(b: Seq<u8>, limit: int)
    requires
        0 <= limit,
    ensures
        squeeze_spec(squeeze_spec(b, limit), limit) == squeeze_spec(b, limit),
{
    let ls = byte_lines(b);
    lemma_byte_lines_wf(b);
    lemma_squeeze_bytes_are_kept_lines(ls, limit, 0);
    lemma_squeeze_kept_wf(ls, limit, 0);
    let kept = squeeze_kept(ls, limit, 0);
    lemma_byte_lines_roundtrip(kept);
    assert(byte_lines(squeeze_spec(b, limit)) == kept);
    lemma_squeeze_bytes_are_kept_lines(kept, limit, 0);
    lemma_squeeze_kept_idem(ls, limit, 0, 0);
}

} // verus!

verus! {

/// Whether lines `i..=j` of a split are all blank.
pub open spec fn all_blank(ls: Seq<Seq<u8>>, i: int, j: int) -> bool {
    forall|k: int| i <= k <= j ==> is_blank_line(#[trigger] ls[k])
}

/// The quantified form of the blank-run bound: no window of more than
/// `limit` consecutive blank lines exists anywhere in the split.
pub open spec fn blank_runs_bounded(ls: Seq<Seq<u8>>, limit: int) -> bool {
    forall|i: int, j: int|
        0 <= i <= j < ls.len() && #[trigger] all_blank(ls, i, j) ==> j - i + 1 <= limit
}

proof fn lemma_runs_ok_windows(ls: Seq<Seq<u8>>, limit: int, budget: int)
    requires
        runs_ok(ls, limit, budget),
        0 <= budget <= limit,
    ensures
        forall|i: int, j: int|
            0 <= i <= j < ls.len() && #[trigger] all_blank(ls, i, j) ==> (if i == 0 {
                j + 1 <= budget
            } else {
                j - i + 1 <= limit
            }),
    decreases ls.len(),
{
    if ls.len() > 0 {
        let rest = ls.drop_first();
        let b1: int = if is_blank_line(ls[0]) {
            budget - 1
        } else {
            limit
        };
        lemma_runs_ok_windows(rest, limit, b1);
        assert forall|i: int, j: int|
            0 <= i <= j < ls.len() && #[trigger] all_blank(ls, i, j) implies (if i == 0 {
            j + 1 <= budget
        } else {
            j - i + 1 <= limit
        }) by {
            if i == 0 {
                assert(is_blank_line(ls[0]));
                assert(budget > 0);
                if j > 0 {
                    assert(all_blank(rest, 0, j - 1)) by {
                        assert(forall|k: int|
                            0 <= k <= j - 1 ==> #[trigger] rest[k] == ls[k + 1] && is_blank_line(
                                ls[k + 1],
                            ));
                    }
                    assert(j - 1 + 1 <= b1);
                }
            } else {
                assert(all_blank(rest, i - 1, j - 1)) by {
                    assert(forall|k: int|
                        i - 1 <= k <= j - 1 ==> #[trigger] rest[k] == ls[k + 1] && is_blank_line(
                            ls[k + 1],
                        ));
                }
                if i - 1 == 0 {
                    assert(j - 1 + 1 <= b1);
                    assert(b1 <= limit);
                } else {
                    assert(j - 1 - (i - 1) + 1 <= limit);
                }
            }
        }
    }
}

/// Compacting a buffer leaves no window of more than `limit` consecutive
/// blank lines anywhere in the result (the quantified reading of the
/// blank-run budget).
pub proof fn lemma_squeeze_no_long_blank_window(b: Seq<u8>, limit: int)
    requires
        0 <= limit,
    ensures
        blank_runs_bounded(byte_lines(squeeze_spec(b, limit)), limit),
{
    lemma_squeeze_blank_runs_bounded(b, limit);
    lemma_runs_ok_windows(byte_lines(squeeze_spec(b, limit)), limit, limit);
}

} // verus!
