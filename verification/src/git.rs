//! Unified-diff parsing: turns `git diff --unified=0 --no-color` output into
//! a per-line change classification for the new file. Malformed input never
//! fails; unparsable pieces are skipped.

use vstd::prelude::*;

use crate::strutil::{
    chars_to_string, parse_usize, parse_usize_spec, split_all, split_all_exec, str_lines,
    str_to_chars, strs_view, lines_spec, ws_tokens, ws_tokens_exec,
};

verus! {

/// The type of change for a single line of the new file.
#[derive(Debug, Clone, Copy, PartialEq, Eq, Structural)]
pub enum LineChange {
    /// Line was added (`+` marker).
    Added,
    /// Line was modified: a removal directly followed by an addition (`~`).
    Modified,
    /// Line was removed (`-`). Kept for completeness: pure removals have no
    /// new-file line, so the parser never produces this variant.
    Removed,
}

/// A parsed `@@ -o,s +n,t @@` hunk header. Only `new_start` steers the
/// parse; `old_start` is retained for completeness.
#[derive(Debug, Clone, Copy, PartialEq, Eq, Structural)]
pub struct DiffHunkHeader {
    pub old_start: usize,
    pub new_start: usize,
}

/// What parsing a hunk header line yields: at least four blank-separated
/// fields, the second `-o,s`, the third `+n,t`, with `o` and `n` decimal
/// numbers; anything else is rejected.
pub open spec fn parse_diff_header_spec(line: Seq<char>) -> Option<DiffHunkHeader> {
    let parts = ws_tokens(line);
    if parts.len() < 4 {
        None
    } else if parts[1].len() == 0 || parts[1][0] != '-' {
        None
    } else {
        let old_parts = split_all(parts[1].drop_first(), ',');
        if old_parts.len() < 2 {
            None
        } else {
            match parse_usize_spec(old_parts[0]) {
                None => None,
                Some(o) => {
                    if parts[2].len() == 0 || parts[2][0] != '+' {
                        None
                    } else {
                        let new_parts = split_all(parts[2].drop_first(), ',');
                        if new_parts.len() < 2 {
                            None
                        } else {
                            match parse_usize_spec(new_parts[0]) {
                                None => None,
                                Some(n) => Some(DiffHunkHeader { old_start: o, new_start: n }),
                            }
                        }
                    }
                },
            }
        }
    }
}

/// Parse a diff hunk header line like `@@ -3,5 +3,6 @@`.
pub fn parse_diff_header(line: &str) -> (r: Option<DiffHunkHeader>)
    ensures
        r == parse_diff_header_spec(line@),
{
    let parts = ws_tokens_exec(line);
    if parts.len() < 4 {
        return None;
    }
    proof {
        assert(strs_view(parts@)[1] == parts@[1]@);
        assert(strs_view(parts@)[2] == parts@[2]@);
    }
    let p1: &String = &parts[1];
    let cs1 = str_to_chars(p1.as_str());
    if cs1.len() == 0 {
        return None;
    }
    let c0: char = cs1[0];
    if c0 != '-' {
        return None;
    }
    let old_body = chars_to_string(&cs1, 1, cs1.len());
    proof {
        assert(old_body@ =~= parts@[1]@.drop_first());
    }
    let old_parts = split_all_exec(old_body.as_str(), ',');
    if old_parts.len() < 2 {
        return None;
    }
    proof {
        assert(strs_view(old_parts@)[0] == old_parts@[0]@);
    }
    let o = match parse_usize(old_parts[0].as_str()) {
        None => {
            return None;
        },
        Some(o) => o,
    };
    let p2: &String = &parts[2];
    let cs2 = str_to_chars(p2.as_str());
    if cs2.len() == 0 {
        return None;
    }
    let d0: char = cs2[0];
    if d0 != '+' {
        return None;
    }
    let new_body = chars_to_string(&cs2, 1, cs2.len());
    proof {
        assert(new_body@ =~= parts@[2]@.drop_first());
    }
    let new_parts = split_all_exec(new_body.as_str(), ',');
    if new_parts.len() < 2 {
        return None;
    }
    proof {
        assert(strs_view(new_parts@)[0] == new_parts@[0]@);
    }
    let n = match parse_usize(new_parts[0].as_str()) {
        None => {
            return None;
        },
        Some(n) => n,
    };
    Some(DiffHunkHeader { old_start: o, new_start: n })
}

/// The classification map after recording `ch` for 1-based line `line`: the
/// map grows with empty slots as needed; with `keep_first` an existing
/// classification stays; line 0 records nothing.
pub open spec fn record_change(
    acc: Seq<Option<LineChange>>,
    line: int,
    ch: LineChange,
    keep_first: bool,
) -> Seq<Option<LineChange>> {
    if line <= 0 {
        acc
    } else {
        let grown = if acc.len() < line {
            acc + Seq::new((line - acc.len()) as nat, |i: int| None::<LineChange>)
        } else {
            acc
        };
        if keep_first && grown[line - 1] is Some {
            grown
        } else {
            grown.update(line - 1, Some(ch))
        }
    }
}

/// The cursor after one line: it advances by one and stays put at the top
/// of `usize`.
pub open spec fn next_line_no(cur: int) -> int {
    if cur < usize::MAX {
        cur + 1
    } else {
        cur
    }
}

/// Whether `s` starts with prefix `p`.
pub open spec fn starts_with(s: Seq<char>, p: Seq<char>) -> bool {
    p.len() <= s.len() && s.take(p.len() as int) == p
}

/// One pass over the remaining diff lines with cursor `cur` (the new-file
/// line the next content line lands on) and the classifications so far:
/// blank lines and metadata are skipped; a header resets the cursor; a
/// context line advances it; a removal directly followed by an addition
/// marks the cursor's line modified and advances; a pure removal records
/// nothing and stays put; an addition marks its line added (first
/// classification wins) and advances.
pub open spec fn diff_lines_spec(
    ls: Seq<Seq<char>>,
    cur: int,
    acc: Seq<Option<LineChange>>,
) -> Seq<Option<LineChange>>
    decreases ls.len(),
{
    if ls.len() == 0 {
        acc
    } else {
        let l = ls[0];
        if l.len() == 0 {
            diff_lines_spec(ls.drop_first(), cur, acc)
        } else if starts_with(l, seq!['@', '@']) {
            match parse_diff_header_spec(l) {
                Some(h) => diff_lines_spec(ls.drop_first(), h.new_start as int, acc),
                None => diff_lines_spec(ls.drop_first(), cur, acc),
            }
        } else if starts_with(l, seq!['-', '-', '-']) || starts_with(l, seq!['+', '+', '+']) || l[0]
            == '\\' {
            diff_lines_spec(ls.drop_first(), cur, acc)
        } else if l[0] == ' ' {
            diff_lines_spec(ls.drop_first(), next_line_no(cur), acc)
        } else if l[0] == '-' {
            if ls.len() > 1 && ls[1].len() > 0 && ls[1][0] == '+' {
                diff_lines_spec(
                    ls.skip(2),
                    next_line_no(cur),
                    record_change(acc, cur, LineChange::Modified, false),
                )
            } else {
                diff_lines_spec(ls.drop_first(), cur, acc)
            }
        } else if l[0] == '+' {
            diff_lines_spec(
                ls.drop_first(),
                next_line_no(cur),
                record_change(acc, cur, LineChange::Added, true),
            )
        } else {
            diff_lines_spec(ls.drop_first(), next_line_no(cur), acc)
        }
    }
}

/// What parsing a whole unified diff yields: the classifications of its
/// lines, starting with cursor 1 and nothing classified. The result is as
/// long as the highest classified line number, and empty when no change was
/// recorded.
pub open spec fn parse_unified_diff_spec(diff: Seq<char>) -> Seq<Option<LineChange>> {
    diff_lines_spec(lines_spec(diff), 1, Seq::empty())
}

/// Record `ch` for 1-based line `line`, growing the map as needed; with
/// `keep_first` an existing classification stays.
fn record(acc: &mut Vec<Option<LineChange>>, line: usize, ch: LineChange, keep_first: bool)
    ensures
        final(acc)@ == record_change(old(acc)@, line as int, ch, keep_first),
{
    if line == 0 {
        return ;
    }
    let ghost pre = acc@;
    while acc.len() < line
        invariant
            pre.len() <= acc@.len() <= line || acc@.len() == pre.len(),
            acc@.len() >= pre.len(),
            acc@ =~= pre + Seq::new((acc@.len() - pre.len()) as nat, |i: int| None::<LineChange>),
        decreases line - acc@.len(),
    {
        acc.push(None);
        assert(acc@ =~= pre + Seq::new((acc@.len() - pre.len()) as nat, |i: int| None::<LineChange>));
    }
    let ghost grown = if pre.len() < line {
        pre + Seq::new((line - pre.len()) as nat, |i: int| None::<LineChange>)
    } else {
        pre
    };
    assert(acc@ =~= grown);
    let idx = line - 1;
    let existing_some: bool = match acc[idx] {
        Some(_) => true,
        None => false,
    };
    if keep_first && existing_some {
        return ;
    }
    acc[idx] = Some(ch);
    assert(acc@ =~= grown.update(line as int - 1, Some(ch)));
}

/// Parse a unified diff into per-line change classifications for the new
/// file, indexed by line number minus one. Never fails: malformed input
/// degrades to an empty or partial map.
pub fn parse_unified_diff(diff: &str) -> (r: Vec<Option<LineChange>>)
    ensures
        r@ == parse_unified_diff_spec(diff@),
{
    let lines = str_lines(diff);
    let ghost ls = lines_spec(diff@);
    let mut acc: Vec<Option<LineChange>> = Vec::new();
    let mut cur: usize = 1;
    let mut i: usize = 0;
    proof {
        assert(strs_view(lines@) == ls);
        assert(ls.skip(0) =~= ls);
    }
    while i < lines.len()
        invariant
            i <= lines@.len(),
            strs_view(lines@) == ls,
            ls == lines_spec(diff@),
            parse_unified_diff_spec(diff@) == diff_lines_spec(ls.skip(i as int), cur as int, acc@),
        decreases lines@.len() - i,
    {
        let ghost rem = ls.skip(i as int);
        proof {
            assert(rem[0] == ls[i as int]);
            assert(ls[i as int] == strs_view(lines@)[i as int]);
            assert(rem.drop_first() =~= ls.skip(i as int + 1));
        }
        let line: &String = &lines[i];
        let cs = str_to_chars(line.as_str());
        if cs.len() == 0 {
            i += 1;
            continue ;
        }
        let c0: char = cs[0];
        let is_header = cs.len() >= 2 && {
            let c1: char = cs[1];
            c0 == '@' && c1 == '@'
        };
        proof {
            if cs@.len() >= 2 {
                assert(cs@.take(2) =~= seq![cs@[0], cs@[1]]);
                assert(seq!['@', '@'] =~= seq!['@', '@']);
                assert(starts_with(cs@, seq!['@', '@']) == (cs@[0] == '@' && cs@[1] == '@')) by {
                    if cs@[0] == '@' && cs@[1] == '@' {
                        assert(cs@.take(2) =~= seq!['@', '@']);
                    } else {
                        assert(cs@.take(2) != seq!['@', '@']) by {
                            if cs@.take(2) == seq!['@', '@'] {
                                assert(cs@[0] == '@' && cs@[1] == '@');
                            }
                        }
                    }
                }
            } else {
                assert(!starts_with(cs@, seq!['@', '@']));
            }
        }
        if is_header {
            match parse_diff_header(line.as_str()) {
                Some(h) => {
                    cur = h.new_start;
                },
                None => {},
            }
            i += 1;
            continue ;
        }
        let is_meta = {
            let dash = cs.len() >= 3 && {
                let c1: char = cs[1];
                let c2: char = cs[2];
                c0 == '-' && c1 == '-' && c2 == '-'
            };
            let plus = cs.len() >= 3 && {
                let c1: char = cs[1];
                let c2: char = cs[2];
                c0 == '+' && c1 == '+' && c2 == '+'
            };
            dash || plus || c0 == '\\'
        };
        proof {
            if cs@.len() >= 3 {
                assert(cs@.take(3) =~= seq![cs@[0], cs@[1], cs@[2]]);
                assert(starts_with(cs@, seq!['-', '-', '-']) == (cs@[0] == '-' && cs@[1] == '-'
                    && cs@[2] == '-')) by {
                    if cs@[0] == '-' && cs@[1] == '-' && cs@[2] == '-' {
                        assert(cs@.take(3) =~= seq!['-', '-', '-']);
                    } else {
                        if cs@.take(3) == seq!['-', '-', '-'] {
                            assert(cs@[0] == '-' && cs@[1] == '-' && cs@[2] == '-');
                        }
                    }
                }
                assert(starts_with(cs@, seq!['+', '+', '+']) == (cs@[0] == '+' && cs@[1] == '+'
                    && cs@[2] == '+')) by {
                    if cs@[0] == '+' && cs@[1] == '+' && cs@[2] == '+' {
                        assert(cs@.take(3) =~= seq!['+', '+', '+']);
                    } else {
                        if cs@.take(3) == seq!['+', '+', '+'] {
                            assert(cs@[0] == '+' && cs@[1] == '+' && cs@[2] == '+');
                        }
                    }
                }
            } else {
                assert(!starts_with(cs@, seq!['-', '-', '-'])) by {
                    if starts_with(cs@, seq!['-', '-', '-']) {
                        assert(cs@.take(3).len() == 3);
                    }
                }
                assert(!starts_with(cs@, seq!['+', '+', '+'])) by {
                    if starts_with(cs@, seq!['+', '+', '+']) {
                        assert(cs@.take(3).len() == 3);
                    }
                }
            }
        }
        if is_meta {
            i += 1;
            continue ;
        }
        if c0 == ' ' {
            if cur < usize::MAX {
                cur = cur + 1;
            }
            i += 1;
            continue ;
        }
        if c0 == '-' {
            let next_is_plus: bool = if i + 1 < lines.len() {
                let next: &String = &lines[i + 1];
                let ncs = str_to_chars(next.as_str());
                if ncs.len() > 0 {
                    let n0: char = ncs[0];
                    n0 == '+'
                } else {
                    false
                }
            } else {
                false
            };
            proof {
                if i + 1 < lines@.len() {
                    assert(rem[1] == ls[i as int + 1]);
                    assert(ls[i as int + 1] == strs_view(lines@)[i as int + 1]);
                }
                assert(next_is_plus == (rem.len() > 1 && rem[1].len() > 0 && rem[1][0] == '+'));
            }
            if next_is_plus {
                record(&mut acc, cur, LineChange::Modified, false);
                if cur < usize::MAX {
                    cur = cur + 1;
                }
                proof {
                    assert(rem.skip(2) =~= ls.skip(i as int + 2));
                }
                i += 2;
            } else {
                i += 1;
            }
            continue ;
        }
        if c0 == '+' {
            record(&mut acc, cur, LineChange::Added, true);
            if cur < usize::MAX {
                cur = cur + 1;
            }
            i += 1;
            continue ;
        }
        if cur < usize::MAX {
            cur = cur + 1;
        }
        i += 1;
    }
    proof {
        assert(ls.skip(i as int) =~= Seq::<Seq<char>>::empty());
    }
    acc
}

} // verus!

verus! {

/// Recording keeps the map ending at a classified line.
proof fn lemma_record_change_dense(
    acc: Seq<Option<LineChange>>,
    line: int,
    ch: LineChange,
    keep_first: bool,
)
    requires
        acc.len() == 0 || acc.last() is Some,
    ensures
        record_change(acc, line, ch, keep_first).len() == 0 || record_change(
            acc,
            line,
            ch,
            keep_first,
        ).last() is Some,
{
    if line > 0 {
        let grown = if acc.len() < line {
            acc + Seq::new((line - acc.len()) as nat, |i: int| None::<LineChange>)
        } else {
            acc
        };
        if keep_first && grown[line - 1] is Some {
            if acc.len() < line {
                assert(grown.last() == grown[line - 1]);
            } else {
                assert(grown.last() == acc.last());
            }
        } else {
            let upd = grown.update(line - 1, Some(ch));
            if line == grown.len() {
                assert(upd.last() is Some);
            } else {
                assert(acc.len() >= line);
                assert(grown == acc);
                assert(upd.last() == acc.last());
            }
        }
    }
}

proof fn lemma_diff_lines_dense(ls: Seq<Seq<char>>, cur: int, acc: Seq<Option<LineChange>>)
    requires
        acc.len() == 0 || acc.last() is Some,
    ensures
        diff_lines_spec(ls, cur, acc).len() == 0 || diff_lines_spec(ls, cur, acc).last() is Some,
    decreases ls.len(),
{
    if ls.len() > 0 {
        let l = ls[0];
        if l.len() == 0 {
            lemma_diff_lines_dense(ls.drop_first(), cur, acc);
        } else if starts_with(l, seq!['@', '@']) {
            match parse_diff_header_spec(l) {
                Some(h) => lemma_diff_lines_dense(ls.drop_first(), h.new_start as int, acc),
                None => lemma_diff_lines_dense(ls.drop_first(), cur, acc),
            }
        } else if starts_with(l, seq!['-', '-', '-']) || starts_with(l, seq!['+', '+', '+']) || l[0]
            == '\\' {
            lemma_diff_lines_dense(ls.drop_first(), cur, acc);
        } else if l[0] == ' ' {
            lemma_diff_lines_dense(ls.drop_first(), next_line_no(cur), acc);
        } else if l[0] == '-' {
            if ls.len() > 1 && ls[1].len() > 0 && ls[1][0] == '+' {
                lemma_record_change_dense(acc, cur, LineChange::Modified, false);
                lemma_diff_lines_dense(
                    ls.skip(2),
                    next_line_no(cur),
                    record_change(acc, cur, LineChange::Modified, false),
                );
            } else {
                lemma_diff_lines_dense(ls.drop_first(), cur, acc);
            }
        } else if l[0] == '+' {
            lemma_record_change_dense(acc, cur, LineChange::Added, true);
            lemma_diff_lines_dense(
                ls.drop_first(),
                next_line_no(cur),
                record_change(acc, cur, LineChange::Added, true),
            );
        } else {
            lemma_diff_lines_dense(ls.drop_first(), next_line_no(cur), acc);
        }
    }
}

/// The change map is dense up to the highest classified line: it is empty
/// when the diff classifies nothing, and otherwise its last slot is
/// classified, so its length is exactly the highest changed line number.
pub proof fn lemma_change_map_ends_at_last_change(diff: Seq<char>)
    ensures
        parse_unified_diff_spec(diff).len() == 0 || parse_unified_diff_spec(diff).last() is Some,
{
    lemma_diff_lines_dense(lines_spec(diff), 1, Seq::empty());
}

} // verus!
