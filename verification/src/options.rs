//! Pure parsing of user-facing options: line ranges (`10-20`, `10:20`,
//! `10,20`, `10`, with an optional `L` prefix), file specifications with a
//! `#L<range>` suffix, style component lists, theme names and language
//! names.

use vstd::prelude::*;

use crate::decorations::DecorationConfig;
use crate::slicing::{LineRange, wf_line_range};
use crate::strutil::{
    char_from_u32, chars_to_string, find_char, find_char_in, parse_usize, parse_usize_spec,
    push_char, split_all, str_to_chars, streq,
};

verus! {

/// Whitespace that trimming removes.
pub open spec fn is_trim_char(c: char) -> bool {
    c == ' ' || c == '\t' || c == '\n' || c == '\r'
}

/// Number of leading trim characters of `s`.
pub open spec fn leading_trim(s: Seq<char>) -> int
    decreases s.len(),
{
    if s.len() == 0 {
        0
    } else if is_trim_char(s[0]) {
        1 + leading_trim(s.drop_first())
    } else {
        0
    }
}

/// Number of trailing trim characters of `s`.
pub open spec fn trailing_trim(s: Seq<char>) -> int
    decreases s.len(),
{
    if s.len() == 0 {
        0
    } else if is_trim_char(s.last()) {
        1 + trailing_trim(s.drop_last())
    } else {
        0
    }
}

/// `s` with leading and trailing whitespace removed.
pub open spec fn trim_spec(s: Seq<char>) -> Seq<char> {
    if leading_trim(s) == s.len() {
        Seq::empty()
    } else {
        s.subrange(leading_trim(s), s.len() - trailing_trim(s))
    }
}

proof fn lemma_leading_trim_scan(s: Seq<char>, k: int)
    requires
        0 <= k <= s.len(),
        forall|j: int| 0 <= j < k ==> is_trim_char(s[j]),
        k == s.len() || !is_trim_char(s[k]),
    ensures
        leading_trim(s) == k,
    decreases k,
{
    if k > 0 {
        lemma_leading_trim_scan(s.drop_first(), k - 1);
    }
}

proof fn lemma_trailing_trim_scan(s: Seq<char>, k: int)
    requires
        0 <= k <= s.len(),
        forall|j: int| s.len() - k <= j < s.len() ==> is_trim_char(#[trigger] s[j]),
        k == s.len() || !is_trim_char(s[s.len() - k - 1]),
    ensures
        trailing_trim(s) == k,
    decreases k,
{
    if k > 0 {
        assert(is_trim_char(s.last()));
        assert forall|j: int| s.drop_last().len() - (k - 1) <= j < s.drop_last().len()
            implies is_trim_char(#[trigger] s.drop_last()[j]) by {
            assert(s.drop_last()[j] == s[j]);
        }
        lemma_trailing_trim_scan(s.drop_last(), k - 1);
    }
}

/// Remove leading and trailing whitespace, as `str::trim` does for ASCII
/// whitespace.
pub fn trim_exec(s: &str) -> (r: String)
    ensures
        r@ == trim_spec(s@),
{
    let cs = str_to_chars(s);
    let n = cs.len();
    let mut lo: usize = 0;
    loop
        invariant
            cs@ == s@,
            n == cs@.len(),
            lo <= n,
            forall|j: int| 0 <= j < lo ==> is_trim_char(cs@[j]),
        ensures
            lo <= n,
            forall|j: int| 0 <= j < lo ==> is_trim_char(cs@[j]),
            lo == n || !is_trim_char(cs@[lo as int]),
        decreases n - lo,
    {
        if lo == n {
            break ;
        }
        let c: char = cs[lo];
        if !(c == ' ' || c == '\t' || c == '\n' || c == '\r') {
            break ;
        }
        lo += 1;
    }
    proof {
        lemma_leading_trim_scan(cs@, lo as int);
    }
    if lo == n {
        proof {
            assert(trim_spec(s@) =~= Seq::<char>::empty());
        }
        return String::new();
    }
    let mut hi: usize = n;
    loop
        invariant
            cs@ == s@,
            n == cs@.len(),
            lo < n,
            lo <= hi <= n,
            !is_trim_char(cs@[lo as int]),
            forall|j: int| hi <= j < n ==> is_trim_char(#[trigger] cs@[j]),
        ensures
            lo <= hi <= n,
            forall|j: int| hi <= j < n ==> is_trim_char(#[trigger] cs@[j]),
            hi == lo || !is_trim_char(cs@[hi - 1]),
        decreases hi,
    {
        if hi == lo {
            break ;
        }
        let c: char = cs[hi - 1];
        if !(c == ' ' || c == '\t' || c == '\n' || c == '\r') {
            break ;
        }
        hi -= 1;
    }
    proof {
        assert(hi > lo);
        assert(!is_trim_char(cs@[hi - 1]));
        lemma_trailing_trim_scan(cs@, n - hi);
        assert(trim_spec(s@) == cs@.subrange(lo as int, hi as int));
    }
    chars_to_string(&cs, lo, hi)
}

/// The split of `raw` at the first of `-`, `:` or `,`, trying the
/// separators in that order over the whole string.
pub open spec fn split_line_range_spec(raw: Seq<char>) -> Option<(Seq<char>, Seq<char>)> {
    if find_char(raw, '-') < raw.len() {
        let k = find_char(raw, '-');
        Some((raw.take(k), raw.skip(k + 1)))
    } else if find_char(raw, ':') < raw.len() {
        let k = find_char(raw, ':');
        Some((raw.take(k), raw.skip(k + 1)))
    } else if find_char(raw, ',') < raw.len() {
        let k = find_char(raw, ',');
        Some((raw.take(k), raw.skip(k + 1)))
    } else {
        None
    }
}

/// Split a raw range at its separator (`-`, `:` or `,`).
pub fn split_line_range(raw: &str) -> (r: Option<(String, String)>)
    ensures
        r is Some <==> split_line_range_spec(raw@) is Some,
        r matches Some(p) ==> split_line_range_spec(raw@) matches Some(q) && p.0@ == q.0 && p.1@
            == q.1,
{
    let cs = str_to_chars(raw);
    let k1 = find_char_in(&cs, 0, '-');
    proof {
        assert(cs@.skip(0) =~= cs@);
    }
    if k1 < cs.len() {
        let a = chars_to_string(&cs, 0, k1);
        let b = chars_to_string(&cs, k1 + 1, cs.len());
        proof {
            assert(a@ =~= cs@.take(k1 as int));
            assert(b@ =~= cs@.skip(k1 as int + 1));
        }
        return Some((a, b));
    }
    let k2 = find_char_in(&cs, 0, ':');
    if k2 < cs.len() {
        let a = chars_to_string(&cs, 0, k2);
        let b = chars_to_string(&cs, k2 + 1, cs.len());
        proof {
            assert(a@ =~= cs@.take(k2 as int));
            assert(b@ =~= cs@.skip(k2 as int + 1));
        }
        return Some((a, b));
    }
    let k3 = find_char_in(&cs, 0, ',');
    if k3 < cs.len() {
        let a = chars_to_string(&cs, 0, k3);
        let b = chars_to_string(&cs, k3 + 1, cs.len());
        proof {
            assert(a@ =~= cs@.take(k3 as int));
            assert(b@ =~= cs@.skip(k3 as int + 1));
        }
        return Some((a, b));
    }
    None
}

/// `s` without a leading `L` or `l`, if it has one.
pub open spec fn strip_l_prefix(s: Seq<char>) -> Seq<char> {
    if s.len() > 0 && (s[0] == 'L' || s[0] == 'l') {
        s.drop_first()
    } else {
        s
    }
}

/// What parsing a line range accepts: optional whitespace and an optional
/// `L`, then either a single 1-based line number, or start and end separated
/// by `-`, `:` or `,` (the end may carry its own `L`), with `start >= 1` and
/// `end >= start`.
pub open spec fn parse_line_range_spec(raw: Seq<char>) -> Option<LineRange> {
    let t = strip_l_prefix(trim_spec(raw));
    if t.len() == 0 {
        None
    } else {
        match split_line_range_spec(t) {
            None => {
                match parse_usize_spec(t) {
                    None => None,
                    Some(line) => if line == 0 {
                        None
                    } else {
                        Some(LineRange { start: line, end: line })
                    },
                }
            },
            Some(parts) => {
                if parts.0.len() == 0 || parts.1.len() == 0 {
                    None
                } else {
                    let start_raw = trim_spec(parts.0);
                    let end_trimmed = strip_l_prefix(trim_spec(parts.1));
                    match parse_usize_spec(start_raw) {
                        None => None,
                        Some(start) => match parse_usize_spec(end_trimmed) {
                            None => None,
                            Some(end) => if start == 0 || end == 0 || end < start {
                                None
                            } else {
                                Some(LineRange { start, end })
                            },
                        },
                    }
                }
            },
        }
    }
}

/// Parse a line range such as `10-20`, `10:20`, `10,20` or `10`, with an
/// optional leading `L`. Accepted ranges are 1-based and non-empty.
pub fn parse_line_range(raw: &str) -> (r: Option<LineRange>)
    ensures
        r == parse_line_range_spec(raw@),
        r matches Some(lr) ==> wf_line_range(lr),
{
    let trimmed = trim_exec(raw);
    let tcs = str_to_chars(trimmed.as_str());
    let start_idx: usize = if tcs.len() > 0 {
        let c0: char = tcs[0];
        if c0 == 'L' || c0 == 'l' {
            1
        } else {
            0
        }
    } else {
        0
    };
    let t = chars_to_string(&tcs, start_idx, tcs.len());
    proof {
        assert(t@ =~= strip_l_prefix(trim_spec(raw@)));
    }
    if t.as_str().unicode_len() == 0 {
        return None;
    }
    match split_line_range(t.as_str()) {
        None => {
            match parse_usize(t.as_str()) {
                None => None,
                Some(line) => {
                    if line == 0 {
                        None
                    } else {
                        Some(LineRange { start: line, end: line })
                    }
                },
            }
        },
        Some((a, b)) => {
            if a.as_str().unicode_len() == 0 || b.as_str().unicode_len() == 0 {
                return None;
            }
            let start_raw = trim_exec(a.as_str());
            let end_t = trim_exec(b.as_str());
            let ecs = str_to_chars(end_t.as_str());
            let eidx: usize = if ecs.len() > 0 {
                let e0: char = ecs[0];
                if e0 == 'L' || e0 == 'l' {
                    1
                } else {
                    0
                }
            } else {
                0
            };
            let end_raw = chars_to_string(&ecs, eidx, ecs.len());
            proof {
                assert(end_raw@ =~= strip_l_prefix(trim_spec(b@)));
            }
            let start = match parse_usize(start_raw.as_str()) {
                None => {
                    return None;
                },
                Some(s) => s,
            };
            let end = match parse_usize(end_raw.as_str()) {
                None => {
                    return None;
                },
                Some(e) => e,
            };
            if start == 0 || end == 0 || end < start {
                None
            } else {
                Some(LineRange { start, end })
            }
        },
    }
}

} // verus!

verus! {

/// A file to display: its path and the line range to show, if any.
#[derive(Debug, Clone)]
pub struct FileSpec {
    pub path: String,
    pub line_range: Option<LineRange>,
}

/// Why a file specification or range argument is rejected.
#[derive(Debug, Clone, Copy, PartialEq, Eq, Structural)]
pub enum RangeError {
    /// `#L` with nothing before it.
    MissingPath,
    /// `#L` with nothing after it.
    MissingRange,
    /// A range in none of the accepted forms.
    InvalidRange,
}

impl RangeError {
    /// A human-readable description of the error.
    pub fn message(&self) -> (r: String)
        ensures
            *self is MissingPath ==> r@ == "missing file path before line range"@,
            *self is MissingRange ==> r@ == "missing line range after #L"@,
            *self is InvalidRange ==> r@ == "invalid line range"@,
    {
        match self {
            RangeError::MissingPath => String::from_str("missing file path before line range"),
            RangeError::MissingRange => String::from_str("missing line range after #L"),
            RangeError::InvalidRange => String::from_str("invalid line range"),
        }
    }
}

/// The last position where `#` directly followed by `marker` occurs in `s`,
/// or -1 if it never does.
pub open spec fn rfind_marker(s: Seq<char>, marker: char) -> int
    decreases s.len(),
{
    if s.len() < 2 {
        -1
    } else if s[s.len() - 2] == '#' && s.last() == marker {
        s.len() - 2
    } else {
        rfind_marker(s.drop_last(), marker)
    }
}

proof fn lemma_rfind_marker_scan(s: Seq<char>, marker: char, k: int)
    requires
        -1 <= k,
        k >= 0 ==> k <= s.len() - 2,
        k >= 0 ==> s[k] == '#' && s[k + 1] == marker,
        forall|j: int| k < j <= s.len() - 2 ==> !(s[j] == '#' && #[trigger] s[j + 1] == marker),
    ensures
        rfind_marker(s, marker) == k,
    decreases s.len(),
{
    if s.len() < 2 {
    } else if s[s.len() - 2] == '#' && s.last() == marker {
        assert(k == s.len() - 2) by {
            if k < s.len() - 2 {
                assert(!(s[s.len() - 2] == '#' && s[s.len() - 2 + 1] == marker));
            }
        }
    } else {
        let d = s.drop_last();
        assert(k >= 0 ==> k <= d.len() - 2) by {
            if k == s.len() - 2 {
                assert(s[k] == '#' && s[k + 1] == marker);
            }
        }
        assert forall|j: int| k < j <= d.len() - 2 implies !(d[j] == '#' && #[trigger] d[j + 1]
            == marker) by {
            assert(d[j] == s[j] && d[j + 1] == s[j + 1]);
            assert(!(s[j] == '#' && s[j + 1] == marker));
        }
        lemma_rfind_marker_scan(d, marker, k);
    }
}

/// Scan `cs` for the last occurrence of `#` followed by `marker`.
fn rfind_marker_exec(cs: &Vec<char>, marker: char) -> (k: Option<usize>)
    ensures
        k matches Some(i) ==> i == rfind_marker(cs@, marker) && i + 2 <= cs@.len(),
        k is None ==> rfind_marker(cs@, marker) == -1,
{
    if cs.len() < 2 {
        proof {
            lemma_rfind_marker_scan(cs@, marker, -1);
        }
        return None;
    }
    let mut i: usize = cs.len() - 1;
    while i > 0
        invariant
            1 <= i + 1 <= cs@.len(),
            i <= cs@.len() - 1,
            forall|j: int|
                i - 1 < j <= cs@.len() - 2 ==> !(cs@[j] == '#' && #[trigger] cs@[j + 1] == marker),
        decreases i,
    {
        let c0: char = cs[i - 1];
        let c1: char = cs[i];
        if c0 == '#' && c1 == marker {
            proof {
                lemma_rfind_marker_scan(cs@, marker, i - 1);
            }
            return Some(i - 1);
        }
        i -= 1;
    }
    proof {
        lemma_rfind_marker_scan(cs@, marker, -1);
    }
    None
}

/// What a `path#L<range>` suffix parse yields: split at the last `#L` (or,
/// failing that, `#l`); no marker means no suffix; an empty path or range is
/// an error, and so is a range in none of the accepted forms.
pub open spec fn parse_line_range_suffix_spec(raw: Seq<char>) -> Result<
    Option<(Seq<char>, LineRange)>,
    RangeError,
> {
    let ku = rfind_marker(raw, 'L');
    let kl = rfind_marker(raw, 'l');
    let k = if ku >= 0 {
        ku
    } else {
        kl
    };
    if k < 0 {
        Ok(None)
    } else {
        let path_part = raw.take(k);
        let range_part = raw.skip(k + 2);
        if path_part.len() == 0 {
            Err(RangeError::MissingPath)
        } else if range_part.len() == 0 {
            Err(RangeError::MissingRange)
        } else {
            match parse_line_range_spec(range_part) {
                None => Err(RangeError::InvalidRange),
                Some(lr) => Ok(Some((path_part, lr))),
            }
        }
    }
}

/// Split a raw argument at its final `#L`/`#l` marker and parse what
/// follows as a line range.
pub fn parse_line_range_suffix(raw: &str) -> (r: Result<Option<(String, LineRange)>, RangeError>)
    ensures
        r is Ok <==> parse_line_range_suffix_spec(raw@) is Ok,
        r matches Ok(o) ==> (o is Some <==> (parse_line_range_suffix_spec(raw@)
            matches Ok(oo) && oo is Some)),
        r matches Ok(Some(p)) ==> parse_line_range_suffix_spec(raw@) matches Ok(Some(q)) && p.0@
            == q.0 && p.1 == q.1,
        r matches Err(e) ==> parse_line_range_suffix_spec(raw@) matches Err(e2) && e == e2,
{
    let cs = str_to_chars(raw);
    let k: usize = match rfind_marker_exec(&cs, 'L') {
        Some(i) => {
            assert(i + 2 <= cs@.len());
            i
        },
        None => {
            match rfind_marker_exec(&cs, 'l') {
                Some(i) => {
                    assert(i + 2 <= cs@.len());
                    i
                },
                None => {
                    return Ok(None);
                },
            }
        },
    };
    let n = cs.len();
    assert(k + 2 <= n);
    let path_part = chars_to_string(&cs, 0, k);
    let range_part = chars_to_string(&cs, k + 2, n);
    proof {
        assert(path_part@ =~= raw@.take(k as int));
        assert(range_part@ =~= raw@.skip(k as int + 2));
    }
    if k == 0 {
        return Err(RangeError::MissingPath);
    }
    if k + 2 == cs.len() {
        return Err(RangeError::MissingRange);
    }
    match parse_line_range(range_part.as_str()) {
        None => Err(RangeError::InvalidRange),
        Some(lr) => Ok(Some((path_part, lr))),
    }
}

/// Parse a `--lines` argument as a line range, rejecting what does not
/// parse.
pub fn parse_line_range_arg(raw: &str) -> (r: Result<LineRange, RangeError>)
    ensures
        r matches Ok(lr) ==> parse_line_range_spec(raw@) == Some(lr) && wf_line_range(lr),
        r is Err ==> parse_line_range_spec(raw@) is None && (r matches Err(e) && e
            == RangeError::InvalidRange),
{
    match parse_line_range(raw) {
        Some(lr) => Ok(lr),
        None => Err(RangeError::InvalidRange),
    }
}

/// What a file argument parses to: a `#L<range>` suffix wins; otherwise the
/// whole argument is the path and the default range applies.
pub open spec fn parse_file_spec_ok(
    raw: Seq<char>,
    default_range: Option<LineRange>,
    f: FileSpec,
) -> bool {
    match parse_line_range_suffix_spec(raw) {
        Ok(Some(p)) => f.path@ == p.0 && f.line_range == Some(p.1),
        Ok(None) => f.path@ == raw && f.line_range == default_range,
        Err(_) => false,
    }
}

/// Parse one file argument, honouring a `#L<range>` suffix and falling back
/// to the given default range.
pub fn parse_file_spec(raw: &str, default_range: Option<LineRange>) -> (r: Result<
    FileSpec,
    RangeError,
>)
    ensures
        r is Ok <==> parse_line_range_suffix_spec(raw@) is Ok,
        r matches Ok(f) ==> parse_file_spec_ok(raw@, default_range, f),
        r matches Err(e) ==> parse_line_range_suffix_spec(raw@) matches Err(e2) && e == e2,
{
    match parse_line_range_suffix(raw) {
        Ok(Some((path, lr))) => Ok(FileSpec { path, line_range: Some(lr) }),
        Ok(None) => Ok(FileSpec { path: String::from_str(raw), line_range: default_range }),
        Err(e) => Err(e),
    }
}

/// The display name of a file specification: `-` stands for standard input.
pub fn display_name_for_spec(spec: &FileSpec) -> (r: String)
    ensures
        r@ == (if spec.path@ == "-"@ {
            "-"@
        } else {
            spec.path@
        }),
{
    if streq(spec.path.as_str(), "-") {
        String::from_str("-")
    } else {
        spec.path.clone()
    }
}

} // verus!

verus! {

/// Which style components are active.
#[derive(Debug, Clone, Copy, PartialEq, Eq, Structural)]
pub struct StyleConfig {
    pub decoration_config: DecorationConfig,
    pub highlight_locals: bool,
    pub highlight_injections: bool,
}

/// One `--style` token applied to a configuration: `numbers`, `changes` and
/// `headers` enable decorations, `rich` enables injection highlighting, and
/// anything else changes nothing.
pub open spec fn style_after_token(c: StyleConfig, tok: Seq<char>) -> StyleConfig {
    if tok == "numbers"@ {
        StyleConfig {
            decoration_config: DecorationConfig { show_numbers: true, ..c.decoration_config },
            ..c
        }
    } else if tok == "changes"@ {
        StyleConfig {
            decoration_config: DecorationConfig { show_changes: true, ..c.decoration_config },
            ..c
        }
    } else if tok == "headers"@ {
        StyleConfig {
            decoration_config: DecorationConfig { show_headers: true, ..c.decoration_config },
            ..c
        }
    } else if tok == "rich"@ {
        StyleConfig { highlight_injections: true, ..c }
    } else {
        c
    }
}

/// All comma-separated `--style` tokens applied in order, each trimmed.
pub open spec fn style_fold(c: StyleConfig, toks: Seq<Seq<char>>) -> StyleConfig
    decreases toks.len(),
{
    if toks.len() == 0 {
        c
    } else {
        style_fold(style_after_token(c, trim_spec(toks[0])), toks.drop_first())
    }
}

/// What `--style` parses to: every token applied to the default
/// configuration (locals highlighting on, everything else off); `rich`
/// additionally keeps locals highlighting on.
pub open spec fn parse_style_components_spec(style: Option<Seq<char>>) -> StyleConfig {
    let toks = split_all(
        match style {
            None => Seq::empty(),
            Some(s) => s,
        },
        ',',
    );
    let c = style_fold(
        StyleConfig {
            decoration_config: DecorationConfig {
                show_numbers: false,
                show_changes: false,
                show_headers: false,
            },
            highlight_locals: true,
            highlight_injections: false,
        },
        toks,
    );
    if c.highlight_injections {
        StyleConfig { highlight_locals: true, ..c }
    } else {
        c
    }
}

/// Parse the comma-separated `--style` components (`numbers`, `changes`,
/// `headers`, `rich`); unknown tokens are ignored.
pub fn parse_style_components(style: Option<&str>) -> (c: StyleConfig)
    ensures
        c == parse_style_components_spec(match style {
            Some(s) => Some(s@),
            None => None,
        }),
{
    let raw: String = match style {
        Some(s) => String::from_str(s),
        None => String::new(),
    };
    let toks = crate::strutil::split_all_exec(raw.as_str(), ',');
    let ghost all = split_all(raw@, ',');
    let mut c = StyleConfig {
        decoration_config: DecorationConfig {
            show_numbers: false,
            show_changes: false,
            show_headers: false,
        },
        highlight_locals: true,
        highlight_injections: false,
    };
    let ghost c0 = c;
    let mut i: usize = 0;
    proof {
        assert(crate::strutil::strs_view(toks@) == all);
        assert(all.skip(0) =~= all);
    }
    while i < toks.len()
        invariant
            i <= toks@.len(),
            crate::strutil::strs_view(toks@) == all,
            style_fold(c0, all) == style_fold(c, all.skip(i as int)),
        decreases toks@.len() - i,
    {
        let tok: &String = &toks[i];
        let trimmed = trim_exec(tok.as_str());
        proof {
            assert(all.skip(i as int)[0] == all[i as int]);
            assert(all[i as int] == toks@[i as int]@);
            assert(all.skip(i as int).drop_first() =~= all.skip(i as int + 1));
        }
        if streq(trimmed.as_str(), "numbers") {
            c = StyleConfig {
                decoration_config: DecorationConfig { show_numbers: true, ..c.decoration_config },
                ..c
            };
        } else if streq(trimmed.as_str(), "changes") {
            c = StyleConfig {
                decoration_config: DecorationConfig { show_changes: true, ..c.decoration_config },
                ..c
            };
        } else if streq(trimmed.as_str(), "headers") {
            c = StyleConfig {
                decoration_config: DecorationConfig { show_headers: true, ..c.decoration_config },
                ..c
            };
        } else if streq(trimmed.as_str(), "rich") {
            c = StyleConfig { highlight_injections: true, ..c };
        }
        i += 1;
    }
    proof {
        assert(all.skip(i as int) =~= Seq::<Seq<char>>::empty());
    }
    if c.highlight_injections {
        c = StyleConfig { highlight_locals: true, ..c };
    }
    c
}

/// How a theme name resolves: automatically by dark/light detection, to a
/// fixed dark or light theme, or to a named theme.
#[derive(Debug, Clone, PartialEq, Eq)]
pub enum ThemeChoice {
    Auto,
    Dark,
    Light,
    Named(String),
}

/// The theme key of a `--theme` argument: everything before the first `:`,
/// after trimming.
pub open spec fn theme_key(theme: Seq<char>) -> Seq<char> {
    let t = trim_spec(theme);
    t.take(find_char(t, ':'))
}

/// Resolve a `--theme` argument to a choice: an empty key or `auto` asks for
/// dark/light detection, `dark` and `light` pick the fixed themes, and
/// anything else names a theme.
pub fn resolve_theme_choice(theme: &str) -> (r: ThemeChoice)
    ensures
        (theme_key(theme@).len() == 0 || theme_key(theme@) == "auto"@) <==> r is Auto,
        theme_key(theme@) == "dark"@ <==> r is Dark,
        theme_key(theme@) == "light"@ <==> r is Light,
        r matches ThemeChoice::Named(n) ==> n@ == theme_key(theme@),
{
    let trimmed = trim_exec(theme);
    let cs = str_to_chars(trimmed.as_str());
    let k = find_char_in(&cs, 0, ':');
    proof {
        assert(cs@.skip(0) =~= cs@);
    }
    let key = chars_to_string(&cs, 0, k);
    proof {
        assert(key@ =~= theme_key(theme@));
    }
    if key.as_str().unicode_len() == 0 || streq(key.as_str(), "auto") {
        proof {
            if key@.len() == 0 {
                assert(key@ != "dark"@ && key@ != "light"@) by {
                    reveal_strlit("dark");
                    reveal_strlit("light");
                }
            } else {
                assert("auto"@ != "dark"@ && "auto"@ != "light"@) by {
                    reveal_strlit("auto");
                    reveal_strlit("dark");
                    reveal_strlit("light");
                }
            }
        }
        ThemeChoice::Auto
    } else if streq(key.as_str(), "dark") {
        proof {
            assert("dark"@ != "auto"@ && "dark"@ != "light"@ && "dark"@.len() != 0) by {
                reveal_strlit("auto");
                reveal_strlit("dark");
                reveal_strlit("light");
            }
        }
        ThemeChoice::Dark
    } else if streq(key.as_str(), "light") {
        proof {
            assert("light"@ != "auto"@ && "light"@.len() != 0) by {
                reveal_strlit("auto");
                reveal_strlit("light");
            }
        }
        ThemeChoice::Light
    } else {
        ThemeChoice::Named(key)
    }
}

/// `c` lowered to ASCII lower case.
pub open spec fn lower_char(c: char) -> char {
    if 'A' <= c && c <= 'Z' {
        ((c as int) + 32) as char
    } else {
        c
    }
}

/// `s` lowered to ASCII lower case character by character.
pub open spec fn lower_seq(s: Seq<char>) -> Seq<char> {
    Seq::new(s.len(), |i: int| lower_char(s[i]))
}

/// A language name normalized for lookup: trimmed and ASCII-lowercased.
pub fn normalize_language_name(name: &str) -> (r: String)
    ensures
        r@ == lower_seq(trim_spec(name@)),
{
    let trimmed = trim_exec(name);
    let cs = str_to_chars(trimmed.as_str());
    let mut r = String::new();
    let mut i: usize = 0;
    while i < cs.len()
        invariant
            i <= cs@.len(),
            cs@ == trim_spec(name@),
            r@ =~= lower_seq(cs@).take(i as int),
        decreases cs@.len() - i,
    {
        let c: char = cs[i];
        if c >= 'A' && c <= 'Z' {
            let u: u32 = c as u32;
            match char_from_u32(u + 32) {
                Some(ch) => {
                    assert(ch == lower_char(cs@[i as int]));
                    push_char(&mut r, ch);
                },
                None => {
                    assert(false);
                },
            }
        } else {
            push_char(&mut r, c);
        }
        assert(r@ =~= lower_seq(cs@).take(i as int + 1));
        i += 1;
    }
    assert(r@ =~= lower_seq(cs@));
    r
}

/// The alias a normalized language name resolves to: the XML family is
/// highlighted as HTML; everything else keeps its name.
pub fn resolve_language_alias(normalized: &str) -> (r: String)
    ensures
        r@ == (if normalized@ == "xml"@ || normalized@ == "xhtml"@ || normalized@ == "svg"@
            || normalized@ == "plist"@ {
            "html"@
        } else {
            normalized@
        }),
{
    if streq(normalized, "xml") || streq(normalized, "xhtml") || streq(normalized, "svg") || streq(
        normalized,
        "plist",
    ) {
        String::from_str("html")
    } else {
        String::from_str(normalized)
    }
}

} // verus!
