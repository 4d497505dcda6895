//! Small verified helpers for strings, characters and decimal numerals.

use vstd::prelude::*;

verus! {

/// The decimal numeral of `n`, most significant digit first.
pub open spec fn dec_seq(n: nat) -> Seq<char>
    decreases n,
{
    if n < 10 {
        seq![((48 + n) as char)]
    } else {
        dec_seq(n / 10) + seq![((48 + n % 10) as char)]
    }
}

/// Decimal digits of `n` rendered as a string, e.g. 1203 -> "1203".
pub fn usize_to_string(n: usize) -> (s: String)
    ensures
        s@ == dec_seq(n as nat),
    decreases n,
{
    if n < 10 {
        let mut s = String::new();
        push_char(&mut s, ((48 + n) as u8) as char);
        assert(s@ =~= dec_seq(n as nat));
        s
    } else {
        let mut s = usize_to_string(n / 10);
        push_char(&mut s, ((48 + n % 10) as u8) as char);
        assert(s@ =~= dec_seq(n as nat));
        s
    }
}

/// Width of the decimal numeral of `line_count`; what the rendering uses to
/// right-align line numbers.
pub fn line_number_width(line_count: usize) -> (w: usize)
    ensures
        w == dec_seq(line_count as nat).len(),
        w >= 1,
        line_count >= 1 ==> w <= line_count,
    decreases line_count,
{
    if line_count < 10 {
        1
    } else {
        let w = line_number_width(line_count / 10);
        assert(dec_seq(line_count as nat).len() == dec_seq(line_count as nat / 10).len() + 1);
        w + 1
    }
}

/// `s` right-aligned in a field of `w` spaces (unchanged if already wider).
pub open spec fn pad_left(s: Seq<char>, w: nat) -> Seq<char> {
    if s.len() >= w {
        s
    } else {
        Seq::new((w - s.len()) as nat, |i: int| ' ') + s
    }
}

/// Right-align `s` to width `w` by prepending spaces.
pub fn pad_left_string(s: &String, w: usize) -> (r: String)
    ensures
        r@ == pad_left(s@, w as nat),
{
    let n = s.as_str().unicode_len();
    let mut r = String::new();
    if n >= w {
        r.append(s.as_str());
        assert(r@ =~= pad_left(s@, w as nat));
        return r;
    }
    let mut i: usize = 0;
    while i < w - n
        invariant
            n == s@.len(),
            n < w,
            i <= w - n,
            r@ =~= Seq::new(i as nat, |j: int| ' '),
        decreases w - n - i,
    {
        push_char(&mut r, ' ');
        assert(r@ =~= Seq::new((i + 1) as nat, |j: int| ' '));
        i += 1;
    }
    r.append(s.as_str());
    assert(r@ =~= pad_left(s@, w as nat));
    r
}

/// Whether `c` is a decimal digit.
pub open spec fn is_dec_digit(c: char) -> bool {
    48 <= c as int && c as int <= 57
}

/// Whether every character of `s` is a decimal digit.
pub open spec fn all_dec_digits(s: Seq<char>) -> bool {
    forall|i: int| 0 <= i < s.len() ==> is_dec_digit(s[i])
}

/// The number denoted by a sequence of decimal digits (most significant first).
pub open spec fn digits_val(s: Seq<char>) -> nat
    decreases s.len(),
{
    if s.len() == 0 {
        0
    } else {
        (digits_val(s.drop_last()) * 10 + (s.last() as int - 48)) as nat
    }
}

proof fn lemma_digits_val_prefix(s: Seq<char>, k: int)
    requires
        0 <= k <= s.len(),
        all_dec_digits(s),
    ensures
        digits_val(s.take(k)) <= digits_val(s),
    decreases s.len() - k,
{
    if k < s.len() {
        assert(s.take(k + 1).drop_last() =~= s.take(k));
        assert(digits_val(s.take(k + 1)) == digits_val(s.take(k)) * 10 + (s[k] as int - 48));
        lemma_digits_val_prefix(s, k + 1);
    } else {
        assert(s.take(k) =~= s);
    }
}

/// What `usize::from_str` accepts: an optional leading `+`, then one or more
/// decimal digits whose value fits in `usize`.
pub open spec fn parse_usize_spec(s: Seq<char>) -> Option<usize> {
    let t = if s.len() > 0 && s[0] == '+' {
        s.drop_first()
    } else {
        s
    };
    if t.len() > 0 && all_dec_digits(t) && digits_val(t) <= usize::MAX {
        Some(digits_val(t) as usize)
    } else {
        None
    }
}

/// The numeric value of a decimal digit character, `None` for anything else.
pub fn digit_of(c: char) -> (r: Option<usize>)
    ensures
        r is Some <==> is_dec_digit(c),
        r matches Some(d) ==> d as int == c as int - 48,
{
    match c {
        '0' => Some(0),
        '1' => Some(1),
        '2' => Some(2),
        '3' => Some(3),
        '4' => Some(4),
        '5' => Some(5),
        '6' => Some(6),
        '7' => Some(7),
        '8' => Some(8),
        '9' => Some(9),
        _ => None,
    }
}

/// Parse a decimal `usize`, as `usize::from_str` would.
pub fn parse_usize(s: &str) -> (r: Option<usize>)
    ensures
        r == parse_usize_spec(s@),
{
    let cs = str_to_chars(s);
    let has_plus: bool = if cs.len() > 0 {
        let c0: char = cs[0];
        c0 == '+'
    } else {
        false
    };
    let start: usize = if has_plus {
        1
    } else {
        0
    };
    let ghost t = if s@.len() > 0 && s@[0] == '+' {
        s@.drop_first()
    } else {
        s@
    };
    assert(cs@.subrange(start as int, cs@.len() as int) =~= t);
    if cs.len() == start {
        return None;
    }
    let mut acc: usize = 0;
    let mut i: usize = start;
    while i < cs.len()
        invariant
            start <= i <= cs@.len(),
            cs@ == s@,
            t =~= cs@.subrange(start as int, cs@.len() as int),
            t == (if s@.len() > 0 && s@[0] == '+' {
                s@.drop_first()
            } else {
                s@
            }),
            t.len() > 0,
            all_dec_digits(cs@.subrange(start as int, i as int)),
            acc as nat == digits_val(cs@.subrange(start as int, i as int)),
        decreases cs@.len() - i,
    {
        let ci: char = cs[i];
        let d: usize = match digit_of(ci) {
            Some(d) => d,
            None => {
                proof {
                    assert(!is_dec_digit(t[i - start]));
                    assert(!all_dec_digits(t));
                    assert(parse_usize_spec(s@) is None);
                }
                return None;
            },
        };
        proof {
            assert(cs@.subrange(start as int, i as int + 1).drop_last() =~= cs@.subrange(
                start as int,
                i as int,
            ));
            assert(digits_val(cs@.subrange(start as int, i as int + 1)) == acc as nat * 10 + (
            d as nat));
        }
        if acc > (usize::MAX - d) / 10 {
            proof {
                assert(acc as nat * 10 + d as nat > usize::MAX) by (nonlinear_arith)
                    requires
                        acc as nat > ((usize::MAX - d) as nat) / 10,
                        d <= 9,
                ;
                if all_dec_digits(t) {
                    lemma_digits_val_prefix(t, i - start + 1);
                    assert(t.take(i - start + 1) =~= cs@.subrange(start as int, i as int + 1));
                    assert(digits_val(t) >= acc as nat * 10 + d as nat);
                    assert(digits_val(t) > usize::MAX);
                }
                assert(parse_usize_spec(s@) is None);
            }
            return None;
        }
        acc = acc * 10 + d;
        i += 1;
    }
    assert(cs@.subrange(start as int, cs@.len() as int) =~= t);
    Some(acc)
}

/// Relies on std's `String::push`: appends exactly the one character.
#[verifier::external_body]
pub fn push_char(s: &mut String, c: char)
    ensures
        final(s)@ == old(s)@.push(c),
{
    s.push(c);
}

/// Relies on std's `char::from_u32`: `Some` exactly on Unicode scalar values
/// (everything in `0..=0x10FFFF` except the surrogate range), with the same
/// numeric value.
#[verifier::external_body]
pub fn char_from_u32(v: u32) -> (r: Option<char>)
    ensures
        r == (if v < 0xD800 || (0xE000 <= v && v <= 0x10FFFF) {
            Some(v as char)
        } else {
            None
        }),
{
    char::from_u32(v)
}

/// The characters of `s`, in order.
pub fn str_to_chars(s: &str) -> (r: Vec<char>)
    ensures
        r@ == s@,
{
    let n = s.unicode_len();
    let mut r: Vec<char> = Vec::new();
    let mut i: usize = 0;
    while i < n
        invariant
            n == s@.len(),
            i <= n,
            r@ =~= s@.subrange(0, i as int),
        decreases n - i,
    {
        r.push(s.get_char(i));
        assert(r@ =~= s@.subrange(0, i as int + 1));
        i += 1;
    }
    assert(r@ =~= s@);
    r
}

/// Whether two string slices hold the same characters.
pub fn streq(a: &str, b: &str) -> (r: bool)
    ensures
        r == (a@ == b@),
{
    let na = a.unicode_len();
    let nb = b.unicode_len();
    if na != nb {
        assert(a@ != b@);
        return false;
    }
    let mut i: usize = 0;
    while i < na
        invariant
            na == a@.len(),
            na == b@.len(),
            i <= na,
            forall|j: int| 0 <= j < i ==> a@[j] == b@[j],
        decreases na - i,
    {
        if a.get_char(i) != b.get_char(i) {
            assert(a@ != b@);
            return false;
        }
        i += 1;
    }
    assert(a@ =~= b@);
    true
}

} // verus!



verus! {

/// Index of the first occurrence of `c` in `s`, or `s.len()` if absent.
pub open spec fn find_char(s: Seq<char>, c: char) -> int
    decreases s.len(),
{
    if s.len() == 0 {
        0
    } else if s[0] == c {
        0
    } else {
        1 + find_char(s.drop_first(), c)
    }
}

pub proof fn lemma_find_char_bounds(s: Seq<char>, c: char)
    ensures
        0 <= find_char(s, c) <= s.len(),
        find_char(s, c) < s.len() ==> s[find_char(s, c)] == c,
        forall|j: int| 0 <= j < find_char(s, c) ==> s[j] != c,
    decreases s.len(),
{
    if s.len() > 0 && s[0] != c {
        lemma_find_char_bounds(s.drop_first(), c);
        assert forall|j: int| 0 <= j < find_char(s, c) implies s[j] != c by {
            if j > 0 {
                assert(s.drop_first()[j - 1] != c);
            }
        }
    }
}

/// `find_char` is where a scan for `c` stops.
pub proof fn lemma_find_char_scan(s: Seq<char>, c: char, k: int)
    requires
        0 <= k <= s.len(),
        forall|j: int| 0 <= j < k ==> s[j] != c,
        k == s.len() || s[k] == c,
    ensures
        find_char(s, c) == k,
    decreases k,
{
    if k > 0 {
        lemma_find_char_scan(s.drop_first(), c, k - 1);
    }
}

/// Scan `cs` from `from` for the first occurrence of `c`.
pub fn find_char_in(cs: &Vec<char>, from: usize, c: char) -> (k: usize)
    requires
        from <= cs@.len(),
    ensures
        from <= k <= cs@.len(),
        k - from == find_char(cs@.skip(from as int), c),
        forall|j: int| from <= j < k ==> cs@[j] != c,
        k < cs@.len() ==> cs@[k as int] == c,
    decreases cs@.len() - from,
{
    let mut k: usize = from;
    while k < cs.len() && cs[k] != c
        invariant
            from <= k <= cs@.len(),
            forall|j: int| from <= j < k ==> cs@[j] != c,
        decreases cs@.len() - k,
    {
        k += 1;
    }
    proof {
        let s = cs@.skip(from as int);
        assert(forall|j: int| 0 <= j < k - from ==> s[j] == cs@[from + j] && cs@[from + j] != c);
        lemma_find_char_scan(s, c, k - from);
    }
    k
}

/// The characters `cs[from..to]` as a string.
pub fn chars_to_string(cs: &Vec<char>, from: usize, to: usize) -> (r: String)
    requires
        from <= to <= cs@.len(),
    ensures
        r@ == cs@.subrange(from as int, to as int),
{
    let mut r = String::new();
    let mut i: usize = from;
    while i < to
        invariant
            from <= i <= to <= cs@.len(),
            r@ =~= cs@.subrange(from as int, i as int),
        decreases to - i,
    {
        let c: char = cs[i];
        push_char(&mut r, c);
        assert(r@ =~= cs@.subrange(from as int, i as int + 1));
        i += 1;
    }
    r
}

/// The view of each string in a sequence.
pub open spec fn strs_view(v: Seq<String>) -> Seq<Seq<char>> {
    Seq::new(v.len(), |i: int| v[i]@)
}

/// The pieces of `s` split at every occurrence of `c`, as `str::split` makes
/// them: an empty string yields one empty piece, and adjacent separators
/// yield empty pieces.
pub open spec fn split_all(s: Seq<char>, c: char) -> Seq<Seq<char>>
    decreases s.len(),
    via split_all_decreases
{
    let k = find_char(s, c);
    if k == s.len() {
        seq![s]
    } else {
        seq![s.take(k)] + split_all(s.skip(k + 1), c)
    }
}

#[via_fn]
proof fn split_all_decreases(s: Seq<char>, c: char) {
    lemma_find_char_bounds(s, c);
}

/// Split `s` at every occurrence of `c`, as `str::split` does.
pub fn split_all_exec(s: &str, c: char) -> (r: Vec<String>)
    ensures
        strs_view(r@) == split_all(s@, c),
{
    let cs = str_to_chars(s);
    let mut r: Vec<String> = Vec::new();
    let mut pos: usize = 0;
    proof {
        assert(cs@.skip(0) =~= cs@);
        assert(strs_view(r@) + split_all(cs@, c) =~= split_all(cs@, c));
    }
    loop
        invariant
            pos <= cs@.len(),
            cs@ == s@,
            split_all(s@, c) == strs_view(r@) + split_all(cs@.skip(pos as int), c),
        decreases cs@.len() - pos,
    {
        let k = find_char_in(&cs, pos, c);
        let piece = chars_to_string(&cs, pos, k);
        let ghost r0 = r@;
        r.push(piece);
        proof {
            assert(strs_view(r@) =~= strs_view(r0).push(cs@.subrange(pos as int, k as int)));
        }
        if k == cs.len() {
            proof {
                let rem = cs@.skip(pos as int);
                assert(find_char(rem, c) == rem.len());
                assert(split_all(rem, c) == seq![rem]);
                assert(rem =~= cs@.subrange(pos as int, k as int));
                assert(strs_view(r0) + split_all(rem, c) =~= strs_view(r@));
            }
            return r;
        }
        proof {
            let rem = cs@.skip(pos as int);
            let kk = k - pos;
            assert(find_char(rem, c) == kk);
            assert(kk < rem.len());
            assert(split_all(rem, c) == seq![rem.take(kk)] + split_all(rem.skip(kk + 1), c));
            assert(rem.take(kk) =~= cs@.subrange(pos as int, k as int));
            assert(rem.skip(kk + 1) =~= cs@.skip(k as int + 1));
            assert(strs_view(r0) + split_all(rem, c) =~= strs_view(r@) + split_all(
                cs@.skip(k as int + 1),
                c,
            ));
        }
        pos = k + 1;
    }
}

/// Whether `c` separates fields in a hunk header (the blanks that matter
/// there are plain spaces and tabs).
pub open spec fn is_blank_char(c: char) -> bool {
    c == ' ' || c == '\t'
}

/// Number of leading blank characters of `s`.
pub open spec fn leading_blanks(s: Seq<char>) -> int
    decreases s.len(),
{
    if s.len() == 0 {
        0
    } else if is_blank_char(s[0]) {
        1 + leading_blanks(s.drop_first())
    } else {
        0
    }
}

/// Length of the leading run of non-blank characters of `s`.
pub open spec fn token_len(s: Seq<char>) -> int
    decreases s.len(),
{
    if s.len() == 0 {
        0
    } else if !is_blank_char(s[0]) {
        1 + token_len(s.drop_first())
    } else {
        0
    }
}

pub proof fn lemma_leading_blanks_bounds(s: Seq<char>)
    ensures
        0 <= leading_blanks(s) <= s.len(),
        forall|j: int| 0 <= j < leading_blanks(s) ==> is_blank_char(s[j]),
        leading_blanks(s) < s.len() ==> !is_blank_char(s[leading_blanks(s)]),
    decreases s.len(),
{
    if s.len() > 0 && is_blank_char(s[0]) {
        lemma_leading_blanks_bounds(s.drop_first());
        assert forall|j: int| 0 <= j < leading_blanks(s) implies is_blank_char(s[j]) by {
            if j > 0 {
                assert(is_blank_char(s.drop_first()[j - 1]));
            }
        }
    }
}

pub proof fn lemma_token_len_bounds(s: Seq<char>)
    ensures
        0 <= token_len(s) <= s.len(),
        forall|j: int| 0 <= j < token_len(s) ==> !is_blank_char(s[j]),
        token_len(s) < s.len() ==> is_blank_char(s[token_len(s)]),
    decreases s.len(),
{
    if s.len() > 0 && !is_blank_char(s[0]) {
        lemma_token_len_bounds(s.drop_first());
        assert forall|j: int| 0 <= j < token_len(s) implies !is_blank_char(s[j]) by {
            if j > 0 {
                assert(!is_blank_char(s.drop_first()[j - 1]));
            }
        }
    }
}

proof fn lemma_leading_blanks_scan(s: Seq<char>, k: int)
    requires
        0 <= k <= s.len(),
        forall|j: int| 0 <= j < k ==> is_blank_char(s[j]),
        k == s.len() || !is_blank_char(s[k]),
    ensures
        leading_blanks(s) == k,
    decreases k,
{
    if k > 0 {
        lemma_leading_blanks_scan(s.drop_first(), k - 1);
    }
}

proof fn lemma_token_len_scan(s: Seq<char>, k: int)
    requires
        0 <= k <= s.len(),
        forall|j: int| 0 <= j < k ==> !is_blank_char(s[j]),
        k == s.len() || is_blank_char(s[k]),
    ensures
        token_len(s) == k,
    decreases k,
{
    if k > 0 {
        lemma_token_len_scan(s.drop_first(), k - 1);
    }
}

/// The blank-separated tokens of `s`.
pub open spec fn ws_tokens(s: Seq<char>) -> Seq<Seq<char>>
    decreases s.len(),
    via ws_tokens_decreases
{
    let t = s.skip(leading_blanks(s));
    if t.len() == 0 {
        seq![]
    } else {
        seq![t.take(token_len(t))] + ws_tokens(t.skip(token_len(t)))
    }
}

#[via_fn]
proof fn ws_tokens_decreases(s: Seq<char>) {
    lemma_leading_blanks_bounds(s);
    let t = s.skip(leading_blanks(s));
    if t.len() > 0 {
        lemma_token_len_bounds(t);
        assert(token_len(t) >= 1);
    }
}

/// Split `s` into its blank-separated tokens, as `str::split_whitespace`
/// does for space- and tab-separated input.
pub fn ws_tokens_exec(s: &str) -> (r: Vec<String>)
    ensures
        strs_view(r@) == ws_tokens(s@),
{
    let cs = str_to_chars(s);
    let mut r: Vec<String> = Vec::new();
    let mut pos: usize = 0;
    proof {
        assert(cs@.skip(0) =~= cs@);
        assert(strs_view(r@) + ws_tokens(cs@) =~= ws_tokens(cs@));
    }
    while pos < cs.len()
        invariant
            pos <= cs@.len(),
            cs@ == s@,
            ws_tokens(s@) == strs_view(r@) + ws_tokens(cs@.skip(pos as int)),
        decreases cs@.len() - pos,
    {
        let c: char = cs[pos];
        if c == ' ' || c == '\t' {
            proof {
                let rem = cs@.skip(pos as int);
                let rem1 = cs@.skip(pos as int + 1);
                lemma_leading_blanks_bounds(rem);
                assert(leading_blanks(rem) == 1 + leading_blanks(rem1)) by {
                    assert(rem.drop_first() =~= rem1);
                }
                assert(rem.skip(leading_blanks(rem)) =~= rem1.skip(leading_blanks(rem1)));
            }
            pos += 1;
        } else {
            let k = scan_token_end(&cs, pos);
            let piece = chars_to_string(&cs, pos, k);
            let ghost r0 = r@;
            r.push(piece);
            proof {
                let rem = cs@.skip(pos as int);
                assert(leading_blanks(rem) == 0);
                assert(rem.skip(0) =~= rem);
                let kk = k - pos;
                assert(forall|j: int|
                    0 <= j < kk ==> rem[j] == cs@[pos + j] && !is_blank_char(cs@[pos + j]));
                lemma_token_len_scan(rem, kk);
                assert(rem.take(kk) =~= cs@.subrange(pos as int, k as int));
                assert(rem.skip(kk) =~= cs@.skip(k as int));
                assert(strs_view(r@) =~= strs_view(r0).push(cs@.subrange(pos as int, k as int)));
                assert(strs_view(r0) + ws_tokens(rem) =~= strs_view(r@) + ws_tokens(
                    cs@.skip(k as int),
                ));
            }
            pos = k;
        }
    }
    proof {
        let rem = cs@.skip(pos as int);
        assert(rem =~= Seq::<char>::empty());
        assert(rem.skip(leading_blanks(rem)) =~= Seq::<char>::empty());
        assert(ws_tokens(rem) =~= Seq::<Seq<char>>::empty());
        assert(strs_view(r@) + ws_tokens(rem) =~= strs_view(r@));
    }
    r
}

/// Scan from `from` to the end of the current non-blank token.
fn scan_token_end(cs: &Vec<char>, from: usize) -> (k: usize)
    requires
        from <= cs@.len(),
    ensures
        from <= k <= cs@.len(),
        forall|j: int| from <= j < k ==> !is_blank_char(cs@[j]),
        k < cs@.len() ==> is_blank_char(cs@[k as int]),
    decreases cs@.len() - from,
{
    let mut k: usize = from;
    while k < cs.len() && !(cs[k] == ' ' || cs[k] == '\t')
        invariant
            from <= k <= cs@.len(),
            forall|j: int| from <= j < k ==> !is_blank_char(cs@[j]),
        decreases cs@.len() - k,
    {
        k += 1;
    }
    k
}

} // verus!

verus! {

/// A terminated line with its trailing `\r` removed, as `str::lines` hands
/// lines out.
pub open spec fn strip_cr(l: Seq<char>) -> Seq<char> {
    if l.len() > 0 && l.last() == '\r' {
        l.drop_last()
    } else {
        l
    }
}

/// The lines of `s` as `str::lines` yields them: split at `\n`, each
/// terminated piece with a trailing `\r` removed, no empty piece after a
/// final `\n`.
pub open spec fn lines_spec(s: Seq<char>) -> Seq<Seq<char>>
    decreases s.len(),
    via lines_spec_decreases
{
    if s.len() == 0 {
        seq![]
    } else {
        let k = find_char(s, '\n');
        if k == s.len() {
            seq![s]
        } else {
            seq![strip_cr(s.take(k))] + lines_spec(s.skip(k + 1))
        }
    }
}

#[via_fn]
proof fn lines_spec_decreases(s: Seq<char>) {
    lemma_find_char_bounds(s, '\n');
}

/// Whether `s` ends with a newline.
pub fn ends_with_nl(s: &str) -> (r: bool)
    ensures
        r == (s@.len() > 0 && s@.last() == '\n'),
{
    let n = s.unicode_len();
    if n == 0 {
        false
    } else {
        let c = s.get_char(n - 1);
        c == '\n'
    }
}

/// Split `s` into lines as `str::lines` does.
pub fn str_lines(s: &str) -> (r: Vec<String>)
    ensures
        strs_view(r@) == lines_spec(s@),
{
    let cs = str_to_chars(s);
    let mut r: Vec<String> = Vec::new();
    let mut pos: usize = 0;
    proof {
        assert(cs@.skip(0) =~= cs@);
        assert(strs_view(r@) + lines_spec(cs@) =~= lines_spec(cs@));
    }
    while pos < cs.len()
        invariant
            pos <= cs@.len(),
            cs@ == s@,
            lines_spec(s@) == strs_view(r@) + lines_spec(cs@.skip(pos as int)),
        decreases cs@.len() - pos,
    {
        let k = find_char_in(&cs, pos, '\n');
        let ghost rem = cs@.skip(pos as int);
        let ghost kk = k - pos;
        proof {
            assert(find_char(rem, '\n') == kk);
        }
        let ghost r0 = r@;
        if k == cs.len() {
            let piece = chars_to_string(&cs, pos, k);
            r.push(piece);
            proof {
                assert(kk == rem.len());
                assert(lines_spec(rem) == seq![rem]);
                assert(rem =~= cs@.subrange(pos as int, k as int));
                assert(strs_view(r@) =~= strs_view(r0).push(rem));
                assert(strs_view(r0) + lines_spec(rem) =~= strs_view(r@));
                assert(cs@.skip(k as int) =~= Seq::<char>::empty());
                assert(lines_spec(cs@.skip(k as int)) =~= Seq::<Seq<char>>::empty());
                assert(strs_view(r@) + lines_spec(cs@.skip(k as int)) =~= strs_view(r@));
            }
            pos = k;
        } else {
            let content_end: usize = if k > pos {
                let cprev: char = cs[k - 1];
                if cprev == '\r' {
                    k - 1
                } else {
                    k
                }
            } else {
                k
            };
            let piece = chars_to_string(&cs, pos, content_end);
            r.push(piece);
            proof {
                assert(kk < rem.len());
                assert(lines_spec(rem) == seq![strip_cr(rem.take(kk))] + lines_spec(
                    rem.skip(kk + 1),
                ));
                assert(rem.take(kk) =~= cs@.subrange(pos as int, k as int));
                assert(strip_cr(rem.take(kk)) =~= cs@.subrange(pos as int, content_end as int));
                assert(rem.skip(kk + 1) =~= cs@.skip(k as int + 1));
                assert(strs_view(r@) =~= strs_view(r0).push(
                    cs@.subrange(pos as int, content_end as int),
                ));
                assert(strs_view(r0) + lines_spec(rem) =~= strs_view(r@) + lines_spec(
                    cs@.skip(k as int + 1),
                ));
            }
            pos = k + 1;
        }
    }
    proof {
        if pos == cs@.len() {
            assert(cs@.skip(pos as int) =~= Seq::<char>::empty());
            assert(lines_spec(cs@.skip(pos as int)) =~= Seq::<Seq<char>>::empty());
            assert(strs_view(r@) + lines_spec(cs@.skip(pos as int)) =~= strs_view(r@));
        }
    }
    r
}

/// The pieces of `s` split after every `\n`, each keeping its terminator,
/// as `str::split_inclusive('\n')` makes them.
pub open spec fn split_inclusive_nl(s: Seq<char>) -> Seq<Seq<char>>
    decreases s.len(),
    via split_inclusive_nl_decreases
{
    if s.len() == 0 {
        seq![]
    } else {
        let k = find_char(s, '\n');
        if k == s.len() {
            seq![s]
        } else {
            seq![s.take(k + 1)] + split_inclusive_nl(s.skip(k + 1))
        }
    }
}

#[via_fn]
proof fn split_inclusive_nl_decreases(s: Seq<char>) {
    lemma_find_char_bounds(s, '\n');
}

/// Split `s` after every `\n`, keeping the terminators.
pub fn split_inclusive_nl_exec(s: &str) -> (r: Vec<String>)
    ensures
        strs_view(r@) == split_inclusive_nl(s@),
{
    let cs = str_to_chars(s);
    let mut r: Vec<String> = Vec::new();
    let mut pos: usize = 0;
    proof {
        assert(cs@.skip(0) =~= cs@);
        assert(strs_view(r@) + split_inclusive_nl(cs@) =~= split_inclusive_nl(cs@));
    }
    while pos < cs.len()
        invariant
            pos <= cs@.len(),
            cs@ == s@,
            split_inclusive_nl(s@) == strs_view(r@) + split_inclusive_nl(cs@.skip(pos as int)),
        decreases cs@.len() - pos,
    {
        let k = find_char_in(&cs, pos, '\n');
        let ghost rem = cs@.skip(pos as int);
        let ghost kk = k - pos;
        proof {
            assert(find_char(rem, '\n') == kk);
        }
        let ghost r0 = r@;
        if k == cs.len() {
            let piece = chars_to_string(&cs, pos, k);
            r.push(piece);
            proof {
                assert(kk == rem.len());
                assert(split_inclusive_nl(rem) == seq![rem]);
                assert(rem =~= cs@.subrange(pos as int, k as int));
                assert(strs_view(r@) =~= strs_view(r0).push(rem));
                assert(strs_view(r0) + split_inclusive_nl(rem) =~= strs_view(r@));
                assert(cs@.skip(k as int) =~= Seq::<char>::empty());
                assert(split_inclusive_nl(cs@.skip(k as int)) =~= Seq::<Seq<char>>::empty());
                assert(strs_view(r@) + split_inclusive_nl(cs@.skip(k as int)) =~= strs_view(r@));
            }
            pos = k;
        } else {
            let piece = chars_to_string(&cs, pos, k + 1);
            r.push(piece);
            proof {
                assert(kk < rem.len());
                assert(split_inclusive_nl(rem) == seq![rem.take(kk + 1)] + split_inclusive_nl(
                    rem.skip(kk + 1),
                ));
                assert(rem.take(kk + 1) =~= cs@.subrange(pos as int, k as int + 1));
                assert(rem.skip(kk + 1) =~= cs@.skip(k as int + 1));
                assert(strs_view(r@) =~= strs_view(r0).push(
                    cs@.subrange(pos as int, k as int + 1),
                ));
                assert(strs_view(r0) + split_inclusive_nl(rem) =~= strs_view(r@)
                    + split_inclusive_nl(cs@.skip(k as int + 1)));
            }
            pos = k + 1;
        }
    }
    proof {
        if pos == cs@.len() {
            assert(cs@.skip(pos as int) =~= Seq::<char>::empty());
            assert(split_inclusive_nl(cs@.skip(pos as int)) =~= Seq::<Seq<char>>::empty());
            assert(strs_view(r@) + split_inclusive_nl(cs@.skip(pos as int)) =~= strs_view(r@));
        }
    }
    r
}

} // verus!
