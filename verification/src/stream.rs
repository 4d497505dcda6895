//! Streamed, buffered composition of highlighted output: a bounded output
//! buffer with a first-output latency flush and steady-state capacity
//! flushes, plain numbered fallbacks, and the two event-stream compositors
//! (plain and decorated).

use vstd::prelude::*;

use crate::decorations::{decorated_line_spec, pieces_view, render_decorated_line, DecorationConfig};
use crate::git::{next_line_no, LineChange};
use crate::render::{ansi_styled, term_escape, term_head, term_newline, term_styled, term_tail,
    term_unstyled};
use crate::slicing::{byte_lines, find_line_end, push_byte_range};
use crate::style::{find_style_spec, theme_get, Style, Theme};
use crate::strutil::{
    dec_seq, ends_with_nl, line_number_width, lines_spec, pad_left, pad_left_string,
    split_inclusive_nl, split_inclusive_nl_exec, str_lines, str_to_chars, strs_view, streq,
    usize_to_string,
};
use crate::unprintable::{is_unicode, show_unprintable, unp_seq, CharStyle};

verus! {

/// High-water mark: the buffer is drained whenever it reaches this size.
pub const STREAM_BUFFER_LIMIT: usize = 64 * 1024;

/// Low-water mark: once output has started flowing, the buffer is drained
/// after a completed line whenever it holds at least this much.
pub const STREAM_FLUSH_LIMIT: usize = 8 * 1024;

/// An accumulating output buffer in front of a sink. Here the sink is the
/// `sink` string itself: flushing moves the buffer's content onto it, and
/// the caller writes the sink out. Only whole pushed fragments ever move, so
/// no flush splits a character.
pub struct StreamBuffer {
    pub buf: String,
    pub sink: String,
}

/// Everything a buffer has accepted, flushed or not, in order.
pub open spec fn total(b: StreamBuffer) -> Seq<char> {
    b.sink@ + b.buf@
}

impl StreamBuffer {
    /// An empty buffer in front of an empty sink.
    pub fn new() -> (b: StreamBuffer)
        ensures
            b.buf@ =~= Seq::<char>::empty(),
            b.sink@ =~= Seq::<char>::empty(),
    {
        StreamBuffer { buf: String::new(), sink: String::new() }
    }

    /// How much the buffer currently holds.
    pub fn len(&self) -> (n: usize)
        ensures
            n == self.buf@.len(),
    {
        self.buf.as_str().unicode_len()
    }

    /// Move everything buffered onto the sink.
    pub fn flush(&mut self)
        ensures
            final(self).sink@ == old(self).sink@ + old(self).buf@,
            final(self).buf@.len() == 0,
            total(*final(self)) == total(*old(self)),
    {
        self.sink.append(self.buf.as_str());
        self.buf = String::new();
        assert(total(*self) =~= total(*old(self)));
    }

    /// Flush only when at least `bytes` is buffered.
    pub fn flush_if_at_least(&mut self, bytes: usize)
        ensures
            total(*final(self)) == total(*old(self)),
            old(self).buf@.len() >= bytes ==> final(self).buf@.len() == 0,
            old(self).buf@.len() < bytes ==> *final(self) == *old(self),
    {
        if self.len() >= bytes {
            self.flush();
        }
    }

    /// Flush only when the buffer has reached its high-water mark.
    pub fn flush_if_full(&mut self)
        ensures
            total(*final(self)) == total(*old(self)),
            final(self).buf@.len() < STREAM_BUFFER_LIMIT,
    {
        if self.len() >= STREAM_BUFFER_LIMIT {
            self.flush();
        }
    }

    /// Append a fragment, draining the buffer when it reaches the high-water
    /// mark.
    pub fn push(&mut self, s: &str)
        ensures
            total(*final(self)) == total(*old(self)) + s@,
            final(self).buf@.len() < STREAM_BUFFER_LIMIT,
    {
        self.buf.append(s);
        assert(total(*self) =~= total(*old(self)) + s@);
        self.flush_if_full();
    }

    /// Give the flushed output up (the caller flushes first when it wants
    /// everything).
    pub fn into_sink(self) -> (r: String)
        ensures
            r@ == self.sink@,
    {
        self.sink
    }
}

/// `a + b`, stopped at the top of `usize`.
pub open spec fn sat_add(a: int, b: int) -> int {
    if a + b > usize::MAX {
        usize::MAX as int
    } else {
        a + b
    }
}

/// Number of newline characters in `s`.
pub open spec fn nl_count(s: Seq<char>) -> int
    decreases s.len(),
{
    if s.len() == 0 {
        0
    } else {
        nl_count(s.drop_last()) + if s.last() == '\n' {
            1int
        } else {
            0int
        }
    }
}

/// Number of lines the highlighter reports for a text: its newlines plus
/// one (an empty text still has one, possibly empty, line).
pub fn highlight_line_count(text: &str) -> (n: usize)
    ensures
        n as int == sat_add(nl_count(text@), 1),
        n >= 1,
{
    let cs = str_to_chars(text);
    let mut count: usize = 0;
    let mut i: usize = 0;
    while i < cs.len()
        invariant
            i <= cs@.len(),
            cs@ == text@,
            count as int == nl_count(cs@.take(i as int)),
            count <= i,
        decreases cs@.len() - i,
    {
        let c: char = cs[i];
        proof {
            assert(cs@.take(i as int + 1).drop_last() =~= cs@.take(i as int));
            assert(cs@.take(i as int + 1).last() == cs@[i as int]);
        }
        if c == '\n' {
            count += 1;
        }
        i += 1;
    }
    proof {
        assert(cs@.take(cs@.len() as int) =~= cs@);
        assert(nl_count(text@) >= 0);
    }
    if count < usize::MAX {
        count + 1
    } else {
        count
    }
}

/// One numbered chunk after another: each line's right-aligned number, two
/// spaces, and the chunk (transformed when unprintables are shown), the line
/// number advancing once per chunk.
pub open spec fn numbered_text_from(
    chunks: Seq<Seq<char>>,
    line_no: int,
    width: int,
    show_all: bool,
    uni: bool,
) -> Seq<char>
    decreases chunks.len(),
{
    if chunks.len() == 0 {
        Seq::empty()
    } else {
        pad_left(dec_seq(line_no as nat), width as nat) + seq![' ', ' '] + (if show_all {
            unp_seq(chunks[0], uni)
        } else {
            chunks[0]
        }) + numbered_text_from(chunks.drop_first(), next_line_no(line_no), width, show_all, uni)
    }
}

/// The number column width for a text numbered from `start`: wide enough
/// for the last line's number.
pub open spec fn plain_number_width(s: Seq<char>, start: int) -> int {
    dec_seq(sat_add(start, split_inclusive_nl(s).len() - 1) as nat).len() as int
}

/// What numbering a plain text yields: every `\n`-terminated chunk behind
/// its right-aligned line number; an empty text yields nothing.
pub open spec fn number_plain_spec(s: Seq<char>, start: int, show_all: bool, uni: bool) -> Seq<
    char,
> {
    let chunks = split_inclusive_nl(s);
    if chunks.len() == 0 {
        Seq::empty()
    } else {
        numbered_text_from(chunks, start, plain_number_width(s, start), show_all, uni)
    }
}

/// Number a plain text line by line, right-aligning the numbers to the width
/// of the last line's number, optionally making unprintables visible.
pub fn number_plain_text(text: &str, line_number_start: usize, show_all: bool, style: CharStyle) -> (out:
    String)
    ensures
        out@ == number_plain_spec(text@, line_number_start as int, show_all, is_unicode(style)),
{
    let chunks = split_inclusive_nl_exec(text);
    let ghost cv = split_inclusive_nl(text@);
    if chunks.len() == 0 {
        return String::new();
    }
    let count = chunks.len();
    let last_line_no: usize = if line_number_start > usize::MAX - (count - 1) {
        usize::MAX
    } else {
        line_number_start + (count - 1)
    };
    let width = line_number_width(last_line_no);
    let mut out = String::new();
    let mut line_no: usize = line_number_start;
    let mut i: usize = 0;
    proof {
        assert(strs_view(chunks@) == cv);
        assert(cv.skip(0) =~= cv);
        assert(out@ + numbered_text_from(cv, line_no as int, width as int, show_all, is_unicode(
            style,
        )) =~= numbered_text_from(cv, line_no as int, width as int, show_all, is_unicode(style)));
    }
    while i < chunks.len()
        invariant
            i <= chunks@.len(),
            strs_view(chunks@) == cv,
            number_plain_spec(text@, line_number_start as int, show_all, is_unicode(style))
                == out@ + numbered_text_from(
                cv.skip(i as int),
                line_no as int,
                width as int,
                show_all,
                is_unicode(style),
            ),
        decreases chunks@.len() - i,
    {
        let ghost rem = cv.skip(i as int);
        proof {
            assert(rem[0] == cv[i as int]);
            assert(cv[i as int] == chunks@[i as int]@);
            assert(rem.drop_first() =~= cv.skip(i as int + 1));
        }
        let numstr = usize_to_string(line_no);
        let prefix = pad_left_string(&numstr, width);
        out.append(prefix.as_str());
        let mut sp = String::new();
        crate::strutil::push_char(&mut sp, ' ');
        crate::strutil::push_char(&mut sp, ' ');
        assert(sp@ =~= seq![' ', ' ']);
        out.append(sp.as_str());
        let chunk: &String = &chunks[i];
        if show_all {
            let transformed = show_unprintable(chunk.as_str(), style);
            out.append(transformed.as_str());
        } else {
            out.append(chunk.as_str());
        }
        if line_no < usize::MAX {
            line_no = line_no + 1;
        }
        i += 1;
    }
    proof {
        assert(cv.skip(i as int) =~= Seq::<Seq<char>>::empty());
        assert(out@ + Seq::<char>::empty() =~= out@);
    }
    out
}

} // verus!

verus! {

/// The decimal numeral of `n` as ASCII bytes.
pub open spec fn dec_bytes(n: nat) -> Seq<u8>
    decreases n,
{
    if n < 10 {
        seq![(48 + n) as u8]
    } else {
        dec_bytes(n / 10) + seq![(48 + n % 10) as u8]
    }
}

proof fn lemma_dec_bytes_len(n: nat)
    ensures
        dec_bytes(n).len() == dec_seq(n).len(),
    decreases n,
{
    if n >= 10 {
        lemma_dec_bytes_len(n / 10);
    }
}

/// Append the decimal numeral of `n` to `out`.
fn push_dec_bytes(out: &mut Vec<u8>, n: usize)
    ensures
        final(out)@ == old(out)@ + dec_bytes(n as nat),
    decreases n,
{
    if n < 10 {
        out.push((48 + n) as u8);
        assert(out@ =~= old(out)@ + dec_bytes(n as nat));
    } else {
        push_dec_bytes(out, n / 10);
        out.push((48 + n % 10) as u8);
        assert(out@ =~= old(out)@ + dec_bytes(n as nat));
    }
}

/// `s` right-aligned to `w` bytes with spaces.
pub open spec fn pad_bytes(s: Seq<u8>, w: nat) -> Seq<u8> {
    if s.len() >= w {
        s
    } else {
        Seq::new((w - s.len()) as nat, |i: int| 32u8) + s
    }
}

/// The number column of one line: the right-aligned line number and two
/// spaces, as bytes.
pub open spec fn prefix_bytes(line_no: int, width: int) -> Seq<u8> {
    pad_bytes(dec_bytes(line_no as nat), width as nat) + seq![32u8, 32u8]
}

/// Write one line-number prefix: the number right-aligned to `width`, then
/// two spaces.
pub fn write_prefix(out: &mut Vec<u8>, line_no: usize, width: usize)
    ensures
        final(out)@ == old(out)@ + prefix_bytes(line_no as int, width as int),
{
    let numlen = line_number_width(line_no);
    proof {
        lemma_dec_bytes_len(line_no as nat);
    }
    if numlen < width {
        let pad = width - numlen;
        let mut i: usize = 0;
        while i < pad
            invariant
                i <= pad,
                out@ =~= old(out)@ + Seq::new(i as nat, |j: int| 32u8),
            decreases pad - i,
        {
            out.push(32);
            assert(out@ =~= old(out)@ + Seq::new((i + 1) as nat, |j: int| 32u8));
            i += 1;
        }
    }
    push_dec_bytes(out, line_no);
    out.push(32);
    out.push(32);
    assert(out@ =~= old(out)@ + prefix_bytes(line_no as int, width as int));
}

/// Every line of a split behind its number column, the line number advancing
/// once per line.
pub open spec fn numbered_bytes_from(ls: Seq<Seq<u8>>, line_no: int, width: int) -> Seq<u8>
    decreases ls.len(),
{
    if ls.len() == 0 {
        Seq::empty()
    } else {
        prefix_bytes(line_no, width) + ls[0] + numbered_bytes_from(
            ls.drop_first(),
            next_line_no(line_no),
            width,
        )
    }
}

/// The number column width for a byte buffer numbered from `start`.
pub open spec fn bytes_number_width(b: Seq<u8>, start: int) -> int {
    dec_seq(sat_add(start, byte_lines(b).len() - 1) as nat).len() as int
}

/// Write `bytes` line by line, each line behind its right-aligned number
/// and two spaces; an empty buffer writes nothing.
pub fn write_numbered_bytes(out: &mut Vec<u8>, bytes: &Vec<u8>, line_number_start: usize)
    ensures
        final(out)@ == old(out)@ + numbered_bytes_from(
            byte_lines(bytes@),
            line_number_start as int,
            bytes_number_width(bytes@, line_number_start as int),
        ),
{
    let count = crate::slicing::count_lines_bytes(bytes);
    if count == 0 {
        proof {
            assert(out@ =~= old(out)@ + numbered_bytes_from(
                byte_lines(bytes@),
                line_number_start as int,
                bytes_number_width(bytes@, line_number_start as int),
            ));
        }
        return ;
    }
    let last_line_no: usize = if line_number_start > usize::MAX - (count - 1) {
        usize::MAX
    } else {
        line_number_start + (count - 1)
    };
    let width = line_number_width(last_line_no);
    let mut pos: usize = 0;
    let mut line_no: usize = line_number_start;
    proof {
        assert(bytes@.skip(0) =~= bytes@);
    }
    while pos < bytes.len()
        invariant
            pos <= bytes@.len(),
            width == bytes_number_width(bytes@, line_number_start as int),
            old(out)@ + numbered_bytes_from(
                byte_lines(bytes@),
                line_number_start as int,
                width as int,
            ) == out@ + numbered_bytes_from(
                byte_lines(bytes@.skip(pos as int)),
                line_no as int,
                width as int,
            ),
        decreases bytes@.len() - pos,
    {
        let end = find_line_end(bytes, pos);
        proof {
            crate::slicing::lemma_byte_lines_step(bytes@, pos as int, end as int);
        }
        let ghost out0 = out@;
        let ghost line = bytes@.subrange(pos as int, end as int);
        let ghost ls = byte_lines(bytes@.skip(pos as int));
        write_prefix(out, line_no, width);
        push_byte_range(out, bytes, pos, end);
        proof {
            assert(ls.drop_first() =~= byte_lines(bytes@.skip(end as int)));
            assert(ls[0] == line);
            assert(numbered_bytes_from(ls, line_no as int, width as int) == prefix_bytes(
                line_no as int,
                width as int,
            ) + line + numbered_bytes_from(
                byte_lines(bytes@.skip(end as int)),
                next_line_no(line_no as int),
                width as int,
            ));
            assert(out@ =~= out0 + (prefix_bytes(line_no as int, width as int) + line));
            assert((out0 + (prefix_bytes(line_no as int, width as int) + line))
                + numbered_bytes_from(
                byte_lines(bytes@.skip(end as int)),
                next_line_no(line_no as int),
                width as int,
            ) =~= out0 + numbered_bytes_from(ls, line_no as int, width as int));
        }
        if line_no < usize::MAX {
            line_no = line_no + 1;
        }
        pos = end;
    }
    proof {
        assert(bytes@.skip(pos as int) =~= Seq::<u8>::empty());
        assert(byte_lines(bytes@.skip(pos as int)) =~= Seq::<Seq<u8>>::empty());
        assert(out@ + Seq::<u8>::empty() =~= out@);
    }
}

} // verus!

verus! {

/// One event of a highlight stream: a style scope opens (carrying an index
/// into the theme-key table), a scope closes, or a run of source text is
/// covered by the current scopes.
#[derive(Debug, Clone)]
pub enum HlEvent {
    ScopeStart(usize),
    ScopeEnd,
    Source(String),
}

/// The scope stack after a scope closes: popping an empty stack is a no-op,
/// so a malformed stream cannot underflow it.
pub open spec fn pop_stack(st: Seq<usize>) -> Seq<usize> {
    if st.len() > 0 {
        st.drop_last()
    } else {
        st
    }
}

/// The line-feed marker glyph appended before a real newline when
/// unprintables are shown.
pub open spec fn lf_marker(uni: bool) -> Seq<char> {
    if uni {
        seq!['\u{240a}']
    } else {
        seq!['$']
    }
}

/// The line-feed marker as a string.
pub fn lf_marker_exec(style: CharStyle) -> (r: String)
    ensures
        r@ == lf_marker(is_unicode(style)),
{
    let mut r = String::new();
    match style {
        CharStyle::Unicode => crate::strutil::push_char(&mut r, '\u{240a}'),
        CharStyle::Caret => crate::strutil::push_char(&mut r, '$'),
    }
    assert(r@ =~= lf_marker(is_unicode(style)));
    r
}

/// The effective style key of a scope stack: the innermost scope's entry in
/// the key table, unless it is missing or the reserved `none` key.
pub open spec fn style_key_spec(stack: Seq<usize>, keys: Seq<Seq<char>>) -> Option<Seq<char>> {
    if stack.len() == 0 {
        None
    } else {
        let i = stack.last() as int;
        if i < keys.len() {
            if keys[i] == "none"@ {
                None
            } else {
                Some(keys[i])
            }
        } else {
            None
        }
    }
}

/// The effective style key for the current scope stack.
pub fn current_style_key(style_stack: &Vec<usize>, theme_keys: &Vec<String>) -> (r: Option<String>)
    ensures
        r is Some <==> style_key_spec(style_stack@, strs_view(theme_keys@)) is Some,
        r matches Some(k) ==> style_key_spec(style_stack@, strs_view(theme_keys@)) == Some(k@),
{
    if style_stack.len() == 0 {
        return None;
    }
    let idx: usize = style_stack[style_stack.len() - 1];
    if idx < theme_keys.len() {
        let key: &String = &theme_keys[idx];
        proof {
            assert(strs_view(theme_keys@)[idx as int] == theme_keys@[idx as int]@);
        }
        if streq(key.as_str(), "none") {
            None
        } else {
            Some(key.clone())
        }
    } else {
        None
    }
}

/// One sub-line as the plain path renders it. With unprintables shown, the
/// transformed text is styled only by an exact theme entry and never
/// escaped; otherwise the (identity-escaped) text is styled by the theme's
/// best match for the key, or passed through unstyled.
#[verifier::opaque]
pub open spec fn plain_piece(
    l: Seq<char>,
    key: Option<Seq<char>>,
    theme: Seq<(Seq<char>, Style)>,
    show_all: bool,
    uni: bool,
) -> Seq<char> {
    if show_all {
        let t = unp_seq(l, uni);
        match key {
            Some(k) => match theme_get(theme, k) {
                Some(st) => ansi_styled(t, st),
                None => t,
            },
            None => t,
        }
    } else {
        match key {
            Some(k) => match find_style_spec(theme, k) {
                Some(st) => ansi_styled(l, st),
                None => l,
            },
            None => l,
        }
    }
}

/// The plain path's output for the sub-lines of one source span, with
/// whether the line under construction has content: every sub-line but the
/// last (and the last too, when the span ends in a newline) is followed by
/// the optional line-feed marker and a newline; the final flag carries into
/// the next span.
#[verifier::opaque]
pub open spec fn plain_source_render(
    ls: Seq<Seq<char>>,
    endnl: bool,
    keys: Seq<Seq<char>>,
    theme: Seq<(Seq<char>, Style)>,
    show_all: bool,
    uni: bool,
    stack: Seq<usize>,
    lhc: bool,
) -> (Seq<char>, bool)
    decreases ls.len(),
{
    if ls.len() == 0 {
        (Seq::empty(), lhc)
    } else {
        let l = ls[0];
        let lhc1 = lhc || l.len() > 0;
        let piece = plain_piece(l, style_key_spec(stack, keys), theme, show_all, uni);
        if ls.len() > 1 || endnl {
            let rest = plain_source_render(
                ls.drop_first(),
                endnl,
                keys,
                theme,
                show_all,
                uni,
                stack,
                false,
            );
            (
                piece + (if show_all && lhc1 {
                    lf_marker(uni)
                } else {
                    Seq::empty()
                }) + seq!['\n'] + rest.0,
                rest.1,
            )
        } else {
            (piece, lhc1)
        }
    }
}

/// The plain path's whole output for the remaining events, given the scope
/// stack and whether the current line has content: scopes push and pop the
/// stack, source spans render line by line, and a final line with content
/// still gets its line-feed marker when unprintables are shown.
pub open spec fn plain_render_from(
    events: Seq<HlEvent>,
    keys: Seq<Seq<char>>,
    theme: Seq<(Seq<char>, Style)>,
    show_all: bool,
    uni: bool,
    stack: Seq<usize>,
    lhc: bool,
) -> Seq<char>
    decreases events.len(),
{
    if events.len() == 0 {
        if show_all && lhc {
            lf_marker(uni)
        } else {
            Seq::empty()
        }
    } else {
        match events[0] {
            HlEvent::ScopeStart(id) => plain_render_from(
                events.drop_first(),
                keys,
                theme,
                show_all,
                uni,
                stack.push(id),
                lhc,
            ),
            HlEvent::ScopeEnd => plain_render_from(
                events.drop_first(),
                keys,
                theme,
                show_all,
                uni,
                pop_stack(stack),
                lhc,
            ),
            HlEvent::Source(s) => {
                let sr = plain_source_render(
                    lines_spec(s@),
                    s@.len() > 0 && s@.last() == '\n',
                    keys,
                    theme,
                    show_all,
                    uni,
                    stack,
                    lhc,
                );
                sr.0 + plain_render_from(
                    events.drop_first(),
                    keys,
                    theme,
                    show_all,
                    uni,
                    stack,
                    sr.1,
                )
            },
        }
    }
}

/// The plain path's whole output for an event stream, starting with an empty
/// scope stack and an empty current line.
pub open spec fn plain_render(
    events: Seq<HlEvent>,
    keys: Seq<Seq<char>>,
    theme: Seq<(Seq<char>, Style)>,
    show_all: bool,
    uni: bool,
) -> Seq<char> {
    plain_render_from(events, keys, theme, show_all, uni, Seq::empty(), false)
}

/// Render one sub-line of the plain path and push it.
fn push_plain_piece(
    out: &mut StreamBuffer,
    line: &str,
    key: &Option<String>,
    theme: &Theme,
    show_all: bool,
    char_style: CharStyle,
)
    ensures
        total(*final(out)) == total(*old(out)) + plain_piece(
            line@,
            match key {
                Some(k) => Some(k@),
                None => None,
            },
            theme@,
            show_all,
            is_unicode(char_style),
        ),
{
    proof {
        reveal(plain_piece);
    }
    if show_all {
        let transformed = show_unprintable(line, char_style);
        match key {
            Some(k) => {
                match theme.get(k.as_str()) {
                    Some(st) => {
                        let rendered = term_styled(transformed.as_str(), &st);
                        out.push(rendered.as_str());
                    },
                    None => {
                        out.push(transformed.as_str());
                    },
                }
            },
            None => {
                out.push(transformed.as_str());
            },
        }
    } else {
        let escaped = term_escape(line);
        match key {
            Some(k) => {
                match theme.find_style(k.as_str()) {
                    Some(st) => {
                        let rendered = term_styled(escaped.as_str(), &st);
                        out.push(rendered.as_str());
                    },
                    None => {
                        let rendered = term_unstyled(escaped.as_str());
                        out.push(rendered.as_str());
                    },
                }
            },
            None => {
                let rendered = term_unstyled(escaped.as_str());
                out.push(rendered.as_str());
            },
        }
    }
}

/// Render one sub-line of the plain path: the styled piece, and when the
/// line is complete, the optional line-feed marker and the newline, with the
/// latency/capacity flush policy applied.
#[verifier::rlimit(100)]
#[verifier::spinoff_prover]
fn write_plain_line(
    out: &mut StreamBuffer,
    line: &str,
    stack: &Vec<usize>,
    theme: &Theme,
    theme_keys: &Vec<String>,
    show_all: bool,
    char_style: CharStyle,
    lf: &String,
    lhc0: bool,
    newline_after: bool,
    flushed_visible: &mut bool,
) -> (lhc_out: bool)
    requires
        lf@ == lf_marker(is_unicode(char_style)),
    ensures
        ({
            let lhc1 = lhc0 || line@.len() > 0;
            let piece = plain_piece(
                line@,
                style_key_spec(stack@, strs_view(theme_keys@)),
                theme@,
                show_all,
                is_unicode(char_style),
            );
            let mk: Seq<char> = if show_all && lhc1 {
                lf_marker(is_unicode(char_style))
            } else {
                Seq::empty()
            };
            if newline_after {
                total(*final(out)) == total(*old(out)) + piece + mk + seq!['\n'] && lhc_out
                    == false
            } else {
                total(*final(out)) == total(*old(out)) + piece && lhc_out == lhc1
            }
        }),
{
    let mut lhc = lhc0;
    if line.unicode_len() > 0 {
        lhc = true;
    }
    let key = current_style_key(stack, theme_keys);
    push_plain_piece(out, line, &key, theme, show_all, char_style);
    proof {
        let kv = match key {
            Some(k) => Some(k@),
            None => None,
        };
        assert(kv == style_key_spec(stack@, strs_view(theme_keys@)));
    }
    if !*flushed_visible && out.len() >= STREAM_FLUSH_LIMIT {
        out.flush();
        *flushed_visible = true;
    }
    if newline_after {
        if show_all && lhc {
            out.push(lf.as_str());
        }
        let nl = term_newline();
        out.push(nl.as_str());
        if !*flushed_visible {
            out.flush();
            *flushed_visible = true;
        } else {
            out.flush_if_at_least(STREAM_FLUSH_LIMIT);
        }
        lhc = false;
    }
    lhc
}

/// Render the sub-lines of one source span onto the buffer, plain path.
#[verifier::rlimit(100)]
#[verifier::spinoff_prover]
fn write_plain_source(
    out: &mut StreamBuffer,
    s: &str,
    stack: &Vec<usize>,
    theme: &Theme,
    theme_keys: &Vec<String>,
    show_all: bool,
    char_style: CharStyle,
    lf: &String,
    lhc0: bool,
) -> (lhc_out: bool)
    requires
        lf@ == lf_marker(is_unicode(char_style)),
    ensures
        ({
            let sr = plain_source_render(
                lines_spec(s@),
                s@.len() > 0 && s@.last() == '\n',
                strs_view(theme_keys@),
                theme@,
                show_all,
                is_unicode(char_style),
                stack@,
                lhc0,
            );
            total(*final(out)) == total(*old(out)) + sr.0 && lhc_out == sr.1
        }),
{
    let mut lhc: bool = lhc0;
    let ghost keys = strs_view(theme_keys@);
    let ghost th = theme@;
    let ghost uni = is_unicode(char_style);
    let lines = str_lines(s);
    let endnl = ends_with_nl(s);
    let ghost lsv = lines_spec(s@);
    let ghost target = total(*old(out)) + plain_source_render(
        lsv,
        endnl,
        keys,
        th,
        show_all,
        uni,
        stack@,
        lhc0,
    ).0;
    let ghost final_lhc = plain_source_render(
        lsv,
        endnl,
        keys,
        th,
        show_all,
        uni,
        stack@,
        lhc0,
    ).1;
    let mut flushed_visible: bool = false;
    let mut j: usize = 0;
    proof {
        assert(strs_view(lines@) == lsv);
        assert(lsv.skip(0) =~= lsv);
    }
    while j < lines.len()
        invariant
            j <= lines@.len(),
            keys == strs_view(theme_keys@),
            th == theme@,
            uni == is_unicode(char_style),
            lf@ == lf_marker(uni),
            strs_view(lines@) == lsv,
            endnl == (s@.len() > 0 && s@.last() == '\n'),
            target == total(*out) + plain_source_render(
                lsv.skip(j as int),
                endnl,
                keys,
                th,
                show_all,
                uni,
                stack@,
                lhc,
            ).0,
            final_lhc == plain_source_render(
                lsv.skip(j as int),
                endnl,
                keys,
                th,
                show_all,
                uni,
                stack@,
                lhc,
            ).1,
        decreases lines@.len() - j,
    {
        let ghost lrem = lsv.skip(j as int);
        let ghost lhcp = lhc;
        let ghost total0 = total(*out);
        proof {
            assert(lrem[0] == lsv[j as int]);
            assert(lsv[j as int] == lines@[j as int]@);
            assert(lrem.drop_first() =~= lsv.skip(j as int + 1));
        }
        let line: &String = &lines[j];
        let newline_after = j + 1 < lines.len() || endnl;
        lhc = write_plain_line(
            out,
            line.as_str(),
            stack,
            theme,
            theme_keys,
            show_all,
            char_style,
            lf,
            lhc,
            newline_after,
            &mut flushed_visible,
        );
        proof {
            reveal(plain_source_render);
            let lhc1 = lhcp || lrem[0].len() > 0;
            let piece = plain_piece(lrem[0], style_key_spec(stack@, keys), th, show_all, uni);
            let mk: Seq<char> = if show_all && lhc1 {
                lf_marker(uni)
            } else {
                Seq::empty()
            };
            let sr = plain_source_render(lrem, endnl, keys, th, show_all, uni, stack@, lhcp);
            let srn = plain_source_render(
                lsv.skip(j as int + 1),
                endnl,
                keys,
                th,
                show_all,
                uni,
                stack@,
                if newline_after {
                    false
                } else {
                    lhc1
                },
            );
            if newline_after {
                assert(sr.0 =~= piece + mk + seq!['\n'] + srn.0);
                assert(sr.1 == srn.1);
                assert(total(*out) =~= total0 + piece + mk + seq!['\n']);
            } else {
                assert(j + 1 == lines@.len());
                assert(lsv.skip(j as int + 1) =~= Seq::<Seq<char>>::empty());
                assert(sr.0 =~= piece);
                assert(sr.1 == lhc1);
                assert(srn.0 =~= Seq::<char>::empty());
                assert(srn.1 == lhc1);
                assert(total(*out) =~= total0 + piece);
            }
            assert(target =~= total(*out) + srn.0);
        }
        j += 1;
    }
    proof {
        reveal(plain_source_render);
        assert(lsv.skip(lines@.len() as int) =~= Seq::<Seq<char>>::empty());
        assert(total(*out) + Seq::<char>::empty() =~= total(*out));
    }
    lhc
}

/// Drive a highlight-event stream into the buffer without decorations:
/// each sub-line styled by the innermost scope, a latency flush as soon as
/// the first output exists, capacity flushes afterwards, and everything
/// flushed at the end.
#[verifier::rlimit(100)]
#[verifier::spinoff_prover]
pub fn write_highlight_iter_plain(
    out: &mut StreamBuffer,
    events: &Vec<HlEvent>,
    theme: &Theme,
    theme_keys: &Vec<String>,
    show_all: bool,
    char_style: CharStyle,
)
    ensures
        total(*final(out)) == total(*old(out)) + plain_render(
            events@,
            strs_view(theme_keys@),
            theme@,
            show_all,
            is_unicode(char_style),
        ),
        final(out).buf@.len() == 0,
{
    let ghost keys = strs_view(theme_keys@);
    let ghost th = theme@;
    let ghost uni = is_unicode(char_style);
    let ghost target = total(*old(out)) + plain_render(events@, keys, th, show_all, uni);
    let head = term_head();
    out.push(head.as_str());
    out.flush();
    let lf = lf_marker_exec(char_style);
    let mut stack: Vec<usize> = Vec::new();
    let mut lhc: bool = false;
    let mut flushed_visible: bool = false;
    let mut i: usize = 0;
    proof {
        assert(total(*out) =~= total(*old(out)));
        assert(events@.skip(0) =~= events@);
        assert(stack@ =~= Seq::<usize>::empty());
        assert(target =~= total(*out) + plain_render_from(
            events@.skip(0),
            keys,
            th,
            show_all,
            uni,
            stack@,
            lhc,
        ));
    }
    while i < events.len()
        invariant
            i <= events@.len(),
            keys == strs_view(theme_keys@),
            th == theme@,
            uni == is_unicode(char_style),
            lf@ == lf_marker(uni),
            target == total(*out) + plain_render_from(
                events@.skip(i as int),
                keys,
                th,
                show_all,
                uni,
                stack@,
                lhc,
            ),
        decreases events@.len() - i,
    {
        let ghost rem = events@.skip(i as int);
        proof {
            assert(rem[0] == events@[i as int]);
            assert(rem.drop_first() =~= events@.skip(i as int + 1));
        }
        let ev: &HlEvent = &events[i];
        match ev {
            HlEvent::ScopeStart(id) => {
                stack.push(*id);
            },
            HlEvent::ScopeEnd => {
                let ghost st0 = stack@;
                let popped = stack.pop();
                proof {
                    assert(stack@ =~= pop_stack(st0));
                }
            },
            HlEvent::Source(s) => {
                let ghost lhc0 = lhc;
                lhc = write_plain_source(
                    out,
                    s.as_str(),
                    &stack,
                    theme,
                    theme_keys,
                    show_all,
                    char_style,
                    &lf,
                    lhc,
                );
                proof {
                    let sr = plain_source_render(
                        lines_spec(s@),
                        s@.len() > 0 && s@.last() == '\n',
                        keys,
                        th,
                        show_all,
                        uni,
                        stack@,
                        lhc0,
                    );
                    assert(lhc == sr.1);
                    assert(target =~= total(*out) + plain_render_from(
                        events@.skip(i as int + 1),
                        keys,
                        th,
                        show_all,
                        uni,
                        stack@,
                        sr.1,
                    ));
                }
            },
        }
        i += 1;
    }
    proof {
        assert(events@.skip(events@.len() as int) =~= Seq::<HlEvent>::empty());
    }
    if show_all && lhc {
        out.push(lf.as_str());
    }
    let tail = term_tail();
    out.push(tail.as_str());
    out.flush();
    proof {
        assert(total(*out) =~= target);
    }
}

} // verus!

verus! {

/// The change classification for a 0-based line index; lines past the map
/// are unchanged.
pub open spec fn change_at(changes: Seq<Option<LineChange>>, idx: int) -> Option<LineChange> {
    if 0 <= idx < changes.len() {
        changes[idx]
    } else {
        None
    }
}

/// The state the decorated compositor carries across source spans: the next
/// display line number, the 0-based change-map index, whether the line under
/// construction has content, and the content pieces collected for it.
pub ghost struct DecState {
    pub line_no: int,
    pub line_index: int,
    pub lhc: bool,
    pub acc: Seq<(Seq<char>, Option<Seq<char>>)>,
}

/// The decorated path's output for the sub-lines of one source span: pieces
/// accumulate into the current line; each completed line is rendered with
/// its decorations, followed by the optional line-feed marker and a newline.
pub open spec fn dec_source_render(
    ls: Seq<Seq<char>>,
    endnl: bool,
    keys: Seq<Seq<char>>,
    theme: Seq<(Seq<char>, crate::style::Style)>,
    cfg: DecorationConfig,
    show_all: bool,
    uni: bool,
    changes: Seq<Option<LineChange>>,
    width: int,
    stack: Seq<usize>,
    st: DecState,
) -> (Seq<char>, DecState)
    decreases ls.len(),
{
    if ls.len() == 0 {
        (Seq::empty(), st)
    } else {
        let l = ls[0];
        let lhc1 = st.lhc || l.len() > 0;
        let piece_text = if show_all {
            unp_seq(l, uni)
        } else {
            l
        };
        let acc1 = st.acc.push((piece_text, style_key_spec(stack, keys)));
        if ls.len() > 1 || endnl {
            let rendered = decorated_line_spec(
                acc1,
                st.line_no,
                cfg,
                change_at(changes, st.line_index),
                theme,
                width,
            );
            let mk = if show_all && lhc1 {
                lf_marker(uni)
            } else {
                Seq::empty()
            };
            let rest = dec_source_render(
                ls.drop_first(),
                endnl,
                keys,
                theme,
                cfg,
                show_all,
                uni,
                changes,
                width,
                stack,
                DecState {
                    line_no: next_line_no(st.line_no),
                    line_index: next_line_no(st.line_index),
                    lhc: false,
                    acc: Seq::empty(),
                },
            );
            (rendered + mk + seq!['\n'] + rest.0, rest.1)
        } else {
            (
                Seq::empty(),
                DecState { line_no: st.line_no, line_index: st.line_index, lhc: lhc1, acc: acc1 },
            )
        }
    }
}

/// The decorated path's whole output for the remaining events: scopes push
/// and pop the stack, source spans build and complete lines, and the final
/// line (even an empty one) is always rendered with its decorations.
pub open spec fn dec_render_from(
    events: Seq<HlEvent>,
    keys: Seq<Seq<char>>,
    theme: Seq<(Seq<char>, crate::style::Style)>,
    cfg: DecorationConfig,
    show_all: bool,
    uni: bool,
    changes: Seq<Option<LineChange>>,
    width: int,
    stack: Seq<usize>,
    st: DecState,
) -> Seq<char>
    decreases events.len(),
{
    if events.len() == 0 {
        decorated_line_spec(st.acc, st.line_no, cfg, change_at(changes, st.line_index), theme, width)
            + (if show_all && st.lhc {
            lf_marker(uni)
        } else {
            Seq::empty()
        })
    } else {
        match events[0] {
            HlEvent::ScopeStart(id) => dec_render_from(
                events.drop_first(),
                keys,
                theme,
                cfg,
                show_all,
                uni,
                changes,
                width,
                stack.push(id),
                st,
            ),
            HlEvent::ScopeEnd => dec_render_from(
                events.drop_first(),
                keys,
                theme,
                cfg,
                show_all,
                uni,
                changes,
                width,
                pop_stack(stack),
                st,
            ),
            HlEvent::Source(s) => {
                let sr = dec_source_render(
                    lines_spec(s@),
                    s@.len() > 0 && s@.last() == '\n',
                    keys,
                    theme,
                    cfg,
                    show_all,
                    uni,
                    changes,
                    width,
                    stack,
                    st,
                );
                sr.0 + dec_render_from(
                    events.drop_first(),
                    keys,
                    theme,
                    cfg,
                    show_all,
                    uni,
                    changes,
                    width,
                    stack,
                    sr.1,
                )
            },
        }
    }
}

/// The configuration the decorated path really uses: the change column only
/// appears when the change map classifies at least one line.
pub open spec fn effective_dec_config(
    cfg: DecorationConfig,
    changes: Seq<Option<LineChange>>,
) -> DecorationConfig {
    if exists|q: int| 0 <= q < changes.len() && (#[trigger] changes[q]) is Some {
        cfg
    } else {
        DecorationConfig { show_changes: false, ..cfg }
    }
}

/// The number column width for a highlighted text numbered from `start`:
/// wide enough for the last highlight line's number.
pub open spec fn dec_width(s: Seq<char>, start: int) -> int {
    dec_seq(sat_add(start, sat_add(nl_count(s), 1) - 1) as nat).len() as int
}

/// The decorated path's whole output for an event stream over `text`.
pub open spec fn dec_render(
    events: Seq<HlEvent>,
    keys: Seq<Seq<char>>,
    theme: Seq<(Seq<char>, crate::style::Style)>,
    cfg: DecorationConfig,
    show_all: bool,
    uni: bool,
    changes: Seq<Option<LineChange>>,
    text: Seq<char>,
    start: int,
) -> Seq<char> {
    dec_render_from(
        events,
        keys,
        theme,
        effective_dec_config(cfg, changes),
        show_all,
        uni,
        changes,
        dec_width(text, start),
        Seq::empty(),
        DecState { line_no: start, line_index: 0, lhc: false, acc: Seq::empty() },
    )
}

/// Drive a highlight-event stream into the buffer with decorations: pieces
/// collect into logical lines, every completed line goes through the
/// decoration composer with its number and change marker, and the final
/// line is rendered even when empty so the decoration columns stay intact.
#[verifier::rlimit(100)]
#[verifier::spinoff_prover]
pub fn write_highlight_iter_with_decorations(
    out: &mut StreamBuffer,
    text: &str,
    events: &Vec<HlEvent>,
    theme: &Theme,
    theme_keys: &Vec<String>,
    config: &DecorationConfig,
    line_number_start: usize,
    git_changes: &Vec<Option<LineChange>>,
    show_all: bool,
    char_style: CharStyle,
)
    ensures
        total(*final(out)) == total(*old(out)) + dec_render(
            events@,
            strs_view(theme_keys@),
            theme@,
            *config,
            show_all,
            is_unicode(char_style),
            git_changes@,
            text@,
            line_number_start as int,
        ),
        final(out).buf@.len() == 0,
{
    let ghost keys = strs_view(theme_keys@);
    let ghost th = theme@;
    let ghost uni = is_unicode(char_style);
    let ghost changes = git_changes@;
    let ghost target = total(*old(out)) + dec_render(
        events@,
        keys,
        th,
        *config,
        show_all,
        uni,
        changes,
        text@,
        line_number_start as int,
    );
    let mut has_git: bool = false;
    let mut g: usize = 0;
    while g < git_changes.len()
        invariant
            g <= git_changes@.len(),
            has_git <==> exists|q: int|
                0 <= q < g as int && (#[trigger] git_changes@[q]) is Some,
        decreases git_changes@.len() - g,
    {
        let c: Option<LineChange> = git_changes[g];
        if c.is_some() {
            has_git = true;
        }
        g += 1;
    }
    let effective: DecorationConfig = if has_git {
        *config
    } else {
        DecorationConfig { show_changes: false, ..*config }
    };
    proof {
        assert(effective == effective_dec_config(*config, changes));
    }
    let line_count = highlight_line_count(text);
    let last_line_no: usize = if line_number_start > usize::MAX - (line_count - 1) {
        usize::MAX
    } else {
        line_number_start + (line_count - 1)
    };
    let width = line_number_width(last_line_no);
    proof {
        assert(width as int == dec_width(text@, line_number_start as int));
    }
    let head = term_head();
    out.push(head.as_str());
    out.flush();
    let lf = lf_marker_exec(char_style);
    let mut stack: Vec<usize> = Vec::new();
    let mut line_no: usize = line_number_start;
    let mut line_index: usize = 0;
    let mut lhc: bool = false;
    let mut line_content: Vec<(String, Option<String>)> = Vec::new();
    let mut flushed_visible: bool = false;
    let mut i: usize = 0;
    proof {
        assert(total(*out) =~= total(*old(out)));
        assert(events@.skip(0) =~= events@);
        assert(stack@ =~= Seq::<usize>::empty());
        assert(pieces_view(line_content@) =~= Seq::<(Seq<char>, Option<Seq<char>>)>::empty());
        assert(target =~= total(*out) + dec_render_from(
            events@.skip(0),
            keys,
            th,
            effective,
            show_all,
            uni,
            changes,
            width as int,
            stack@,
            DecState {
                line_no: line_no as int,
                line_index: line_index as int,
                lhc: lhc,
                acc: pieces_view(line_content@),
            },
        ));
    }
    while i < events.len()
        invariant
            i <= events@.len(),
            keys == strs_view(theme_keys@),
            th == theme@,
            uni == is_unicode(char_style),
            lf@ == lf_marker(uni),
            changes == git_changes@,
            target == total(*out) + dec_render_from(
                events@.skip(i as int),
                keys,
                th,
                effective,
                show_all,
                uni,
                changes,
                width as int,
                stack@,
                DecState {
                    line_no: line_no as int,
                    line_index: line_index as int,
                    lhc: lhc,
                    acc: pieces_view(line_content@),
                },
            ),
        decreases events@.len() - i,
    {
        let ghost rem = events@.skip(i as int);
        proof {
            assert(rem[0] == events@[i as int]);
            assert(rem.drop_first() =~= events@.skip(i as int + 1));
        }
        let ev: &HlEvent = &events[i];
        match ev {
            HlEvent::ScopeStart(id) => {
                stack.push(*id);
            },
            HlEvent::ScopeEnd => {
                let ghost st0 = stack@;
                let popped = stack.pop();
                proof {
                    assert(stack@ =~= pop_stack(st0));
                }
            },
            HlEvent::Source(s) => {
                let lines = str_lines(s.as_str());
                let endnl = ends_with_nl(s.as_str());
                let ghost lsv = lines_spec(s@);
                let mut j: usize = 0;
                proof {
                    assert(strs_view(lines@) == lsv);
                    assert(lsv.skip(0) =~= lsv);
                }
                while j < lines.len()
                    invariant
                        j <= lines@.len(),
                        keys == strs_view(theme_keys@),
                        th == theme@,
                        uni == is_unicode(char_style),
                        lf@ == lf_marker(uni),
                        changes == git_changes@,
                        strs_view(lines@) == lsv,
                        endnl == (s@.len() > 0 && s@.last() == '\n'),
                        rem.drop_first() =~= events@.skip(i as int + 1),
                        target == total(*out) + dec_source_render(
                            lsv.skip(j as int),
                            endnl,
                            keys,
                            th,
                            effective,
                            show_all,
                            uni,
                            changes,
                            width as int,
                            stack@,
                            DecState {
                                line_no: line_no as int,
                                line_index: line_index as int,
                                lhc: lhc,
                                acc: pieces_view(line_content@),
                            },
                        ).0 + dec_render_from(
                            events@.skip(i as int + 1),
                            keys,
                            th,
                            effective,
                            show_all,
                            uni,
                            changes,
                            width as int,
                            stack@,
                            dec_source_render(
                                lsv.skip(j as int),
                                endnl,
                                keys,
                                th,
                                effective,
                                show_all,
                                uni,
                                changes,
                                width as int,
                                stack@,
                                DecState {
                                    line_no: line_no as int,
                                    line_index: line_index as int,
                                    lhc: lhc,
                                    acc: pieces_view(line_content@),
                                },
                            ).1,
                        ),
                    decreases lines@.len() - j,
                {
                    let ghost lrem = lsv.skip(j as int);
                    let ghost st0 = DecState {
                        line_no: line_no as int,
                        line_index: line_index as int,
                        lhc: lhc,
                        acc: pieces_view(line_content@),
                    };
                    let ghost total0 = total(*out);
                    proof {
                        assert(lrem[0] == lsv[j as int]);
                        assert(lsv[j as int] == lines@[j as int]@);
                        assert(lrem.drop_first() =~= lsv.skip(j as int + 1));
                    }
                    let line: &String = &lines[j];
                    if line.as_str().unicode_len() > 0 {
                        lhc = true;
                    }
                    let ghost lhc1 = lhc;
                    let key = current_style_key(&stack, theme_keys);
                    let piece: String = if show_all {
                        show_unprintable(line.as_str(), char_style)
                    } else {
                        line.clone()
                    };
                    let ghost acc0 = pieces_view(line_content@);
                    let ghost kv0 = match &key {
                        Some(k) => Some(k@),
                        None => None,
                    };
                    line_content.push((piece, key));
                    proof {
                        let kv = kv0;
                        assert(kv == style_key_spec(stack@, keys));
                        let piece_text = if show_all {
                            unp_seq(lrem[0], uni)
                        } else {
                            lrem[0]
                        };
                        assert(pieces_view(line_content@) =~= acc0.push((piece_text, kv)));
                    }
                    let newline_after = j + 1 < lines.len() || endnl;
                    if newline_after {
                        let change: Option<LineChange> = if line_index < git_changes.len() {
                            git_changes[line_index]
                        } else {
                            None
                        };
                        proof {
                            assert(change == change_at(changes, line_index as int));
                        }
                        let rendered = render_decorated_line(
                            &line_content,
                            line_no,
                            &effective,
                            change,
                            theme,
                            width,
                        );
                        out.push(rendered.as_str());
                        if show_all && lhc {
                            out.push(lf.as_str());
                        }
                        let nl = term_newline();
                        out.push(nl.as_str());
                        if !flushed_visible {
                            out.flush();
                            flushed_visible = true;
                        } else {
                            out.flush_if_at_least(STREAM_FLUSH_LIMIT);
                        }
                        line_content = Vec::new();
                        lhc = false;
                        if line_no < usize::MAX {
                            line_no = line_no + 1;
                        }
                        if line_index < usize::MAX {
                            line_index = line_index + 1;
                        }
                    }
                    proof {
                        let sr = dec_source_render(
                            lrem,
                            endnl,
                            keys,
                            th,
                            effective,
                            show_all,
                            uni,
                            changes,
                            width as int,
                            stack@,
                            st0,
                        );
                        let stn = DecState {
                            line_no: line_no as int,
                            line_index: line_index as int,
                            lhc: lhc,
                            acc: pieces_view(line_content@),
                        };
                        let srn = dec_source_render(
                            lsv.skip(j as int + 1),
                            endnl,
                            keys,
                            th,
                            effective,
                            show_all,
                            uni,
                            changes,
                            width as int,
                            stack@,
                            stn,
                        );
                        if newline_after {
                            assert(pieces_view(line_content@)
                                =~= Seq::<(Seq<char>, Option<Seq<char>>)>::empty());
                            let acc1 = st0.acc.push(
                                (
                                    if show_all {
                                        unp_seq(lrem[0], uni)
                                    } else {
                                        lrem[0]
                                    },
                                    style_key_spec(stack@, keys),
                                ),
                            );
                            let rendered_s = decorated_line_spec(
                                acc1,
                                st0.line_no,
                                effective,
                                change_at(changes, st0.line_index),
                                th,
                                width as int,
                            );
                            let mk: Seq<char> = if show_all && lhc1 {
                                lf_marker(uni)
                            } else {
                                Seq::empty()
                            };
                            assert(sr.0 =~= rendered_s + mk + seq!['\n'] + srn.0);
                            assert(sr.1 == srn.1);
                            assert(total(*out) =~= total0 + rendered_s + mk + seq!['\n']);
                        } else {
                            assert(j + 1 == lines@.len());
                            assert(lsv.skip(j as int + 1) =~= Seq::<Seq<char>>::empty());
                            assert(sr.0 =~= Seq::<char>::empty());
                            assert(sr.1 == stn);
                            assert(srn.0 =~= Seq::<char>::empty());
                            assert(srn.1 == stn);
                            assert(total(*out) =~= total0);
                        }
                        assert(target =~= total(*out) + srn.0 + dec_render_from(
                            events@.skip(i as int + 1),
                            keys,
                            th,
                            effective,
                            show_all,
                            uni,
                            changes,
                            width as int,
                            stack@,
                            srn.1,
                        ));
                    }
                    j += 1;
                }
                proof {
                    assert(lsv.skip(lines@.len() as int) =~= Seq::<Seq<char>>::empty());
                }
            },
        }
        i += 1;
    }
    proof {
        assert(events@.skip(events@.len() as int) =~= Seq::<HlEvent>::empty());
    }
    let change: Option<LineChange> = if line_index < git_changes.len() {
        git_changes[line_index]
    } else {
        None
    };
    proof {
        assert(change == change_at(changes, line_index as int));
    }
    let rendered = render_decorated_line(&line_content, line_no, &effective, change, theme, width);
    out.push(rendered.as_str());
    if show_all && lhc {
        out.push(lf.as_str());
    }
    let tail = term_tail();
    out.push(tail.as_str());
    out.flush();
    proof {
        assert(total(*out) =~= target);
    }
}

} // verus!

verus! {

/// All source text of an event stream, in order.
pub open spec fn concat_sources(events: Seq<HlEvent>) -> Seq<char>
    decreases events.len(),
{
    if events.len() == 0 {
        Seq::empty()
    } else {
        (match events[0] {
            HlEvent::Source(s) => s@,
            _ => Seq::empty(),
        }) + concat_sources(events.drop_first())
    }
}

/// Whether `s` is free of carriage returns.
pub open spec fn no_cr(s: Seq<char>) -> bool {
    forall|i: int| 0 <= i < s.len() ==> s[i] != '\r'
}

/// Whether every source span of an event stream is free of carriage
/// returns.
pub open spec fn events_no_cr(events: Seq<HlEvent>) -> bool {
    forall|i: int|
        0 <= i < events.len() ==> ((#[trigger] events[i]) matches HlEvent::Source(s) ==> no_cr(s@))
}

/// An empty theme has no style for any key.
proof fn lemma_find_style_empty(key: Seq<char>)
    ensures
        find_style_spec(Seq::<(Seq<char>, crate::style::Style)>::empty(), key) is None,
    decreases key.len(),
{
    crate::style::lemma_rfind_dot_bounds(key);
    if crate::style::rfind_dot(key) >= 0 {
        lemma_find_style_empty(key.take(crate::style::rfind_dot(key)));
    }
}

/// Without styling and without unprintable glyphs, rendering one source
/// span emits exactly the span's text.
proof fn lemma_plain_source_text(
    s: Seq<char>,
    keys: Seq<Seq<char>>,
    uni: bool,
    stack: Seq<usize>,
    lhc: bool,
)
    requires
        no_cr(s),
    ensures
        plain_source_render(
            lines_spec(s),
            s.len() > 0 && s.last() == '\n',
            keys,
            Seq::empty(),
            false,
            uni,
            stack,
            lhc,
        ).0 == s,
    decreases s.len(),
{
    reveal(plain_source_render);
    reveal(plain_piece);
    let th = Seq::<(Seq<char>, crate::style::Style)>::empty();
    let ls = lines_spec(s);
    let endnl = s.len() > 0 && s.last() == '\n';
    match style_key_spec(stack, keys) {
        Some(k) => lemma_find_style_empty(k),
        None => {},
    }
    if s.len() == 0 {
        assert(ls =~= Seq::<Seq<char>>::empty());
        assert(plain_source_render(ls, endnl, keys, th, false, uni, stack, lhc).0 =~= s);
    } else {
        crate::strutil::lemma_find_char_bounds(s, '\n');
        let k = crate::strutil::find_char(s, '\n');
        if k == s.len() {
            assert(!endnl);
            assert(ls == seq![s]);
            assert(ls.len() == 1);
            assert(plain_source_render(ls, endnl, keys, th, false, uni, stack, lhc).0 == plain_piece(
                s,
                style_key_spec(stack, keys),
                th,
                false,
                uni,
            ));
            assert(plain_piece(s, style_key_spec(stack, keys), th, false, uni) == s);
        } else {
            let first = crate::strutil::strip_cr(s.take(k));
            assert(s.take(k).len() == k);
            assert(first =~= s.take(k)) by {
                if s.take(k).len() > 0 {
                    assert(s.take(k).last() == s[k - 1]);
                    assert(s[k - 1] != '\r');
                }
            }
            let rest = s.skip(k + 1);
            assert(ls == seq![first] + lines_spec(rest));
            assert(ls[0] == s.take(k));
            assert(ls.drop_first() =~= lines_spec(rest));
            assert(plain_piece(s.take(k), style_key_spec(stack, keys), th, false, uni) == s.take(
                k,
            ));
            if rest.len() == 0 {
                assert(k == s.len() - 1);
                assert(s[k] == '\n');
                assert(endnl);
                assert(lines_spec(rest) =~= Seq::<Seq<char>>::empty());
                assert(ls.len() == 1);
                assert(plain_source_render(ls.drop_first(), endnl, keys, th, false, uni, stack,
                    false).0 =~= Seq::<char>::empty());
                assert(plain_source_render(ls, endnl, keys, th, false, uni, stack, lhc).0 =~= s.take(
                    k,
                ) + seq!['\n']);
                assert(s.take(k) + seq!['\n'] =~= s);
            } else {
                assert(no_cr(rest)) by {
                    assert(forall|i: int| 0 <= i < rest.len() ==> rest[i] == s[k + 1 + i]);
                }
                assert(rest.last() == s.last());
                lemma_plain_source_text(rest, keys, uni, stack, false);
                assert(ls.len() > 1) by {
                    assert(lines_spec(rest).len() > 0);
                }
                assert(plain_source_render(ls, endnl, keys, th, false, uni, stack, lhc).0 =~= s.take(
                    k,
                ) + seq!['\n'] + plain_source_render(
                    ls.drop_first(),
                    endnl,
                    keys,
                    th,
                    false,
                    uni,
                    stack,
                    false,
                ).0);
                assert(endnl == (rest.len() > 0 && rest.last() == '\n'));
                assert(s.take(k) + seq!['\n'] + rest =~= s);
            }
        }
    }
}

/// Streaming neither drops nor duplicates content: when the theme styles
/// nothing and unprintable glyphs are off, the streaming path's output is
/// exactly the concatenated source text — the same characters the
/// non-streaming plain fallback prints. Styling only ever wraps pieces in
/// ANSI control sequences around this same content.
pub proof fn lemma_streaming_preserves_plain_content(
    events: Seq<HlEvent>,
    keys: Seq<Seq<char>>,
    uni: bool,
    stack: Seq<usize>,
    lhc: bool,
)
    requires
        events_no_cr(events),
    ensures
        plain_render_from(
            events,
            keys,
            Seq::<(Seq<char>, crate::style::Style)>::empty(),
            false,
            uni,
            stack,
            lhc,
        ) == concat_sources(events),
    decreases events.len(),
{
    let th = Seq::<(Seq<char>, crate::style::Style)>::empty();
    if events.len() == 0 {
    } else {
        let rest = events.drop_first();
        assert(events_no_cr(rest)) by {
            assert(forall|i: int| 0 <= i < rest.len() ==> rest[i] == events[i + 1]);
        }
        match events[0] {
            HlEvent::ScopeStart(id) => {
                lemma_streaming_preserves_plain_content(rest, keys, uni, stack.push(id), lhc);
                assert(Seq::<char>::empty() + concat_sources(rest) =~= concat_sources(rest));
            },
            HlEvent::ScopeEnd => {
                lemma_streaming_preserves_plain_content(rest, keys, uni, pop_stack(stack), lhc);
                assert(Seq::<char>::empty() + concat_sources(rest) =~= concat_sources(rest));
            },
            HlEvent::Source(s) => {
                assert(no_cr(s@));
                lemma_plain_source_text(s@, keys, uni, stack, lhc);
                let sr = plain_source_render(
                    lines_spec(s@),
                    s@.len() > 0 && s@.last() == '\n',
                    keys,
                    th,
                    false,
                    uni,
                    stack,
                    lhc,
                );
                lemma_streaming_preserves_plain_content(rest, keys, uni, stack, sr.1);
                assert(sr.0 + plain_render_from(rest, keys, th, false, uni, stack, sr.1) =~= s@
                    + concat_sources(rest));
            },
        }
    }
}

/// The public form of the content-preservation law: over a whole stream,
/// the plain streaming compositor's output is exactly the source text.
pub proof fn lemma_plain_render_is_source_text(events: Seq<HlEvent>, keys: Seq<Seq<char>>, uni: bool)
    requires
        events_no_cr(events),
    ensures
        plain_render(
            events,
            keys,
            Seq::<(Seq<char>, crate::style::Style)>::empty(),
            false,
            uni,
        ) == concat_sources(events),
{
    lemma_streaming_preserves_plain_content(events, keys, uni, Seq::empty(), false);
}

} // verus!
