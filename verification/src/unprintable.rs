//! Unprintable character display: maps control and invisible characters to
//! visible glyphs (Unicode symbols or caret notation) while leaving everything
//! else untouched.

use vstd::prelude::*;

use crate::strutil::{char_from_u32, push_char, str_to_chars};

verus! {

/// Character display style for unprintable characters.
#[derive(Debug, Clone, Copy, PartialEq, Eq, Structural)]
pub enum CharStyle {
    /// Unicode symbols (`→`, `↵`, `·`, `␊`, ...).
    Unicode,
    /// Caret notation (`^I`, `^M`, ...).
    Caret,
}

/// Whether a style selects the Unicode glyph set.
pub open spec fn is_unicode(style: CharStyle) -> bool {
    style is Unicode
}

/// The visible replacement for one character: spaces become middle dots,
/// control characters become control-picture glyphs (`0x2400 + code`) or
/// caret pairs (`^` plus `code + 0x40`), zero-width characters become
/// bracketed tags, and everything else passes through. A newline keeps its
/// real `\n` after the glyph.
pub open spec fn unp_char(c: char, uni: bool) -> Seq<char> {
    if c == ' ' {
        seq!['\u{b7}']
    } else if c == '\t' {
        if uni {
            seq!['\u{2192}']
        } else {
            seq!['^', 'I']
        }
    } else if c == '\n' {
        if uni {
            seq!['\u{240a}', '\n']
        } else {
            seq!['$', '\n']
        }
    } else if c == '\r' {
        if uni {
            seq!['\u{21b5}']
        } else {
            seq!['^', 'M']
        }
    } else if c == '\u{1b}' {
        if uni {
            seq!['\u{241b}']
        } else {
            seq!['^', '[']
        }
    } else if c == '\0' {
        if uni {
            seq!['\u{2400}']
        } else {
            seq!['^', '@']
        }
    } else if '\u{1}' <= c && c <= '\u{1f}' {
        if uni {
            seq![((c as int + 0x2400) as char)]
        } else {
            seq!['^', ((c as int + 0x40) as char)]
        }
    } else if c == '\u{7f}' {
        if uni {
            seq!['\u{2421}']
        } else {
            seq!['^', '?']
        }
    } else if c == '\u{200b}' {
        seq!['[', 'Z', 'W', 'S', 'P', ']']
    } else if c == '\u{200c}' {
        seq!['[', 'Z', 'W', 'N', 'J', ']']
    } else if c == '\u{200d}' {
        seq!['[', 'Z', 'W', 'J', ']']
    } else if c == '\u{feff}' {
        seq!['[', 'B', 'O', 'M', ']']
    } else {
        seq![c]
    }
}

/// The visible form of a whole string: each character replaced by
/// `unp_char`, in order.
pub open spec fn unp_seq(s: Seq<char>, uni: bool) -> Seq<char>
    decreases s.len(),
{
    if s.len() == 0 {
        Seq::empty()
    } else {
        unp_seq(s.drop_last(), uni) + unp_char(s.last(), uni)
    }
}

/// Append the visible replacement of one character to `r`.
fn append_unp_char(r: &mut String, c: char, uni: bool)
    ensures
        final(r)@ == old(r)@ + unp_char(c, uni),
{
    if c == ' ' {
        push_char(r, '\u{b7}');
    } else if c == '\t' {
        if uni {
            push_char(r, '\u{2192}');
        } else {
            push_char(r, '^');
            push_char(r, 'I');
        }
    } else if c == '\n' {
        if uni {
            push_char(r, '\u{240a}');
        } else {
            push_char(r, '$');
        }
        push_char(r, '\n');
    } else if c == '\r' {
        if uni {
            push_char(r, '\u{21b5}');
        } else {
            push_char(r, '^');
            push_char(r, 'M');
        }
    } else if c == '\u{1b}' {
        if uni {
            push_char(r, '\u{241b}');
        } else {
            push_char(r, '^');
            push_char(r, '[');
        }
    } else if c == '\0' {
        if uni {
            push_char(r, '\u{2400}');
        } else {
            push_char(r, '^');
            push_char(r, '@');
        }
    } else if c >= '\u{1}' && c <= '\u{1f}' {
        let u: u32 = c as u32;
        if uni {
            match char_from_u32(u + 0x2400) {
                Some(ch) => {
                    assert(ch == (c as int + 0x2400) as char);
                    push_char(r, ch);
                },
                None => {
                    assert(false);
                },
            }
        } else {
            push_char(r, '^');
            match char_from_u32(u + 0x40) {
                Some(ch) => {
                    assert(ch == (c as int + 0x40) as char);
                    push_char(r, ch);
                },
                None => {
                    assert(false);
                },
            }
        }
    } else if c == '\u{7f}' {
        if uni {
            push_char(r, '\u{2421}');
        } else {
            push_char(r, '^');
            push_char(r, '?');
        }
    } else if c == '\u{200b}' {
        push_char(r, '[');
        push_char(r, 'Z');
        push_char(r, 'W');
        push_char(r, 'S');
        push_char(r, 'P');
        push_char(r, ']');
    } else if c == '\u{200c}' {
        push_char(r, '[');
        push_char(r, 'Z');
        push_char(r, 'W');
        push_char(r, 'N');
        push_char(r, 'J');
        push_char(r, ']');
    } else if c == '\u{200d}' {
        push_char(r, '[');
        push_char(r, 'Z');
        push_char(r, 'W');
        push_char(r, 'J');
        push_char(r, ']');
    } else if c == '\u{feff}' {
        push_char(r, '[');
        push_char(r, 'B');
        push_char(r, 'O');
        push_char(r, 'M');
        push_char(r, ']');
    } else {
        push_char(r, c);
    }
    assert(final(r)@ =~= old(r)@ + unp_char(c, uni));
}

/// Transform unprintable characters to their visual representations,
/// character by character, never failing.
pub fn show_unprintable(text: &str, style: CharStyle) -> (r: String)
    ensures
        r@ == unp_seq(text@, is_unicode(style)),
{
    let uni: bool = match style {
        CharStyle::Unicode => true,
        CharStyle::Caret => false,
    };
    let cs = str_to_chars(text);
    let mut r = String::new();
    let mut i: usize = 0;
    while i < cs.len()
        invariant
            i <= cs@.len(),
            cs@ == text@,
            uni == is_unicode(style),
            r@ == unp_seq(cs@.subrange(0, i as int), uni),
        decreases cs@.len() - i,
    {
        let c: char = cs[i];
        append_unp_char(&mut r, c, uni);
        proof {
            assert(cs@.subrange(0, i as int + 1).drop_last() =~= cs@.subrange(0, i as int));
            assert(cs@.subrange(0, i as int + 1).last() == cs@[i as int]);
        }
        i += 1;
    }
    assert(cs@.subrange(0, cs@.len() as int) =~= text@);
    r
}

/// Whether positions `i..i+3` of `s` spell `utf` in any letter case.
pub open spec fn utf_at(s: Seq<char>, i: int) -> bool {
    (s[i] == 'u' || s[i] == 'U') && (s[i + 1] == 't' || s[i + 1] == 'T') && (s[i + 2] == 'f' || s[i
        + 2] == 'F')
}

/// Whether `s` contains `utf` in any letter case.
pub open spec fn has_utf(s: Seq<char>) -> bool {
    exists|i: int| 0 <= i && i + 3 <= s.len() && #[trigger] utf_at(s, i)
}

/// Whether a locale value announces UTF-8 support: it contains `utf` in any
/// letter case. An absent locale counts as UTF-8 (the modern default).
pub open spec fn locale_is_utf8(locale: Option<Seq<char>>) -> bool {
    match locale {
        None => true,
        Some(s) => has_utf(s),
    }
}

/// The character style a locale value calls for: `Unicode` when the locale
/// (for example `LANG` or `LC_CTYPE`) mentions UTF, `Caret` otherwise.
pub fn get_char_style(locale: Option<&str>) -> (r: CharStyle)
    ensures
        is_unicode(r) == locale_is_utf8(match locale {
            Some(s) => Some(s@),
            None => None,
        }),
{
    let s: &str = match locale {
        None => {
            return CharStyle::Unicode;
        },
        Some(s) => s,
    };
    let cs = str_to_chars(s);
    let n = cs.len();
    if n < 3 {
        return CharStyle::Caret;
    }
    let mut i: usize = 0;
    while i <= n - 3
        invariant
            locale matches Some(sl) && sl@ == cs@,
            cs@ == s@,
            n == cs@.len(),
            3 <= n,
            i <= n - 2,
            forall|j: int| 0 <= j < i ==> !(#[trigger] utf_at(cs@, j)),
        decreases cs@.len() - i,
    {
        let c0: char = cs[i];
        let c1: char = cs[i + 1];
        let c2: char = cs[i + 2];
        if (c0 == 'u' || c0 == 'U') && (c1 == 't' || c1 == 'T') && (c2 == 'f' || c2 == 'F') {
            proof {
                assert(utf_at(s@, i as int));
                assert(has_utf(s@));
            }
            return CharStyle::Unicode;
        }
        i += 1;
    }
    CharStyle::Caret
}

} // verus!
