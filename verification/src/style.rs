//! The library's view of visual styles and resolved themes: plain data that
//! mirrors what the terminal renderer needs, with a verified hierarchical
//! key lookup (`keyword.operator` falls back to `keyword`, and finally to
//! the theme's `_normal` foreground).

use vstd::prelude::*;

use crate::strutil::{chars_to_string, str_to_chars, streq};

verus! {

/// A non-transparent RGB color.
#[derive(Debug, Clone, Copy, PartialEq, Eq, Structural)]
pub struct Color {
    pub red: u8,
    pub green: u8,
    pub blue: u8,
}

/// How to style a region of text.
#[derive(Debug, Clone, Copy, PartialEq, Eq)]
pub struct Style {
    pub fg: Color,
    pub bg: Option<Color>,
    pub underline: bool,
    pub strikethrough: bool,
    pub italic: bool,
    pub bold: bool,
}

impl Style {
    /// A style that only sets the foreground color.
    pub fn color_only(red: u8, green: u8, blue: u8) -> (s: Style)
        ensures
            s == spec_color_only(red, green, blue),
    {
        Style {
            fg: Color { red, green, blue },
            bg: None,
            underline: false,
            strikethrough: false,
            italic: false,
            bold: false,
        }
    }
}

/// A style with only a foreground color.
pub open spec fn spec_color_only(red: u8, green: u8, blue: u8) -> Style {
    Style {
        fg: Color { red, green, blue },
        bg: None,
        underline: false,
        strikethrough: false,
        italic: false,
        bold: false,
    }
}

/// A resolved theme: an association list from style keys to styles, first
/// match winning (converted from the highlighting engine's resolved theme,
/// whose keys are unique).
pub struct Theme {
    pub entries: Vec<(String, Style)>,
}

impl View for Theme {
    type V = Seq<(Seq<char>, Style)>;

    open spec fn view(&self) -> Seq<(Seq<char>, Style)> {
        Seq::new(self.entries@.len(), |i: int| (self.entries@[i].0@, self.entries@[i].1))
    }
}

/// The style an exact key lookup finds: the first entry with that key.
pub open spec fn theme_get(t: Seq<(Seq<char>, Style)>, key: Seq<char>) -> Option<Style>
    decreases t.len(),
{
    if t.len() == 0 {
        None
    } else if t[0].0 == key {
        Some(t[0].1)
    } else {
        theme_get(t.drop_first(), key)
    }
}

/// The last position of `.` in `s`, or -1 if there is none.
pub open spec fn rfind_dot(s: Seq<char>) -> int
    decreases s.len(),
{
    if s.len() == 0 {
        -1
    } else if s.last() == '.' {
        s.len() - 1
    } else {
        rfind_dot(s.drop_last())
    }
}

pub proof fn lemma_rfind_dot_bounds(s: Seq<char>)
    ensures
        -1 <= rfind_dot(s) < s.len(),
        rfind_dot(s) >= 0 ==> s[rfind_dot(s)] == '.',
        forall|j: int| rfind_dot(s) < j < s.len() ==> s[j] != '.',
    decreases s.len(),
{
    if s.len() > 0 && s.last() != '.' {
        lemma_rfind_dot_bounds(s.drop_last());
        assert forall|j: int| rfind_dot(s) < j < s.len() implies s[j] != '.' by {
            if j < s.len() - 1 {
                assert(s.drop_last()[j] != '.');
            }
        }
    }
}

proof fn lemma_rfind_dot_scan(s: Seq<char>, k: int)
    requires
        -1 <= k < s.len(),
        k >= 0 ==> s[k] == '.',
        forall|j: int| k < j < s.len() ==> s[j] != '.',
    ensures
        rfind_dot(s) == k,
    decreases s.len(),
{
    if s.len() > 0 {
        if s.last() == '.' {
            assert(k == s.len() - 1);
        } else {
            assert(k < s.len() - 1);
            assert forall|j: int| k < j < s.drop_last().len() implies s.drop_last()[j] != '.' by {
                assert(s.drop_last()[j] == s[j]);
            }
            lemma_rfind_dot_scan(s.drop_last(), k);
        }
    }
}

/// The theme key of the default foreground.
pub open spec fn normal_key() -> Seq<char> {
    seq!['_', 'n', 'o', 'r', 'm', 'a', 'l']
}

/// The best style a theme offers for a key: the exact entry; else the entry
/// for the key with its last dot-separated part stripped, repeatedly; else a
/// color-only style from the `_normal` foreground; else nothing.
pub open spec fn find_style_spec(t: Seq<(Seq<char>, Style)>, key: Seq<char>) -> Option<Style>
    decreases key.len(),
    via find_style_spec_decreases
{
    match theme_get(t, key) {
        Some(s) => Some(s),
        None => {
            if rfind_dot(key) >= 0 {
                find_style_spec(t, key.take(rfind_dot(key)))
            } else {
                match theme_get(t, normal_key()) {
                    Some(s) => Some(spec_color_only(s.fg.red, s.fg.green, s.fg.blue)),
                    None => None,
                }
            }
        },
    }
}

#[via_fn]
proof fn find_style_spec_decreases(t: Seq<(Seq<char>, Style)>, key: Seq<char>) {
    lemma_rfind_dot_bounds(key);
}

impl Theme {
    /// A theme with no entries.
    pub fn new_empty() -> (t: Theme)
        ensures
            t@ =~= Seq::<(Seq<char>, Style)>::empty(),
    {
        Theme { entries: Vec::new() }
    }

    /// Add an entry at the end (a later entry never shadows an earlier one).
    pub fn push_entry(&mut self, key: String, style: Style)
        ensures
            final(self)@ =~= old(self)@.push((key@, style)),
    {
        self.entries.push((key, style));
    }

    /// Look up the style for exactly `key`.
    pub fn get(&self, key: &str) -> (r: Option<Style>)
        ensures
            r == theme_get(self@, key@),
    {
        let ghost t = self@;
        let mut i: usize = 0;
        proof {
            assert(t.skip(0) =~= t);
        }
        while i < self.entries.len()
            invariant
                i <= self.entries@.len(),
                t == self@,
                theme_get(t, key@) == theme_get(t.skip(i as int), key@),
            decreases self.entries@.len() - i,
        {
            let pair: &(String, Style) = &self.entries[i];
            proof {
                assert(t.skip(i as int)[0] == t[i as int]);
                assert(t[i as int] == (self.entries@[i as int].0@, self.entries@[i as int].1));
                assert(t.skip(i as int).drop_first() =~= t.skip(i as int + 1));
            }
            if streq(pair.0.as_str(), key) {
                return Some(pair.1);
            }
            i += 1;
        }
        proof {
            assert(t.skip(i as int) =~= Seq::<(Seq<char>, Style)>::empty());
        }
        None
    }

    /// The theme's default foreground color, from its `_normal` entry.
    pub fn fg(&self) -> (r: Option<Color>)
        ensures
            r == match theme_get(self@, normal_key()) {
                Some(s) => Some(s.fg),
                None => None,
            },
    {
        let mut k = String::new();
        crate::strutil::push_char(&mut k, '_');
        crate::strutil::push_char(&mut k, 'n');
        crate::strutil::push_char(&mut k, 'o');
        crate::strutil::push_char(&mut k, 'r');
        crate::strutil::push_char(&mut k, 'm');
        crate::strutil::push_char(&mut k, 'a');
        crate::strutil::push_char(&mut k, 'l');
        assert(k@ =~= normal_key());
        match self.get(k.as_str()) {
            Some(s) => Some(s.fg),
            None => None,
        }
    }

    /// Find the best style for `key`, stripping dot-separated parts from the
    /// right until the theme has an entry, with the `_normal` foreground as
    /// the final fallback.
    pub fn find_style(&self, key: &str) -> (r: Option<Style>)
        ensures
            r == find_style_spec(self@, key@),
    {
        let cs = str_to_chars(key);
        let mut hi: usize = cs.len();
        let mut cur = String::from_str(key);
        proof {
            assert(cs@.take(hi as int) =~= key@);
        }
        loop
            invariant
                hi <= cs@.len(),
                cs@ == key@,
                cur@ == cs@.take(hi as int),
                find_style_spec(self@, key@) == find_style_spec(self@, cur@),
            decreases hi,
        {
            match self.get(cur.as_str()) {
                Some(s) => {
                    return Some(s);
                },
                None => {},
            }
            // find the last '.' within cs[0..hi)
            let mut j: usize = hi;
            loop
                invariant
                    j <= hi <= cs@.len(),
                    cs@ == key@,
                    forall|q: int| j <= q < hi ==> cs@[q] != '.',
                ensures
                    j <= hi <= cs@.len(),
                    forall|q: int| j <= q < hi ==> cs@[q] != '.',
                    j == 0 || cs@[j - 1] == '.',
                decreases j,
            {
                if j == 0 {
                    break ;
                }
                let c: char = cs[j - 1];
                if c == '.' {
                    break ;
                }
                j -= 1;
            }
            proof {
                let curv = cs@.take(hi as int);
                assert(forall|q: int| j <= q < hi ==> curv[q] == cs@[q]);
                if j > 0 {
                    assert(cs@[j - 1] == '.');
                    assert(curv[j - 1] == '.');
                    lemma_rfind_dot_scan(curv, j - 1);
                } else {
                    lemma_rfind_dot_scan(curv, -1);
                }
            }
            if j == 0 {
                // no dot left: fall back to the default foreground
                match self.fg() {
                    Some(c) => {
                        return Some(Style::color_only(c.red, c.green, c.blue));
                    },
                    None => {
                        return None;
                    },
                }
            }
            proof {
                assert(cs@.take(hi as int).take(j - 1) =~= cs@.take(j - 1));
            }
            hi = j - 1;
            cur = chars_to_string(&cs, 0, hi);
            proof {
                assert(cur@ =~= cs@.take(hi as int));
            }
        }
    }
}

} // verus!
