//! Decoration rendering: line numbers, change markers and grid separators
//! composed into one styled output line.

use vstd::prelude::*;

verus! {

/// Configuration for which decorations to show.
#[derive(Debug, Clone, Copy, PartialEq, Eq, Structural)]
pub struct DecorationConfig {
    /// Show line numbers.
    pub show_numbers: bool,
    /// Show per-line change indicators.
    pub show_changes: bool,
    /// Show file headers between files.
    pub show_headers: bool,
}

impl DecorationConfig {
    /// The empty configuration: nothing shown.
    pub fn new_disabled() -> (c: DecorationConfig)
        ensures
            !c.show_numbers && !c.show_changes && !c.show_headers,
    {
        DecorationConfig { show_numbers: false, show_changes: false, show_headers: false }
    }

    /// Whether any per-line decoration is enabled (headers stand between
    /// files, not on lines, so they do not count).
    pub fn has_decorations(&self) -> (r: bool)
        ensures
            r == spec_has_decorations(*self),
    {
        self.show_numbers || self.show_changes
    }
}

/// Whether any per-line decoration is enabled.
pub open spec fn spec_has_decorations(c: DecorationConfig) -> bool {
    c.show_numbers || c.show_changes
}

} // verus!

verus! {

use crate::git::LineChange;
use crate::render::{ansi_styled, term_escape, term_styled, term_unstyled};
use crate::style::{find_style_spec, spec_color_only, Style, Theme};
use crate::strutil::{dec_seq, pad_left, pad_left_string, push_char, usize_to_string};

/// The dim style used for line numbers and separators: the first style the
/// theme offers among `comment`, `punctuation` and `ui.text`, else a fixed
/// neutral gray.
pub open spec fn dim_style_spec(t: Seq<(Seq<char>, Style)>) -> Style {
    match find_style_spec(t, "comment"@) {
        Some(s) => s,
        None => match find_style_spec(t, "punctuation"@) {
            Some(s) => s,
            None => match find_style_spec(t, "ui.text"@) {
                Some(s) => s,
                None => spec_color_only(100, 100, 100),
            },
        },
    }
}

/// Get a dim style from the theme for line numbers and decorations, with a
/// neutral-gray fallback: the composer never fails for missing theme
/// entries.
pub fn get_dim_style_or_create(theme: &Theme) -> (s: Style)
    ensures
        s == dim_style_spec(theme@),
{
    match theme.find_style("comment") {
        Some(s) => s,
        None => match theme.find_style("punctuation") {
            Some(s) => s,
            None => match theme.find_style("ui.text") {
                Some(s) => s,
                None => Style::color_only(100, 100, 100),
            },
        },
    }
}

/// The fixed colors of the change markers: red for removals, yellow for
/// modifications, green for additions.
pub open spec fn git_change_style_spec(lc: LineChange) -> Style {
    match lc {
        LineChange::Removed => spec_color_only(255, 100, 100),
        LineChange::Modified => spec_color_only(255, 200, 100),
        LineChange::Added => spec_color_only(150, 255, 150),
    }
}

/// Get the change-marker style for a kind of change.
pub fn get_git_change_style(line_change: LineChange) -> (s: Style)
    ensures
        s == git_change_style_spec(line_change),
{
    match line_change {
        LineChange::Removed => Style::color_only(255, 100, 100),
        LineChange::Modified => Style::color_only(255, 200, 100),
        LineChange::Added => Style::color_only(150, 255, 150),
    }
}

/// The one-character change marker: `+` added, `~` modified, `-` removed,
/// blank for an unchanged line.
pub open spec fn marker_char(change: Option<LineChange>) -> char {
    match change {
        Some(LineChange::Added) => '+',
        Some(LineChange::Modified) => '~',
        Some(LineChange::Removed) => '-',
        None => ' ',
    }
}

/// The marker's style: the change color, or the dim style for no change.
pub open spec fn marker_style(change: Option<LineChange>, dim: Style) -> Style {
    match change {
        Some(lc) => git_change_style_spec(lc),
        None => dim,
    }
}

/// The views of a line's content pieces.
pub open spec fn pieces_view(v: Seq<(String, Option<String>)>) -> Seq<
    (Seq<char>, Option<Seq<char>>),
> {
    Seq::new(
        v.len(),
        |i: int|
            (
                v[i].0@,
                match v[i].1 {
                    Some(s) => Some(s@),
                    None => None,
                },
            ),
    )
}

/// One content piece as rendered: styled by the theme's best match for its
/// key, or left as it is when there is no key or no style.
pub open spec fn rendered_piece(
    text: Seq<char>,
    key: Option<Seq<char>>,
    theme: Seq<(Seq<char>, Style)>,
) -> Seq<char> {
    match key {
        Some(k) => match find_style_spec(theme, k) {
            Some(st) => ansi_styled(text, st),
            None => text,
        },
        None => text,
    }
}

/// A whole line's content pieces as rendered, in order.
pub open spec fn content_render(
    content: Seq<(Seq<char>, Option<Seq<char>>)>,
    theme: Seq<(Seq<char>, Style)>,
) -> Seq<char>
    decreases content.len(),
{
    if content.len() == 0 {
        Seq::empty()
    } else {
        content_render(content.drop_last(), theme) + rendered_piece(
            content.last().0,
            content.last().1,
            theme,
        )
    }
}

/// The decoration columns before a line's content: the right-aligned line
/// number (iff numbers are shown), a space and the change marker (iff
/// changes are shown), a separator space (iff either is shown), and the grid
/// glyph (iff either is shown). The prefix does not depend on the content.
pub open spec fn decorated_prefix(
    line_no: int,
    cfg: DecorationConfig,
    change: Option<LineChange>,
    theme: Seq<(Seq<char>, Style)>,
    width: int,
) -> Seq<char> {
    let dim = dim_style_spec(theme);
    (if cfg.show_numbers {
        ansi_styled(pad_left(dec_seq(line_no as nat), width as nat), dim)
    } else {
        Seq::empty()
    }) + (if cfg.show_changes {
        ansi_styled(seq![' '], dim) + ansi_styled(
            seq![marker_char(change)],
            marker_style(change, dim),
        )
    } else {
        Seq::empty()
    }) + (if cfg.show_numbers || cfg.show_changes {
        ansi_styled(seq![' '], dim)
    } else {
        Seq::empty()
    }) + (if cfg.show_numbers || cfg.show_changes {
        ansi_styled(seq!['\u{2502}', ' '], dim)
    } else {
        Seq::empty()
    })
}

/// A whole decorated line: the decoration prefix, then the rendered content.
pub open spec fn decorated_line_spec(
    content: Seq<(Seq<char>, Option<Seq<char>>)>,
    line_no: int,
    cfg: DecorationConfig,
    change: Option<LineChange>,
    theme: Seq<(Seq<char>, Style)>,
    width: int,
) -> Seq<char> {
    decorated_prefix(line_no, cfg, change, theme, width) + content_render(content, theme)
}

/// Render a single line with all decorations:
/// `{line number}{space}{marker}{space}{grid}{content}`, each part present
/// only when its decoration is enabled.
pub fn render_decorated_line(
    content: &Vec<(String, Option<String>)>,
    line_no: usize,
    config: &DecorationConfig,
    line_change: Option<LineChange>,
    theme: &Theme,
    line_number_width: usize,
) -> (out: String)
    ensures
        out@ == decorated_line_spec(
            pieces_view(content@),
            line_no as int,
            *config,
            line_change,
            theme@,
            line_number_width as int,
        ),
{
    let mut out = String::new();
    let dim = get_dim_style_or_create(theme);
    if config.show_numbers {
        let numstr = usize_to_string(line_no);
        let prefix = pad_left_string(&numstr, line_number_width);
        let escaped = term_escape(prefix.as_str());
        let styled = term_styled(escaped.as_str(), &dim);
        out.append(styled.as_str());
    }
    if config.show_changes {
        let mut sp = String::new();
        push_char(&mut sp, ' ');
        assert(sp@ =~= seq![' ']);
        let escaped_sp = term_escape(sp.as_str());
        let styled_sp = term_styled(escaped_sp.as_str(), &dim);
        out.append(styled_sp.as_str());
        let mstyle = match line_change {
            Some(lc) => get_git_change_style(lc),
            None => dim,
        };
        let mut ms = String::new();
        push_char(
            &mut ms,
            match line_change {
                Some(LineChange::Added) => '+',
                Some(LineChange::Modified) => '~',
                Some(LineChange::Removed) => '-',
                None => ' ',
            },
        );
        assert(ms@ =~= seq![marker_char(line_change)]);
        let escaped_m = term_escape(ms.as_str());
        let styled_m = term_styled(escaped_m.as_str(), &mstyle);
        out.append(styled_m.as_str());
    }
    if config.show_numbers || config.show_changes {
        let mut sp = String::new();
        push_char(&mut sp, ' ');
        assert(sp@ =~= seq![' ']);
        let escaped_sp = term_escape(sp.as_str());
        let styled_sp = term_styled(escaped_sp.as_str(), &dim);
        out.append(styled_sp.as_str());
    }
    if config.has_decorations() {
        let mut grid = String::new();
        push_char(&mut grid, '\u{2502}');
        push_char(&mut grid, ' ');
        assert(grid@ =~= seq!['\u{2502}', ' ']);
        let escaped_g = term_escape(grid.as_str());
        let styled_g = term_styled(escaped_g.as_str(), &dim);
        out.append(styled_g.as_str());
    }
    let ghost prefix = decorated_prefix(
        line_no as int,
        *config,
        line_change,
        theme@,
        line_number_width as int,
    );
    assert(out@ =~= prefix);
    let ghost pieces = pieces_view(content@);
    let mut i: usize = 0;
    proof {
        assert(pieces.take(0) =~= Seq::<(Seq<char>, Option<Seq<char>>)>::empty());
        assert(out@ =~= prefix + content_render(pieces.take(0), theme@));
    }
    while i < content.len()
        invariant
            i <= content@.len(),
            pieces == pieces_view(content@),
            prefix == decorated_prefix(
                line_no as int,
                *config,
                line_change,
                theme@,
                line_number_width as int,
            ),
            out@ =~= prefix + content_render(pieces.take(i as int), theme@),
        decreases content@.len() - i,
    {
        let pair: &(String, Option<String>) = &content[i];
        let escaped = term_escape(pair.0.as_str());
        let rendered: String = match &pair.1 {
            Some(k) => {
                match theme.find_style(k.as_str()) {
                    Some(st) => term_styled(escaped.as_str(), &st),
                    None => term_unstyled(escaped.as_str()),
                }
            },
            None => term_unstyled(escaped.as_str()),
        };
        out.append(rendered.as_str());
        proof {
            assert(pieces[i as int] == (
                content@[i as int].0@,
                match content@[i as int].1 {
                    Some(s) => Some(s@),
                    None => None,
                },
            ));
            assert(pieces.take(i as int + 1).drop_last() =~= pieces.take(i as int));
            assert(pieces.take(i as int + 1).last() == pieces[i as int]);
            assert(rendered@ == rendered_piece(pieces[i as int].0, pieces[i as int].1, theme@));
        }
        i += 1;
    }
    proof {
        assert(pieces.take(content@.len() as int) =~= pieces);
    }
    out
}

/// Two lines that differ only in content share the whole decoration prefix:
/// with numbers shown, every line's number column is the same right-aligned
/// `width` characters, whatever the content holds.
pub proof fn lemma_decoration_prefix_independent_of_content(
    c1: Seq<(Seq<char>, Option<Seq<char>>)>,
    c2: Seq<(Seq<char>, Option<Seq<char>>)>,
    line_no: int,
    cfg: DecorationConfig,
    change: Option<LineChange>,
    theme: Seq<(Seq<char>, Style)>,
    width: int,
)
    ensures
        decorated_line_spec(c1, line_no, cfg, change, theme, width).take(
            decorated_prefix(line_no, cfg, change, theme, width).len() as int,
        ) == decorated_line_spec(c2, line_no, cfg, change, theme, width).take(
            decorated_prefix(line_no, cfg, change, theme, width).len() as int,
        ),
{
    let p = decorated_prefix(line_no, cfg, change, theme, width);
    assert(decorated_line_spec(c1, line_no, cfg, change, theme, width).take(p.len() as int) =~= p);
    assert(decorated_line_spec(c2, line_no, cfg, change, theme, width).take(p.len() as int) =~= p);
}

/// With numbers shown, a decorated line starts with the line number
/// right-aligned to exactly `width` characters (inside one dim-styled ANSI
/// region), no matter what the content is.
pub proof fn lemma_number_column_right_aligned(
    content: Seq<(Seq<char>, Option<Seq<char>>)>,
    line_no: int,
    cfg: DecorationConfig,
    change: Option<LineChange>,
    theme: Seq<(Seq<char>, Style)>,
    width: int,
)
    requires
        cfg.show_numbers,
        dec_seq(line_no as nat).len() <= width,
    ensures
        decorated_line_spec(content, line_no, cfg, change, theme, width).take(
            ansi_styled(pad_left(dec_seq(line_no as nat), width as nat), dim_style_spec(theme)).len()
                as int,
        ) == ansi_styled(pad_left(dec_seq(line_no as nat), width as nat), dim_style_spec(theme)),
        pad_left(dec_seq(line_no as nat), width as nat).len() == width,
{
    let num = ansi_styled(pad_left(dec_seq(line_no as nat), width as nat), dim_style_spec(theme));
    assert(decorated_line_spec(content, line_no, cfg, change, theme, width).take(num.len() as int)
        =~= num);
}

} // verus!
