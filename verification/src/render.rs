//! Trusted wrappers around syntastica's ANSI terminal renderer. The library
//! always renders without a background color, in which case (per the
//! renderer's source) `head`, `tail` are empty, `newline` is `"\n"`,
//! `escape` and `unstyled` return the text unchanged, and `styled` wraps the
//! text in one ANSI sequence chosen by the style alone, ended by the reset
//! sequence.

use vstd::prelude::*;

use crate::style::Style;

verus! {

/// The parameter characters of the ANSI escape sequence syntastica's
/// terminal renderer picks for a style (the `38;2;r;g;b...` list between
/// `ESC [` and `m`). A pure function of the style.
pub uninterp spec fn styled_params_of(style: Style) -> Seq<char>;

/// The whole output of the terminal renderer for one styled text region:
/// the style's ANSI sequence, the text itself unchanged, and the reset
/// sequence.
pub open spec fn ansi_styled(text: Seq<char>, style: Style) -> Seq<char> {
    seq!['\u{1b}', '['] + styled_params_of(style) + seq!['m'] + text + seq![
        '\u{1b}',
        '[',
        '0',
        'm',
    ]
}

/// Relies on syntastica's `TerminalRenderer::styled` with no background
/// color: it returns `\x1b[{params}m{text}\x1b[0m`, where the parameter list
/// depends on the style alone.
#[verifier::external_body]
pub fn term_styled(text: &str, style: &Style) -> (r: String)
    ensures
        r@ == ansi_styled(text@, *style),
        r@ == seq!['\u{1b}', '['] + styled_params_of(*style) + seq!['m'] + text@ + seq![
            '\u{1b}',
            '[',
            '0',
            'm',
        ],
{
    let sty = syntastica::style::Style::new(
        syntastica::style::Color::new(style.fg.red, style.fg.green, style.fg.blue),
        match style.bg {
            Some(c) => Some(syntastica::style::Color::new(c.red, c.green, c.blue)),
            None => None,
        },
        style.underline,
        style.strikethrough,
        style.italic,
        style.bold,
    );
    let mut re = syntastica::renderer::TerminalRenderer::new(None);
    syntastica::renderer::Renderer::styled(&mut re, text, sty).into_owned()
}

/// Relies on syntastica's `Renderer::escape` for the terminal renderer: it
/// returns the text unchanged (terminals need no escaping).
#[verifier::external_body]
pub fn term_escape(text: &str) -> (r: String)
    ensures
        r@ == text@,
{
    let mut re = syntastica::renderer::TerminalRenderer::new(None);
    syntastica::renderer::Renderer::escape(&mut re, text).into_owned()
}

/// Relies on syntastica's `TerminalRenderer::unstyled` with no background
/// color: it returns the text unchanged.
#[verifier::external_body]
pub fn term_unstyled(text: &str) -> (r: String)
    ensures
        r@ == text@,
{
    let mut re = syntastica::renderer::TerminalRenderer::new(None);
    syntastica::renderer::Renderer::unstyled(&mut re, text).into_owned()
}

/// Relies on syntastica's `Renderer::head` for the terminal renderer: it
/// returns the empty string.
#[verifier::external_body]
pub fn term_head() -> (r: String)
    ensures
        r@ == Seq::<char>::empty(),
{
    let mut re = syntastica::renderer::TerminalRenderer::new(None);
    syntastica::renderer::Renderer::head(&mut re).into_owned()
}

/// Relies on syntastica's `Renderer::tail` for the terminal renderer: it
/// returns the empty string.
#[verifier::external_body]
pub fn term_tail() -> (r: String)
    ensures
        r@ == Seq::<char>::empty(),
{
    let mut re = syntastica::renderer::TerminalRenderer::new(None);
    syntastica::renderer::Renderer::tail(&mut re).into_owned()
}

/// Relies on syntastica's `Renderer::newline` for the terminal renderer: it
/// returns `"\n"`.
#[verifier::external_body]
pub fn term_newline() -> (r: String)
    ensures
        r@ == seq!['\n'],
{
    let mut re = syntastica::renderer::TerminalRenderer::new(None);
    syntastica::renderer::Renderer::newline(&mut re).into_owned()
}

} // verus!
