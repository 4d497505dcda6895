//! The per-file emission pipeline's verified parts: byte preprocessing
//! (slicing and blank compaction), the decision which rendering path a file
//! takes, and the whole-text fallback used when streaming is unavailable or
//! fails.

use vstd::prelude::*;

use crate::decorations::DecorationConfig;
use crate::slicing::{
    slice_bytes_by_line_range, slice_spec, squeeze_blank_lines_bytes, squeeze_spec, wf_line_range,
    LineRange,
};
use crate::stream::{number_plain_spec, number_plain_text};
use crate::unprintable::{is_unicode, show_unprintable, unp_seq, CharStyle};

verus! {

/// What preprocessing leaves of a file's bytes: sliced to the requested
/// line range, then blank-compacted, each step only when asked for.
pub open spec fn preprocess_spec(
    b: Seq<u8>,
    range: Option<LineRange>,
    squeeze: bool,
    limit: int,
) -> Seq<u8> {
    let sliced = match range {
        Some(r) => slice_spec(b, r),
        None => b,
    };
    if squeeze {
        squeeze_spec(sliced, limit)
    } else {
        sliced
    }
}

/// Slice the bytes to the requested line range and compact blank runs, each
/// only when asked for.
pub fn preprocess_bytes(
    bytes: &Vec<u8>,
    range: Option<LineRange>,
    squeeze: bool,
    limit: usize,
) -> (out: Vec<u8>)
    requires
        range matches Some(r) ==> wf_line_range(r),
    ensures
        out@ == preprocess_spec(bytes@, range, squeeze, limit as int),
{
    let sliced: Vec<u8> = match range {
        Some(r) => slice_bytes_by_line_range(bytes, r),
        None => {
            let mut c: Vec<u8> = Vec::new();
            crate::slicing::push_byte_range(&mut c, bytes, 0, bytes.len());
            proof {
                assert(c@ =~= bytes@);
            }
            c
        },
    };
    if squeeze {
        squeeze_blank_lines_bytes(&sliced, limit)
    } else {
        sliced
    }
}

/// Whether the preprocessed bytes end with a newline (an empty buffer
/// counts as terminated).
pub fn ended_with_newline(bytes: &Vec<u8>) -> (r: bool)
    ensures
        r == (bytes@.len() == 0 || bytes@.last() == 10),
{
    if bytes.len() == 0 {
        true
    } else {
        let b: u8 = bytes[bytes.len() - 1];
        b == 10
    }
}

/// The rendering path one file takes.
#[derive(Debug, Clone, Copy, PartialEq, Eq, Structural)]
pub enum EmitPlan {
    /// Write the bytes as they are.
    RawBytes,
    /// Write the text with unprintable characters made visible.
    TransformedText,
    /// Write the bytes line by line behind number columns.
    NumberedBytes,
    /// Write the text line by line behind number columns (honouring the
    /// unprintable transform).
    NumberedText,
    /// Run the highlighter and stream styled output.
    HighlightText,
}

/// Which path a file takes, given whether color is on, which decorations are
/// requested, whether unprintables are shown, whether the bytes are valid
/// UTF-8, and whether a language was found. Without color or decorations the
/// bytes go out nearly as they are; with color, valid UTF-8 and a language
/// they stream through the highlighter; everything else falls back to
/// numbered or transformed plain output.
pub open spec fn emit_plan_spec(
    use_color: bool,
    cfg: DecorationConfig,
    show_all: bool,
    utf8_ok: bool,
    has_language: bool,
) -> EmitPlan {
    if !use_color && !(cfg.show_numbers || cfg.show_changes) {
        if show_all && utf8_ok {
            EmitPlan::TransformedText
        } else {
            EmitPlan::RawBytes
        }
    } else if use_color {
        if utf8_ok {
            if has_language {
                EmitPlan::HighlightText
            } else {
                if cfg.show_numbers {
                    EmitPlan::NumberedText
                } else if show_all {
                    EmitPlan::TransformedText
                } else {
                    EmitPlan::RawBytes
                }
            }
        } else {
            if cfg.show_numbers {
                EmitPlan::NumberedBytes
            } else if show_all {
                EmitPlan::TransformedText
            } else {
                EmitPlan::RawBytes
            }
        }
    } else {
        if cfg.show_numbers {
            if show_all && utf8_ok {
                EmitPlan::NumberedText
            } else {
                EmitPlan::NumberedBytes
            }
        } else if show_all {
            if utf8_ok {
                EmitPlan::TransformedText
            } else {
                EmitPlan::RawBytes
            }
        } else {
            EmitPlan::RawBytes
        }
    }
}

/// Decide which rendering path a file takes.
pub fn plan_emit(
    use_color: bool,
    config: &DecorationConfig,
    show_all: bool,
    utf8_ok: bool,
    has_language: bool,
) -> (p: EmitPlan)
    ensures
        p == emit_plan_spec(use_color, *config, show_all, utf8_ok, has_language),
{
    if !use_color && !config.has_decorations() {
        if show_all && utf8_ok {
            EmitPlan::TransformedText
        } else {
            EmitPlan::RawBytes
        }
    } else if use_color {
        if utf8_ok {
            if has_language {
                EmitPlan::HighlightText
            } else {
                if config.show_numbers {
                    EmitPlan::NumberedText
                } else if show_all {
                    EmitPlan::TransformedText
                } else {
                    EmitPlan::RawBytes
                }
            }
        } else {
            if config.show_numbers {
                EmitPlan::NumberedBytes
            } else if show_all {
                EmitPlan::TransformedText
            } else {
                EmitPlan::RawBytes
            }
        }
    } else {
        if config.show_numbers {
            if show_all && utf8_ok {
                EmitPlan::NumberedText
            } else {
                EmitPlan::NumberedBytes
            }
        } else if show_all {
            if utf8_ok {
                EmitPlan::TransformedText
            } else {
                EmitPlan::RawBytes
            }
        } else {
            EmitPlan::RawBytes
        }
    }
}

/// The whole-text fallback when no language is found or the highlighter
/// rejects the input: numbered text when numbers are on, else the
/// unprintable transform when asked for, else the text itself.
pub fn plain_fallback(
    text: &str,
    show_numbers: bool,
    show_all: bool,
    line_number_start: usize,
    style: CharStyle,
) -> (out: String)
    ensures
        out@ == (if show_numbers {
            number_plain_spec(text@, line_number_start as int, show_all, is_unicode(style))
        } else if show_all {
            unp_seq(text@, is_unicode(style))
        } else {
            text@
        }),
{
    if show_numbers {
        number_plain_text(text, line_number_start, show_all, style)
    } else if show_all {
        show_unprintable(text, style)
    } else {
        String::from_str(text)
    }
}

} // verus!
