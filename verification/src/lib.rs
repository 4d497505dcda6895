//! Decorated streaming highlight compositor.
//!
//! This library turns raw unified diffs into per-line change classifications,
//! slices and compacts byte buffers by line, makes unprintable characters
//! visible, composes decorated output lines (line numbers, change markers,
//! grid glyphs), and drives a highlight-event stream into buffered terminal
//! output. Terminal styling is delegated to syntastica's terminal renderer
//! through a small set of trusted wrappers; everything else is verified.

pub mod custom_langs;
pub mod decorations;
pub mod emit;
pub mod git;
pub mod options;
pub mod render;
pub mod slicing;
pub mod stream;
pub mod strutil;
pub mod style;
pub mod unprintable;
