//! Line, word, byte and character counts of a text, in the manner of `wc`.
//!
//! [`options::Options::new`] reads the command line, [`counting::count_text`]
//! counts a text in one pass and [`report::render`] formats the requested
//! counters. Lines are cut at `'\n'` alone, so a `'\r'` before it is
//! counted with the line's bytes and characters. Every line, the last one
//! included, is charged one terminator byte and character, so the empty text
//! is one empty line of one byte.
pub mod counting;
pub mod options;
pub mod report;

pub use counting::{count_text, Stats};
pub use options::{Options, Source};
pub use report::render;
