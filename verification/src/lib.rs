//! A Markdown-aware paragraph line-wrapping engine.
//!
//! The engine re-flows one paragraph of text into lines no wider than a given
//! width wherever a wrap is structurally permitted, with a distinct width for
//! the first produced line. It never breaks inside a backtick-delimited
//! inline code span, avoids breaking at characters commonly used in link and
//! image syntax, honors mandatory breaks, and preserves the input's count of
//! trailing newline characters. Break opportunities come from a Unicode
//! line-break classifier consulted through a small trusted boundary.

use vstd::prelude::*;

pub mod classifier;
pub mod codespan;
pub mod convert;
pub mod decider;
pub mod discover;
pub mod laws;
pub mod sequencer;

verus! {

/// What wrapping a text comes to: the classifier's break opportunities,
/// converted to character indices, drive the verified wrap.
pub open spec fn wrapped_view(s: Seq<char>, width: int, first_line_width: int) -> Seq<char> {
    crate::sequencer::wrap_paragraph_spec(
        s,
        crate::convert::convert_breaks_spec(s, crate::classifier::ulb_breaks(s)),
        width,
        first_line_width,
    )
}

/// Wrap one paragraph of Markdown text to `width`, using `first_line_width`
/// for the first produced line only, breaking at Unicode line-break
/// opportunities wherever Markdown structure permits, and preserving the
/// input's count of trailing newline characters.
pub fn ulb_wrap_paragraph(text: &str, width: usize, first_line_width: usize) -> (r: String)
    ensures
        r@ == wrapped_view(text@, width as int, first_line_width as int),
{
    let chars = crate::classifier::text_chars(text);
    let raw = crate::classifier::classify_breaks(text);
    let breaks = crate::convert::convert_breaks(&chars, &raw);
    let wrapped = crate::sequencer::wrap_paragraph_chars(&chars, &breaks, width, first_line_width);
    crate::classifier::chars_text(&wrapped)
}

} // verus!
