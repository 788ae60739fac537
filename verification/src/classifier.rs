//! The trusted boundary to the Unicode line-break classifier, and the two
//! conversions between text and its character sequence.
//!
//! The classifier's output is named, not spelled out: stating the whole
//! Unicode line-breaking algorithm here would be a page-long promise nothing
//! could check. The engine's own contracts speak of the name, and the whole
//! wrapping logic after classification is verified for every break list.

use vstd::prelude::*;

verus! {

/// The break opportunities that the Unicode line-break classifier reports
/// for a text: pairs of the byte index just past the break's last character
/// and whether the break is mandatory, in ascending position order. The
/// result depends on the characters alone.
pub uninterp spec fn ulb_breaks(s: Seq<char>) -> Seq<(usize, bool)>;

/// Relies on unicode_linebreak::linebreaks: the UAX #14 break opportunities
/// of the text, as (byte index, kind) pairs; the kind is mapped to a plain
/// flag, true for a mandatory break.
#[verifier::external_body]
pub(crate) fn classify_breaks(text: &str) -> (r: Vec<(usize, bool)>)
    ensures
        r@ == ulb_breaks(text@),
{
    unicode_linebreak::linebreaks(text)
        .map(
            |pair: (usize, unicode_linebreak::BreakOpportunity)| (
                pair.0,
                matches!(pair.1, unicode_linebreak::BreakOpportunity::Mandatory),
            ),
        )
        .collect()
}

/// Relies on str::chars: the characters of the text, in order.
#[verifier::external_body]
pub(crate) fn text_chars(text: &str) -> (r: Vec<char>)
    ensures
        r@ == text@,
{
    text.chars().collect()
}

/// Relies on String's FromIterator over char: the characters collected back
/// into a text, in order.
#[verifier::external_body]
pub(crate) fn chars_text(v: &Vec<char>) -> (r: String)
    ensures
        r@ == v@,
{
    v.iter().collect()
}

} // verus!
