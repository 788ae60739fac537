//! The line discoverer: scanning the ordered break-opportunity list, select
//! the break index for the current line.
//!
//! A mandatory opportunity always ends the scan; it is adopted when it lies
//! within the width measured from the last committed break, or when no
//! candidate has been selected yet. An allowed opportunity is consulted with
//! the Markdown decider; each permitted one that still fits the width
//! replaces the candidate (greedy: the furthest fitting break wins), the
//! first permitted one is kept even when nothing fits (the progress
//! fallback), and the first permitted one past the width ends the scan.

use vstd::prelude::*;

use crate::decider::possible_linebreak_must_wrap;
use crate::decider::wrap_permitted;

verus! {

/// The break selected by scanning the opportunities from list index `bi` on,
/// with `best` the candidate selected so far (`best == start` means none).
///
/// Positions below `start` are skipped. Distances are measured from `last`,
/// the last committed break, in unbounded arithmetic.
pub open spec fn next_break_from(
    s: Seq<char>,
    breaks: Seq<(usize, bool)>,
    bi: int,
    start: int,
    last: int,
    width: int,
    best: int,
) -> int
    decreases breaks.len() - bi,
{
    if bi < 0 || bi >= breaks.len() {
        best
    } else {
        let p = breaks[bi].0 as int;
        let mandatory = breaks[bi].1;
        if p < start {
            next_break_from(s, breaks, bi + 1, start, last, width, best)
        } else if mandatory {
            if p - last <= width || best == start {
                p
            } else {
                best
            }
        } else if wrap_permitted(s, last, p) {
            if p - last <= width {
                next_break_from(s, breaks, bi + 1, start, last, width, p)
            } else if best == start {
                p
            } else {
                best
            }
        } else {
            next_break_from(s, breaks, bi + 1, start, last, width, best)
        }
    }
}

/// The break selected for the line that starts at `start`.
pub open spec fn discover_spec(
    s: Seq<char>,
    breaks: Seq<(usize, bool)>,
    start: int,
    last: int,
    width: int,
) -> int {
    next_break_from(s, breaks, 0, start, last, width, start)
}

/// Scan the break opportunities and select the break index for the current
/// line; the result is never below `start`.
pub fn discover_next_linebreak_index(
    text: &Vec<char>,
    breaks: &Vec<(usize, bool)>,
    start: usize,
    last: usize,
    width: usize,
) -> (r: usize)
    ensures
        r as int == discover_spec(text@, breaks@, start as int, last as int, width as int),
        r >= start,
{
    let mut best: usize = start;
    let mut bi: usize = 0;
    while bi < breaks.len()
        invariant
            bi <= breaks.len(),
            best >= start,
            discover_spec(text@, breaks@, start as int, last as int, width as int)
                == next_break_from(
                text@,
                breaks@,
                bi as int,
                start as int,
                last as int,
                width as int,
                best as int,
            ),
        decreases breaks.len() - bi,
    {
        let pair: (usize, bool) = breaks[bi];
        let p: usize = pair.0;
        let mandatory: bool = pair.1;
        if p < start {
            bi = bi + 1;
        } else if mandatory {
            if p < last || p - last <= width || best == start {
                return p;
            } else {
                return best;
            }
        } else if possible_linebreak_must_wrap(text, last, p) {
            if p < last || p - last <= width {
                best = p;
                bi = bi + 1;
            } else if best == start {
                return p;
            } else {
                return best;
            }
        } else {
            bi = bi + 1;
        }
    }
    best
}

} // verus!
