//! The Markdown break decider: whether Markdown syntax permits a line break
//! at a candidate position.
//!
//! The code-span automaton is replayed character by character from the last
//! committed line break up to the candidate, starting in plain text. A break
//! is permitted only in plain text, or exactly where a span's closing
//! backtick run resolves; and never where the characters at the candidate
//! form a hyphen, an image opener `![`, or a link closer `](` / `][`.

use vstd::prelude::*;

use crate::codespan::CodespanMachine;
use crate::codespan::CodespanState;
use crate::codespan::CodespanTracker;
use crate::codespan::initial_machine;
use crate::codespan::machine_step;

verus! {

/// The character at index `i`, or the NUL sentinel for an out-of-range read;
/// the sentinel matches no exclusion and behaves as an ordinary character.
pub open spec fn char_at(s: Seq<char>, i: int) -> char {
    if 0 <= i < s.len() {
        s[i]
    } else {
        '\0'
    }
}

/// The automaton after consuming the characters of `s` from index `from` up
/// to (excluding) index `to`, starting in plain text.
pub open spec fn replay(s: Seq<char>, from: int, to: int) -> CodespanMachine
    decreases to - from,
{
    if to <= from {
        initial_machine()
    } else {
        machine_step(replay(s, from, to - 1), char_at(s, to - 1))
    }
}

/// Whether a line break is permitted at `cand`, replaying the code-span
/// automaton from `from`, the last committed line break.
///
/// The replay consumes the characters strictly before `cand`. If it lands
/// where a closing backtick run is still being consumed, the break is
/// permitted only if the character at `cand` resolves the run back to plain
/// text. Otherwise the characters at `cand` and after it are held against
/// the hyphen, image-opener and link-closer exclusions, and the break is
/// permitted only in plain text.
pub open spec fn wrap_permitted(s: Seq<char>, from: int, cand: int) -> bool {
    if cand <= from || cand > s.len() {
        false
    } else {
        let m = replay(s, from, cand);
        if m.state is ExitingCodespan {
            machine_step(m, char_at(s, cand)).state is InsideText
        } else {
            let c1 = char_at(s, cand);
            let c2 = char_at(s, cand + 1);
            if c1 == '-' {
                false
            } else if c1 == '!' && c2 == '[' {
                false
            } else if c1 == ']' && (c2 == '(' || c2 == '[') {
                false
            } else {
                m.state is InsideText
            }
        }
    }
}

/// The character of `text` at `i`, or the NUL sentinel past the end.
pub fn char_at_or_nul(text: &Vec<char>, i: usize) -> (c: char)
    ensures
        c == char_at(text@, i as int),
{
    if i < text.len() {
        text[i]
    } else {
        '\0'
    }
}

/// Whether Markdown permits wrapping at the candidate break position.
pub fn possible_linebreak_must_wrap(text: &Vec<char>, from: usize, cand: usize) -> (r: bool)
    ensures
        r == wrap_permitted(text@, from as int, cand as int),
{
    if cand <= from || cand > text.len() {
        return false;
    }
    let mut tracker = CodespanTracker::new();
    let mut j: usize = from;
    while j < cand
        invariant
            from <= j <= cand,
            cand <= text.len(),
            tracker@ == replay(text@, from as int, j as int),
            tracker.open_run <= j - from,
            tracker.close_run <= j - from,
        decreases cand - j,
    {
        tracker.advance(text[j]);
        j = j + 1;
    }
    match tracker.state {
        CodespanState::ExitingCodespan => {
            let c1 = char_at_or_nul(text, cand);
            c1 != '`' && tracker.close_run == tracker.open_run
        },
        _ => {
            let c1 = char_at_or_nul(text, cand);
            let c2 = if cand < text.len() {
                char_at_or_nul(text, cand + 1)
            } else {
                '\0'
            };
            if c1 == '-' {
                false
            } else if c1 == '!' && c2 == '[' {
                false
            } else if c1 == ']' && (c2 == '(' || c2 == '[') {
                false
            } else {
                match tracker.state {
                    CodespanState::InsideText => true,
                    _ => false,
                }
            }
        },
    }
}

} // verus!
