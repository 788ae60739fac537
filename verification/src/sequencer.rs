//! The paragraph wrap sequencer and assembly: produce the wrapped lines one
//! after the other, join them with newlines, and correct the trailing
//! newline count to match the input's.
//!
//! Per line, the discoverer selects a break index; the line is the text from
//! the line's start up to that index, keeping the break character itself
//! only when it is ordinary text rather than a space or newline. The first
//! produced line uses the first-line width; all later lines use the main
//! width.

use vstd::prelude::*;

use crate::decider::char_at;
use crate::discover::discover_next_linebreak_index;
use crate::discover::discover_spec;

verus! {

/// One produced line: the characters from `i` up to the break `b`, with the
/// break character kept only when it is not a space or newline.
pub open spec fn line_slice(s: Seq<char>, i: int, b: int) -> Seq<char> {
    s.subrange(i, b) + if char_at(s, b) == ' ' || char_at(s, b) == '\n' {
        seq![]
    } else {
        seq![char_at(s, b)]
    }
}

/// The lines produced from position `i` on, with `last` the last committed
/// break, `w` the width in effect for the current line and `mw` the width
/// for all lines after it. When the discovered break lies past the end of
/// the text, the scan is exhausted and no further line is produced.
pub open spec fn wrap_from(
    s: Seq<char>,
    breaks: Seq<(usize, bool)>,
    last: int,
    i: int,
    w: int,
    mw: int,
) -> Seq<Seq<char>>
    decreases s.len() - i,
{
    if i < 0 || i >= s.len() {
        seq![]
    } else {
        let b = discover_spec(s, breaks, i, last, w);
        if b < i || b >= s.len() {
            seq![]
        } else {
            seq![line_slice(s, i, b)] + wrap_from(s, breaks, b, b + 1, mw, mw)
        }
    }
}

/// All lines of the paragraph: the first under the first-line width, the
/// rest under the main width.
pub open spec fn wrap_lines_spec(
    s: Seq<char>,
    breaks: Seq<(usize, bool)>,
    width: int,
    first_line_width: int,
) -> Seq<Seq<char>> {
    wrap_from(s, breaks, 0, 0, first_line_width, width)
}

/// Each line followed by one newline.
pub open spec fn join_lines(lines: Seq<Seq<char>>) -> Seq<char>
    decreases lines.len(),
{
    if lines.len() == 0 {
        seq![]
    } else {
        lines[0] + seq!['\n'] + join_lines(lines.drop_first())
    }
}

/// The assembled output before the trailing correction: the joined lines,
/// or a single newline when no line was produced.
pub open spec fn assembled(lines: Seq<Seq<char>>) -> Seq<char> {
    if lines.len() == 0 {
        seq!['\n']
    } else {
        join_lines(lines)
    }
}

/// The number of trailing newline characters.
pub open spec fn trailing_newlines(s: Seq<char>) -> int
    decreases s.len(),
{
    if s.len() == 0 {
        0
    } else if s[s.len() - 1] != '\n' {
        0
    } else {
        1 + trailing_newlines(s.drop_last())
    }
}

/// The trailing correction: one newline is removed when the output carries
/// more trailing newlines than the input, so that the assembly's structural
/// extra newline never survives.
pub open spec fn correct_trailing(out: Seq<char>, input: Seq<char>) -> Seq<char> {
    if trailing_newlines(input) < trailing_newlines(out) {
        out.drop_last()
    } else {
        out
    }
}

/// The whole paragraph wrap over a break-opportunity list: the joined lines
/// with the trailing correction applied.
pub open spec fn wrap_paragraph_spec(
    s: Seq<char>,
    breaks: Seq<(usize, bool)>,
    width: int,
    first_line_width: int,
) -> Seq<char> {
    correct_trailing(assembled(wrap_lines_spec(s, breaks, width, first_line_width)), s)
}

proof fn lemma_join_cons(l: Seq<char>, rest: Seq<Seq<char>>)
    ensures
        join_lines(seq![l] + rest) == l + seq!['\n'] + join_lines(rest),
{
    let all = seq![l] + rest;
    assert(all.len() >= 1);
    assert(all[0] == l);
    assert(all.drop_first() =~= rest);
}

proof fn lemma_join_nonempty(lines: Seq<Seq<char>>)
    requires
        lines.len() > 0,
    ensures
        join_lines(lines).len() > 0,
{
}

/// Count the trailing newline characters of `v`.
pub fn count_trailing_newlines(v: &Vec<char>) -> (n: usize)
    ensures
        n as int == trailing_newlines(v@),
{
    let mut n: usize = 0;
    proof {
        assert(v@.take(v.len() as int) =~= v@);
    }
    while n < v.len() && v[v.len() - 1 - n] == '\n'
        invariant
            n <= v.len(),
            trailing_newlines(v@) == n + trailing_newlines(v@.take(v.len() - n as int)),
        decreases v.len() - n,
    {
        proof {
            let pre = v@.take(v.len() - n as int);
            assert(pre[pre.len() - 1] == v@[v.len() - 1 - n as int]);
            assert(pre.drop_last() =~= v@.take(v.len() - (n + 1) as int));
        }
        n = n + 1;
    }
    proof {
        let pre = v@.take(v.len() - n as int);
        if n < v.len() {
            assert(pre[pre.len() - 1] == v@[v.len() - 1 - n as int]);
        }
        assert(trailing_newlines(pre) == 0);
    }
    n
}

/// Wrap the paragraph held as a character vector against the given
/// break-opportunity list (positions in character units, paired with whether
/// the opportunity is mandatory).
pub fn wrap_paragraph_chars(
    text: &Vec<char>,
    breaks: &Vec<(usize, bool)>,
    width: usize,
    first_line_width: usize,
) -> (r: Vec<char>)
    ensures
        r@ == wrap_paragraph_spec(text@, breaks@, width as int, first_line_width as int),
{
    let ghost all_lines = wrap_lines_spec(
        text@,
        breaks@,
        width as int,
        first_line_width as int,
    );
    let mut out: Vec<char> = Vec::new();
    let mut i: usize = 0;
    let mut last: usize = 0;
    let mut w: usize = first_line_width;
    while i < text.len()
        invariant
            i <= text.len(),
            out@ + join_lines(
                wrap_from(text@, breaks@, last as int, i as int, w as int, width as int),
            ) == join_lines(all_lines),
        decreases text.len() - i,
    {
        let ghost lines_here = wrap_from(
            text@,
            breaks@,
            last as int,
            i as int,
            w as int,
            width as int,
        );
        let b = discover_next_linebreak_index(text, breaks, i, last, w);
        if b >= text.len() {
            assert(lines_here =~= Seq::<Seq<char>>::empty());
            i = text.len();
        } else {
            let ghost rest = wrap_from(
                text@,
                breaks@,
                b as int,
                b as int + 1,
                width as int,
                width as int,
            );
            proof {
                lemma_join_cons(line_slice(text@, i as int, b as int), rest);
            }
            let ghost out_at_start = out@;
            let mut j: usize = i;
            while j < b
                invariant
                    i <= j <= b,
                    b < text.len(),
                    out@ == out_at_start + text@.subrange(i as int, j as int),
                decreases b - j,
            {
                let c: char = text[j];
                proof {
                    assert(text@.subrange(i as int, j as int + 1) =~= text@.subrange(
                        i as int,
                        j as int,
                    ).push(text@[j as int]));
                }
                out.push(c);
                j = j + 1;
            }
            let bc: char = text[b];
            if bc != ' ' && bc != '\n' {
                out.push(bc);
            }
            out.push('\n');
            proof {
                assert(out@ =~= out_at_start + line_slice(text@, i as int, b as int) + seq![
                    '\n',
                ]);
            }
            last = b;
            i = b + 1;
            w = width;
        }
    }
    proof {
        assert(out@ == join_lines(all_lines));
    }
    if out.len() == 0 {
        proof {
            if all_lines.len() > 0 {
                lemma_join_nonempty(all_lines);
            }
        }
        out.push('\n');
    }
    proof {
        assert(out@ == assembled(all_lines));
    }
    let t_out = count_trailing_newlines(&out);
    let t_in = count_trailing_newlines(text);
    if t_in < t_out {
        out.pop();
    }
    out
}

} // verus!
