//! The engine's structural laws, stated over the specification model and
//! proved once for every input and every break-opportunity list.

use vstd::prelude::*;

use crate::codespan::machine_step;
use crate::decider::char_at;
use crate::decider::replay;
use crate::decider::wrap_permitted;
use crate::discover::discover_spec;
use crate::discover::next_break_from;
use crate::sequencer::assembled;
use crate::sequencer::correct_trailing;
use crate::sequencer::join_lines;
use crate::sequencer::line_slice;
use crate::sequencer::trailing_newlines;
use crate::sequencer::wrap_from;
use crate::sequencer::wrap_lines_spec;
use crate::sequencer::wrap_paragraph_spec;

verus! {

/// Whether the opportunity list holds a mandatory break at position `p`.
pub open spec fn mandatory_at(breaks: Seq<(usize, bool)>, p: int) -> bool {
    exists|j: int| 0 <= j < breaks.len() && breaks[j].0 as int == p && breaks[j].1
}

/// The committed break positions, line by line: the trace that drives
/// `wrap_from`, produced by the same recursion.
pub open spec fn wrap_boundaries(
    s: Seq<char>,
    breaks: Seq<(usize, bool)>,
    last: int,
    i: int,
    w: int,
    mw: int,
) -> Seq<int>
    decreases s.len() - i,
{
    if i < 0 || i >= s.len() {
        seq![]
    } else {
        let b = discover_spec(s, breaks, i, last, w);
        if b < i || b >= s.len() {
            seq![]
        } else {
            seq![b] + wrap_boundaries(s, breaks, b, b + 1, mw, mw)
        }
    }
}

/// The index the `k`-th line starts at: `i0` for the first line, one past
/// the previous committed break for every later one.
pub open spec fn line_start_of(tr: Seq<int>, k: int, i0: int) -> int {
    if k == 0 {
        i0
    } else {
        tr[k - 1] + 1
    }
}

/// The committed break the `k`-th line's distances are measured from:
/// `last0` for the first line, the previous committed break after that.
pub open spec fn prev_boundary(tr: Seq<int>, k: int, last0: int) -> int {
    if k == 0 {
        last0
    } else {
        tr[k - 1]
    }
}

proof fn lemma_next_break_classified(
    s: Seq<char>,
    breaks: Seq<(usize, bool)>,
    bi: int,
    start: int,
    last: int,
    width: int,
    best: int,
)
    requires
        best == start || mandatory_at(breaks, best) || wrap_permitted(s, last, best),
    ensures
        ({
            let r = next_break_from(s, breaks, bi, start, last, width, best);
            r == start || mandatory_at(breaks, r) || wrap_permitted(s, last, r)
        }),
    decreases breaks.len() - bi,
{
    if bi < 0 || bi >= breaks.len() {
    } else {
        let p = breaks[bi].0 as int;
        let mandatory = breaks[bi].1;
        if p < start {
            lemma_next_break_classified(s, breaks, bi + 1, start, last, width, best);
        } else if mandatory {
            if p - last <= width || best == start {
                assert(mandatory_at(breaks, p)) by {
                    assert(0 <= bi < breaks.len() && breaks[bi].0 as int == p && breaks[bi].1);
                }
            }
        } else if wrap_permitted(s, last, p) {
            if p - last <= width {
                lemma_next_break_classified(s, breaks, bi + 1, start, last, width, p);
            }
        } else {
            lemma_next_break_classified(s, breaks, bi + 1, start, last, width, best);
        }
    }
}

/// Every committed line boundary is a mandatory break opportunity, or a
/// position the Markdown decider permits relative to the previous committed
/// boundary, or the degenerate boundary at the line's own start that the
/// scan falls back to when the opportunity list holds nothing for the line.
pub proof fn lemma_boundaries_permitted(
    s: Seq<char>,
    breaks: Seq<(usize, bool)>,
    last: int,
    i: int,
    w: int,
    mw: int,
)
    ensures
        ({
            let tr = wrap_boundaries(s, breaks, last, i, w, mw);
            forall|k: int|
                0 <= k < tr.len() ==> #[trigger] tr[k] == line_start_of(tr, k, i)
                    || mandatory_at(breaks, tr[k])
                    || wrap_permitted(s, prev_boundary(tr, k, last), tr[k])
        }),
    decreases s.len() - i,
{
    let tr = wrap_boundaries(s, breaks, last, i, w, mw);
    if i < 0 || i >= s.len() {
    } else {
        let b = discover_spec(s, breaks, i, last, w);
        if b < i || b >= s.len() {
        } else {
            lemma_next_break_classified(s, breaks, 0, i, last, w, i);
            let tail = wrap_boundaries(s, breaks, b, b + 1, mw, mw);
            lemma_boundaries_permitted(s, breaks, b, b + 1, mw, mw);
            assert forall|k: int| 0 <= k < tr.len() implies #[trigger] tr[k] == line_start_of(
                tr,
                k,
                i,
            ) || mandatory_at(breaks, tr[k]) || wrap_permitted(
                s,
                prev_boundary(tr, k, last),
                tr[k],
            ) by {
                if k == 0 {
                    assert(tr[0] == b);
                } else {
                    assert(tr[k] == tail[k - 1]);
                    assert(tail[k - 1] == line_start_of(tail, k - 1, b + 1) || mandatory_at(
                        breaks,
                        tail[k - 1],
                    ) || wrap_permitted(s, prev_boundary(tail, k - 1, b), tail[k - 1]));
                    if k == 1 {
                        assert(line_start_of(tr, k, i) == b + 1 == line_start_of(tail, 0, b + 1));
                        assert(prev_boundary(tr, k, last) == b == prev_boundary(tail, 0, b));
                    } else {
                        assert(tr[k - 1] == tail[k - 2]);
                        assert(line_start_of(tr, k, i) == line_start_of(tail, k - 1, b + 1));
                        assert(prev_boundary(tr, k, last) == prev_boundary(tail, k - 1, b));
                    }
                }
            }
        }
    }
}

/// The produced lines and the committed boundaries correspond one to one:
/// the `k`-th line is the text from its start up to the `k`-th boundary,
/// with the break character kept only when it is ordinary text.
pub proof fn lemma_lines_match_boundaries(
    s: Seq<char>,
    breaks: Seq<(usize, bool)>,
    last: int,
    i: int,
    w: int,
    mw: int,
)
    ensures
        ({
            let lines = wrap_from(s, breaks, last, i, w, mw);
            let tr = wrap_boundaries(s, breaks, last, i, w, mw);
            lines.len() == tr.len() && forall|k: int|
                0 <= k < tr.len() ==> #[trigger] lines[k] == line_slice(
                    s,
                    line_start_of(tr, k, i),
                    tr[k],
                )
        }),
    decreases s.len() - i,
{
    let lines = wrap_from(s, breaks, last, i, w, mw);
    let tr = wrap_boundaries(s, breaks, last, i, w, mw);
    if i < 0 || i >= s.len() {
    } else {
        let b = discover_spec(s, breaks, i, last, w);
        if b < i || b >= s.len() {
        } else {
            let tail_lines = wrap_from(s, breaks, b, b + 1, mw, mw);
            let tail_tr = wrap_boundaries(s, breaks, b, b + 1, mw, mw);
            lemma_lines_match_boundaries(s, breaks, b, b + 1, mw, mw);
            assert forall|k: int| 0 <= k < tr.len() implies #[trigger] lines[k] == line_slice(
                s,
                line_start_of(tr, k, i),
                tr[k],
            ) by {
                if k == 0 {
                    assert(tr[0] == b && lines[0] == line_slice(s, i, b));
                } else {
                    assert(tr[k] == tail_tr[k - 1]);
                    assert(lines[k] == tail_lines[k - 1]);
                    if k == 1 {
                        assert(line_start_of(tr, k, i) == b + 1 == line_start_of(
                            tail_tr,
                            0,
                            b + 1,
                        ));
                    } else {
                        assert(tr[k - 1] == tail_tr[k - 2]);
                        assert(line_start_of(tr, k, i) == line_start_of(tail_tr, k - 1, b + 1));
                    }
                }
            }
        }
    }
}

/// Code-span atomicity: at every committed boundary that is not a mandatory
/// break and not the degenerate fallback at the line's own start, the
/// code-span automaton replayed from the previous boundary stands in plain
/// text, or the boundary sits exactly where the span's closing backtick run
/// resolves back to plain text. No such boundary falls strictly inside a
/// code span.
pub proof fn lemma_codespan_atomicity(
    s: Seq<char>,
    breaks: Seq<(usize, bool)>,
    last: int,
    i: int,
    w: int,
    mw: int,
)
    ensures
        ({
            let tr = wrap_boundaries(s, breaks, last, i, w, mw);
            forall|k: int|
                0 <= k < tr.len() && !mandatory_at(breaks, #[trigger] tr[k]) && tr[k]
                    != line_start_of(tr, k, i) ==> {
                    let m = replay(s, prev_boundary(tr, k, last), tr[k]);
                    m.state is InsideText || (m.state is ExitingCodespan && machine_step(
                        m,
                        char_at(s, tr[k]),
                    ).state is InsideText)
                }
        }),
{
    lemma_boundaries_permitted(s, breaks, last, i, w, mw);
}

/// Hyphen and link protection: at every committed boundary that is not a
/// mandatory break, not the degenerate fallback at the line's own start, and
/// not the resolution point of a code span's closing backtick run, the
/// characters at the boundary form neither a literal hyphen, nor an image
/// opener, nor a link closer.
pub proof fn lemma_hyphen_link_protection(
    s: Seq<char>,
    breaks: Seq<(usize, bool)>,
    last: int,
    i: int,
    w: int,
    mw: int,
)
    ensures
        ({
            let tr = wrap_boundaries(s, breaks, last, i, w, mw);
            forall|k: int|
                0 <= k < tr.len() && !mandatory_at(breaks, #[trigger] tr[k]) && tr[k]
                    != line_start_of(tr, k, i) && !(replay(
                    s,
                    prev_boundary(tr, k, last),
                    tr[k],
                ).state is ExitingCodespan) ==> char_at(s, tr[k]) != '-' && !(char_at(s, tr[k])
                    == '!' && char_at(s, tr[k] + 1) == '[') && !(char_at(s, tr[k]) == ']' && (
                char_at(s, tr[k] + 1) == '(' || char_at(s, tr[k] + 1) == '['))
        }),
{
    lemma_boundaries_permitted(s, breaks, last, i, w, mw);
}

/// Whether the opportunity list is in ascending position order, as the
/// classifier reports it.
pub open spec fn breaks_ascending(breaks: Seq<(usize, bool)>) -> bool {
    forall|j1: int, j2: int|
        #![trigger breaks[j1].0, breaks[j2].0]
        0 <= j1 < j2 < breaks.len() ==> breaks[j1].0 <= breaks[j2].0
}

proof fn lemma_greedy_fit_from(
    s: Seq<char>,
    breaks: Seq<(usize, bool)>,
    bi: int,
    start: int,
    last: int,
    width: int,
    best: int,
)
    requires
        breaks_ascending(breaks),
        start <= best,
        best == start || best - last <= width,
        best == start || exists|jb: int|
            0 <= jb < bi && #[trigger] breaks[jb].0 as int == best,
        best == start ==> forall|j: int|
            0 <= j < bi && start < #[trigger] breaks[j].0 as int ==> !(breaks[j].1
                || wrap_permitted(s, last, breaks[j].0 as int)),
    ensures
        ({
            let r = next_break_from(s, breaks, bi, start, last, width, best);
            r == start || r - last <= width || forall|j: int|
                0 <= j < breaks.len() && start < #[trigger] breaks[j].0 as int && (breaks[j].0 as int) < r ==> !(
                breaks[j].1 || wrap_permitted(s, last, breaks[j].0 as int))
        }),
    decreases breaks.len() - bi,
{
    if bi < 0 || bi >= breaks.len() {
    } else {
        let p = breaks[bi].0 as int;
        let mandatory = breaks[bi].1;
        if p < start {
            lemma_greedy_fit_from(s, breaks, bi + 1, start, last, width, best);
        } else if mandatory {
            if p - last <= width {
            } else if best == start {
                assert forall|j: int|
                    0 <= j < breaks.len() && start < #[trigger] breaks[j].0 as int && (breaks[j].0 as int)
                        < p implies !(breaks[j].1 || wrap_permitted(
                    s,
                    last,
                    breaks[j].0 as int,
                )) by {
                    if j >= bi {
                        assert(breaks[bi].0 <= breaks[j].0);
                    }
                }
            }
        } else if wrap_permitted(s, last, p) {
            if p - last <= width {
                if best != start && p == start {
                    let jb = choose|jb: int|
                        0 <= jb < bi && #[trigger] breaks[jb].0 as int == best;
                    assert(breaks[jb].0 <= breaks[bi].0);
                    assert(false);
                }
                lemma_greedy_fit_from(s, breaks, bi + 1, start, last, width, p);
            } else if best == start {
                assert forall|j: int|
                    0 <= j < breaks.len() && start < #[trigger] breaks[j].0 as int && (breaks[j].0 as int)
                        < p implies !(breaks[j].1 || wrap_permitted(
                    s,
                    last,
                    breaks[j].0 as int,
                )) by {
                    if j >= bi {
                        assert(breaks[bi].0 <= breaks[j].0);
                    }
                }
            }
        } else {
            lemma_greedy_fit_from(s, breaks, bi + 1, start, last, width, best);
        }
    }
}

/// Greedy fit: the break selected for a line lies within the width measured
/// from the last committed break, unless the list offers no mandatory or
/// permitted opportunity strictly between the line's start and the selected
/// break (a single unbreakable token longer than the width then stands on a
/// line of its own), or offers nothing at all for the line and the scan
/// falls back to the line's start.
pub proof fn lemma_greedy_fit(
    s: Seq<char>,
    breaks: Seq<(usize, bool)>,
    start: int,
    last: int,
    width: int,
)
    requires
        breaks_ascending(breaks),
    ensures
        ({
            let r = discover_spec(s, breaks, start, last, width);
            r == start || r - last <= width || forall|j: int|
                0 <= j < breaks.len() && start < #[trigger] breaks[j].0 as int && (breaks[j].0 as int) < r ==> !(
                breaks[j].1 || wrap_permitted(s, last, breaks[j].0 as int))
        }),
{
    lemma_greedy_fit_from(s, breaks, 0, start, last, width, start);
}

proof fn lemma_trailing_nonneg(s: Seq<char>)
    ensures
        trailing_newlines(s) >= 0,
    decreases s.len(),
{
    if s.len() > 0 && s[s.len() - 1] == '\n' {
        lemma_trailing_nonneg(s.drop_last());
    }
}

proof fn lemma_trailing_drop(out: Seq<char>)
    requires
        trailing_newlines(out) >= 1,
    ensures
        out.len() >= 1,
        trailing_newlines(out.drop_last()) == trailing_newlines(out) - 1,
{
}

/// Newline preservation: the trailing correction brings the output's
/// trailing-newline count back to the input's exactly, whenever the
/// assembled lines carried the input's trailing newlines plus at most the
/// one structural newline the assembly appends after the last line.
pub proof fn lemma_newline_preservation(out: Seq<char>, input: Seq<char>)
    requires
        trailing_newlines(input) <= trailing_newlines(out),
        trailing_newlines(out) <= trailing_newlines(input) + 1,
    ensures
        trailing_newlines(correct_trailing(out, input)) == trailing_newlines(input),
{
    lemma_trailing_nonneg(input);
    if trailing_newlines(input) < trailing_newlines(out) {
        lemma_trailing_drop(out);
    }
}

/// How many lines at the tail of the sequence are empty.
pub open spec fn trailing_empty_lines(lines: Seq<Seq<char>>) -> int
    decreases lines.len(),
{
    if lines.len() == 0 {
        0
    } else if lines.last().len() != 0 {
        0
    } else {
        1 + trailing_empty_lines(lines.drop_last())
    }
}

/// Whether no produced line holds a newline character of its own.
pub open spec fn no_newline_in_lines(lines: Seq<Seq<char>>) -> bool {
    forall|k: int, t: int|
        0 <= k < lines.len() && 0 <= t < lines[k].len() ==> #[trigger] lines[k][t] != '\n'
}

proof fn lemma_join_push(lines: Seq<Seq<char>>, l: Seq<char>)
    ensures
        join_lines(lines.push(l)) == join_lines(lines) + l + seq!['\n'],
    decreases lines.len(),
{
    if lines.len() == 0 {
        reveal_with_fuel(join_lines, 2);
        assert(lines.push(l)[0] == l);
        assert(lines.push(l).drop_first() =~= Seq::<Seq<char>>::empty());
        assert(join_lines(lines.push(l).drop_first()) == Seq::<char>::empty());
        assert(join_lines(lines.push(l)) =~= join_lines(lines) + l + seq!['\n']);
    } else {
        assert(lines.push(l).drop_first() =~= lines.drop_first().push(l));
        assert(lines.push(l)[0] == lines[0]);
        lemma_join_push(lines.drop_first(), l);
        assert(join_lines(lines.push(l)) == lines[0] + seq!['\n'] + join_lines(
            lines.push(l).drop_first(),
        ));
        assert(join_lines(lines.push(l).drop_first()) == join_lines(lines.drop_first()) + l
            + seq!['\n']);
        assert(join_lines(lines) == lines[0] + seq!['\n'] + join_lines(lines.drop_first()));
        assert(join_lines(lines.push(l)) =~= join_lines(lines) + l + seq!['\n']);
    }
}

proof fn lemma_trailing_append_newline(a: Seq<char>)
    ensures
        trailing_newlines(a + seq!['\n']) == trailing_newlines(a) + 1,
{
    let s = a + seq!['\n'];
    assert(s.len() > 0 && s[s.len() - 1] == '\n');
    assert(s.drop_last() =~= a);
}

proof fn lemma_trailing_end_not_newline(s: Seq<char>)
    requires
        s.len() > 0,
        s[s.len() - 1] != '\n',
    ensures
        trailing_newlines(s) == 0,
{
}

/// The joined output's trailing newlines count the trailing empty lines plus
/// the newline after the last nonempty line, when no line holds a newline of
/// its own; when every line is empty the count is the line count itself.
pub proof fn lemma_join_trailing(lines: Seq<Seq<char>>)
    requires
        no_newline_in_lines(lines),
        lines.len() > 0,
    ensures
        trailing_newlines(join_lines(lines)) == if trailing_empty_lines(lines) == lines.len() {
            lines.len() as int
        } else {
            trailing_empty_lines(lines) + 1
        },
    decreases lines.len(),
{
    let l = lines.last();
    let front = lines.drop_last();
    assert(lines =~= front.push(l));
    lemma_join_push(front, l);
    if l.len() != 0 {
        let a = join_lines(front) + l;
        assert(a[a.len() - 1] == l[l.len() - 1]);
        assert(lines[lines.len() - 1][l.len() - 1] != '\n');
        lemma_trailing_end_not_newline(a);
        lemma_trailing_append_newline(a);
        assert(join_lines(lines) =~= a + seq!['\n']);
    } else {
        assert(join_lines(lines) =~= join_lines(front) + seq!['\n']);
        lemma_trailing_append_newline(join_lines(front));
        if front.len() == 0 {
            assert(trailing_newlines(join_lines(front)) == 0);
        } else {
            assert(no_newline_in_lines(front)) by {
                assert forall|k: int, t: int|
                    0 <= k < front.len() && 0 <= t < front[k].len() implies #[trigger] front[k][t]
                    != '\n' by {
                    assert(front[k] == lines[k]);
                    assert(lines[k][t] != '\n');
                }
            }
            lemma_join_trailing(front);
        }
    }
}

proof fn lemma_discover_entry_bounded_from(
    s: Seq<char>,
    breaks: Seq<(usize, bool)>,
    bi: int,
    start: int,
    last: int,
    width: int,
    best: int,
    jq: int,
)
    requires
        0 <= bi,
        breaks_ascending(breaks),
        start <= best,
        0 <= jq < breaks.len(),
        breaks[jq].1,
        start <= breaks[jq].0 as int,
        best <= breaks[jq].0 as int,
        best == start || exists|jb: int|
            0 <= jb < breaks.len() && #[trigger] breaks[jb].0 as int == best,
        forall|j: int|
            0 <= j < bi ==> !(#[trigger] breaks[j].1 && breaks[j].0 as int >= start),
    ensures
        ({
            let r = next_break_from(s, breaks, bi, start, last, width, best);
            start <= r <= breaks[jq].0 as int && exists|j: int|
                0 <= j < breaks.len() && #[trigger] breaks[j].0 as int == r
        }),
    decreases breaks.len() - bi,
{
    let q = breaks[jq].0 as int;
    if bi < 0 || bi >= breaks.len() {
        assert(!(breaks[jq].1 && breaks[jq].0 as int >= start));
        assert(false);
    } else {
        let p = breaks[bi].0 as int;
        let mandatory = breaks[bi].1;
        if jq < bi {
            assert(!(breaks[jq].1 && breaks[jq].0 as int >= start));
            assert(false);
        }
        if p < start {
            lemma_discover_entry_bounded_from(s, breaks, bi + 1, start, last, width, best, jq);
        } else if mandatory {
            if p - last <= width || best == start {
                if jq > bi {
                    assert(breaks[bi].0 <= breaks[jq].0);
                }
                assert(exists|j: int|
                    0 <= j < breaks.len() && #[trigger] breaks[j].0 as int == p) by {
                    assert(breaks[bi].0 as int == p);
                }
            }
        } else if wrap_permitted(s, last, p) {
            assert(jq != bi);
            assert(breaks[bi].0 <= breaks[jq].0);
            assert(exists|j: int| 0 <= j < breaks.len() && #[trigger] breaks[j].0 as int == p)
                by {
                assert(breaks[bi].0 as int == p);
            }
            if p - last <= width {
                lemma_discover_entry_bounded_from(s, breaks, bi + 1, start, last, width, p, jq);
            }
        } else {
            lemma_discover_entry_bounded_from(s, breaks, bi + 1, start, last, width, best, jq);
        }
    }
}

/// Wherever a mandatory opportunity at or past the line's start exists, the
/// discovered break is a listed opportunity position, at or past the start
/// and never past that mandatory position: a mandatory break always ends the
/// scan of its line.
pub proof fn lemma_discover_entry_bounded(
    s: Seq<char>,
    breaks: Seq<(usize, bool)>,
    start: int,
    last: int,
    width: int,
    q: int,
)
    requires
        breaks_ascending(breaks),
        mandatory_at(breaks, q),
        start <= q,
    ensures
        ({
            let r = discover_spec(s, breaks, start, last, width);
            start <= r <= q && exists|j: int|
                0 <= j < breaks.len() && #[trigger] breaks[j].0 as int == r
        }),
{
    let jq = choose|j: int| 0 <= j < breaks.len() && breaks[j].0 as int == q && breaks[j].1;
    lemma_discover_entry_bounded_from(s, breaks, 0, start, last, width, start, jq);
}

proof fn lemma_trailing_region(s: Seq<char>)
    ensures
        0 <= trailing_newlines(s) <= s.len(),
        forall|q: int|
            s.len() - trailing_newlines(s) <= q < s.len() ==> #[trigger] s[q] == '\n',
        trailing_newlines(s) < s.len() ==> s[s.len() - trailing_newlines(s) - 1] != '\n',
    decreases s.len(),
{
    if s.len() == 0 {
    } else if s[s.len() - 1] != '\n' {
    } else {
        let front = s.drop_last();
        lemma_trailing_region(front);
        assert forall|q: int|
            s.len() - trailing_newlines(s) <= q < s.len() implies #[trigger] s[q] == '\n' by {
            if q < s.len() - 1 {
                assert(front[q] == s[q]);
                assert(front[q] == '\n');
            }
        }
        if trailing_newlines(s) < s.len() {
            let q0 = s.len() - trailing_newlines(s) - 1;
            assert(front[q0] == s[q0]);
        }
    }
}

proof fn lemma_wrap_region(
    s: Seq<char>,
    breaks: Seq<(usize, bool)>,
    last: int,
    i: int,
    w: int,
    mw: int,
)
    requires
        breaks_ascending(breaks),
        forall|q: int|
            0 <= q < s.len() && #[trigger] s[q] == '\n' ==> mandatory_at(breaks, q),
        s.len() - trailing_newlines(s) <= i <= s.len(),
        0 <= i,
    ensures
        wrap_from(s, breaks, last, i, w, mw) == Seq::new(
            (s.len() - i) as nat,
            |t: int| Seq::<char>::empty(),
        ),
    decreases s.len() - i,
{
    lemma_trailing_region(s);
    let lines = wrap_from(s, breaks, last, i, w, mw);
    let empties = Seq::new((s.len() - i) as nat, |t: int| Seq::<char>::empty());
    if i >= s.len() {
        assert(lines =~= empties);
    } else {
        assert(s[i] == '\n');
        assert(mandatory_at(breaks, i));
        lemma_discover_entry_bounded(s, breaks, i, last, w, i);
        let b = discover_spec(s, breaks, i, last, w);
        assert(b == i);
        assert(line_slice(s, i, i) =~= Seq::<char>::empty());
        lemma_wrap_region(s, breaks, i, i + 1, mw, mw);
        assert(lines =~= empties);
    }
}

proof fn lemma_lines_no_newline(
    s: Seq<char>,
    breaks: Seq<(usize, bool)>,
    last: int,
    i: int,
    w: int,
    mw: int,
)
    requires
        breaks_ascending(breaks),
        forall|q: int|
            0 <= q < s.len() && #[trigger] s[q] == '\n' ==> mandatory_at(breaks, q),
    ensures
        no_newline_in_lines(wrap_from(s, breaks, last, i, w, mw)),
    decreases s.len() - i,
{
    let lines = wrap_from(s, breaks, last, i, w, mw);
    if i < 0 || i >= s.len() {
    } else {
        let b = discover_spec(s, breaks, i, last, w);
        if b < i || b >= s.len() {
        } else {
            let tail = wrap_from(s, breaks, b, b + 1, mw, mw);
            lemma_lines_no_newline(s, breaks, b, b + 1, mw, mw);
            assert forall|k: int, u: int|
                0 <= k < lines.len() && 0 <= u < lines[k].len() implies #[trigger] lines[k][u]
                != '\n' by {
                if k == 0 {
                    assert(lines[0] == line_slice(s, i, b));
                    if u < b - i {
                        assert(lines[0][u] == s[i + u]);
                        if s[i + u] == '\n' {
                            assert(mandatory_at(breaks, i + u));
                            lemma_discover_entry_bounded(s, breaks, i, last, w, i + u);
                            assert(false);
                        }
                    } else {
                        assert(lines[0][u] == char_at(s, b));
                    }
                } else {
                    assert(lines[k] == tail[k - 1]);
                    assert(tail[k - 1][u] != '\n');
                }
            }
        }
    }
}

proof fn lemma_te_bounds(lines: Seq<Seq<char>>)
    ensures
        0 <= trailing_empty_lines(lines) <= lines.len(),
    decreases lines.len(),
{
    if lines.len() > 0 && lines.last().len() == 0 {
        lemma_te_bounds(lines.drop_last());
    }
}

proof fn lemma_te_empties(n: int)
    requires
        n >= 0,
    ensures
        trailing_empty_lines(Seq::new(n as nat, |t: int| Seq::<char>::empty())) == n,
    decreases n,
{
    let empties = Seq::new(n as nat, |t: int| Seq::<char>::empty());
    if n > 0 {
        assert(empties.last().len() == 0);
        assert(empties.drop_last() =~= Seq::new((n - 1) as nat, |t: int| Seq::<char>::empty()));
        lemma_te_empties(n - 1);
    }
}

proof fn lemma_te_cons(l: Seq<char>, rest: Seq<Seq<char>>)
    ensures
        trailing_empty_lines(seq![l] + rest) == if trailing_empty_lines(rest) == rest.len() {
            rest.len() + if l.len() == 0 {
                1int
            } else {
                0int
            }
        } else {
            trailing_empty_lines(rest)
        },
    decreases rest.len(),
{
    reveal_with_fuel(trailing_empty_lines, 2);
    let all = seq![l] + rest;
    if rest.len() == 0 {
        assert(all =~= seq![l]);
        assert(all.last() == l);
        if l.len() == 0 {
            assert(all.drop_last() =~= Seq::<Seq<char>>::empty());
            assert(trailing_empty_lines(all) == 1);
        } else {
            assert(trailing_empty_lines(all) == 0);
        }
    } else {
        assert(all.last() == rest.last());
        assert(all.drop_last() =~= seq![l] + rest.drop_last());
        lemma_te_cons(l, rest.drop_last());
        lemma_te_bounds(rest.drop_last());
        if rest.last().len() != 0 {
            assert(trailing_empty_lines(all) == 0);
            assert(trailing_empty_lines(rest) == 0);
            assert(trailing_empty_lines(rest) != rest.len());
        } else {
            assert(trailing_empty_lines(all) == 1 + trailing_empty_lines(all.drop_last()));
            assert(trailing_empty_lines(rest) == 1 + trailing_empty_lines(rest.drop_last()));
            assert(trailing_empty_lines(all.drop_last()) == trailing_empty_lines(
                seq![l] + rest.drop_last(),
            ));
            if trailing_empty_lines(rest.drop_last()) == rest.drop_last().len() {
                assert(trailing_empty_lines(rest) == rest.len());
            } else {
                assert(trailing_empty_lines(rest) != rest.len());
            }
        }
    }
}

/// The structural properties of the classifier's break list that the
/// newline-preservation argument rests on: ascending positions lying within
/// the text, a mandatory break at every newline and at the final character,
/// no break opportunity immediately before a space, and one immediately
/// before a newline only straight after another newline.
pub open spec fn classifier_shape(s: Seq<char>, breaks: Seq<(usize, bool)>) -> bool {
    &&& breaks_ascending(breaks)
    &&& forall|j: int|
        #![trigger breaks[j].0]
        0 <= j < breaks.len() ==> (breaks[j].0 as int) < s.len()
    &&& forall|q: int|
        0 <= q < s.len() && #[trigger] s[q] == '\n' ==> mandatory_at(breaks, q)
    &&& (s.len() > 0 ==> mandatory_at(breaks, s.len() - 1))
    &&& forall|j: int|
        #![trigger breaks[j].0]
        0 <= j < breaks.len() && breaks[j].0 as int + 1 < s.len() ==> s[breaks[j].0 as int
            + 1] != ' '
    &&& forall|j: int|
        #![trigger breaks[j].0]
        0 <= j < breaks.len() && breaks[j].0 as int + 1 < s.len() && s[breaks[j].0 as int + 1]
            == '\n' ==> s[breaks[j].0 as int] == '\n'
}

proof fn lemma_wrap_prefix_shape(
    s: Seq<char>,
    breaks: Seq<(usize, bool)>,
    last: int,
    i: int,
    w: int,
    mw: int,
)
    requires
        classifier_shape(s, breaks),
        0 <= i,
        i <= s.len() - trailing_newlines(s) - 1,
        i == 0 || exists|j: int| 0 <= j < breaks.len() && #[trigger] breaks[j].0 as int == i - 1,
    ensures
        ({
            let lines = wrap_from(s, breaks, last, i, w, mw);
            let k = trailing_newlines(s);
            lines.len() >= 1 && ((trailing_empty_lines(lines) == (if k >= 1 {
                k - 1
            } else {
                0int
            }) && trailing_empty_lines(lines) < lines.len()) || (i == 0 && lines.len() == 1
                && trailing_empty_lines(lines) == 1 && k == 0))
        }),
    decreases s.len() - i,
{
    lemma_trailing_region(s);
    let k = trailing_newlines(s);
    let q0 = s.len() - k;
    lemma_discover_entry_bounded(s, breaks, i, last, w, s.len() - 1);
    let b = discover_spec(s, breaks, i, last, w);
    let jb = choose|j: int| 0 <= j < breaks.len() && #[trigger] breaks[j].0 as int == b;
    let lines = wrap_from(s, breaks, last, i, w, mw);
    let rest = wrap_from(s, breaks, b, b + 1, mw, mw);
    let line = line_slice(s, i, b);
    assert(lines == seq![line] + rest);
    lemma_te_cons(line, rest);
    if k >= 1 {
        assert(s[q0] == '\n');
        assert(mandatory_at(breaks, q0));
        lemma_discover_entry_bounded(s, breaks, i, last, w, q0);
        assert(b <= q0);
        if b == q0 - 1 {
            assert(breaks[jb].0 as int + 1 == q0);
            assert(s[breaks[jb].0 as int + 1] == '\n');
            assert(s[breaks[jb].0 as int] == '\n');
            assert(s[q0 - 1] != '\n');
            assert(false);
        }
        if b == q0 {
            assert(line.len() >= b - i >= 1);
            lemma_wrap_region(s, breaks, b, b + 1, mw, mw);
            lemma_te_empties(k - 1);
            assert(rest.len() == k - 1);
            assert(trailing_empty_lines(rest) == k - 1);
            assert(trailing_empty_lines(lines) == k - 1);
            assert(lines.len() == k);
        } else {
            assert(b <= q0 - 2);
            lemma_wrap_prefix_shape(s, breaks, b, b + 1, mw, mw);
            assert(trailing_empty_lines(rest) == k - 1 && trailing_empty_lines(rest)
                < rest.len());
            assert(trailing_empty_lines(lines) == k - 1);
        }
    } else {
        if b == s.len() - 1 {
            assert(rest =~= Seq::<Seq<char>>::empty());
            if i < b {
                assert(line.len() >= b - i >= 1);
                assert(trailing_empty_lines(lines) == 0);
            } else {
                assert(s[b] != '\n');
                if char_at(s, b) == ' ' {
                    if i == 0 {
                        assert(line.len() == 0);
                        assert(trailing_empty_lines(lines) == 1 && lines.len() == 1);
                    } else {
                        let jp = choose|j: int|
                            0 <= j < breaks.len() && #[trigger] breaks[j].0 as int == i - 1;
                        assert(breaks[jp].0 as int + 1 == b && b < s.len());
                        assert(s[breaks[jp].0 as int + 1] != ' ');
                        assert(false);
                    }
                } else {
                    assert(line.len() >= 1);
                    assert(trailing_empty_lines(lines) == 0);
                }
            }
        } else {
            assert(b <= s.len() - 2);
            lemma_wrap_prefix_shape(s, breaks, b, b + 1, mw, mw);
            assert(trailing_empty_lines(rest) == 0 && trailing_empty_lines(rest) < rest.len());
            assert(trailing_empty_lines(lines) == 0);
        }
    }
}

/// Newline preservation, end to end: over any break-opportunity list with
/// the classifier's structural shape, the wrapped output's count of trailing
/// newline characters equals the input's, for every input and both widths.
pub proof fn lemma_newline_preservation_wrap(
    s: Seq<char>,
    breaks: Seq<(usize, bool)>,
    width: int,
    first_line_width: int,
)
    requires
        classifier_shape(s, breaks),
    ensures
        trailing_newlines(wrap_paragraph_spec(s, breaks, width, first_line_width))
            == trailing_newlines(s),
{
    lemma_trailing_region(s);
    let k = trailing_newlines(s);
    let lines = wrap_lines_spec(s, breaks, width, first_line_width);
    let out = assembled(lines);
    if s.len() == 0 {
        assert(k == 0);
        assert(lines =~= Seq::<Seq<char>>::empty());
        assert(out == seq!['\n']);
        assert(out.drop_last() =~= Seq::<char>::empty());
        assert(trailing_newlines(out.drop_last()) == 0);
        assert(trailing_newlines(out) == 1);
        assert(correct_trailing(out, s) == out.drop_last());
    } else if k == s.len() {
        lemma_wrap_region(s, breaks, 0, 0, first_line_width, width);
        lemma_te_empties(s.len() as int);
        assert(lines.len() == s.len());
        assert(trailing_empty_lines(lines) == lines.len());
        assert(no_newline_in_lines(lines));
        lemma_join_trailing(lines);
        assert(trailing_newlines(out) == k);
        assert(correct_trailing(out, s) == out);
    } else {
        lemma_wrap_prefix_shape(s, breaks, 0, 0, first_line_width, width);
        lemma_lines_no_newline(s, breaks, 0, 0, first_line_width, width);
        lemma_join_trailing(lines);
        lemma_te_bounds(lines);
        if trailing_empty_lines(lines) < lines.len() {
            assert(trailing_newlines(out) == trailing_empty_lines(lines) + 1);
            if k >= 1 {
                assert(trailing_newlines(out) == k);
                assert(correct_trailing(out, s) == out);
            } else {
                assert(trailing_newlines(out) == 1);
                lemma_trailing_drop(out);
                assert(correct_trailing(out, s) == out.drop_last());
            }
        } else {
            assert(lines.len() == 1 && trailing_empty_lines(lines) == 1 && k == 0);
            assert(trailing_newlines(out) == 1);
            lemma_trailing_drop(out);
            assert(correct_trailing(out, s) == out.drop_last());
        }
    }
}

proof fn lemma_trace_fits(
    s: Seq<char>,
    breaks: Seq<(usize, bool)>,
    last: int,
    i: int,
    w: int,
    mw: int,
)
    requires
        breaks_ascending(breaks),
        0 <= last <= i,
    ensures
        ({
            let tr = wrap_boundaries(s, breaks, last, i, w, mw);
            forall|k: int|
                0 <= k < tr.len() ==> {
                    let b = #[trigger] tr[k];
                    let st = line_start_of(tr, k, i);
                    let pv = prev_boundary(tr, k, last);
                    let wk = if k == 0 {
                        w
                    } else {
                        mw
                    };
                    0 <= pv <= st && st <= b < s.len() && (b == st || b - pv <= wk || (forall|j: int|
                        0 <= j < breaks.len() && st < #[trigger] breaks[j].0 as int && (
                        breaks[j].0 as int) < b ==> !(breaks[j].1 || wrap_permitted(
                            s,
                            pv,
                            breaks[j].0 as int,
                        ))))
                }
        }),
    decreases s.len() - i,
{
    let tr = wrap_boundaries(s, breaks, last, i, w, mw);
    if i < 0 || i >= s.len() {
    } else {
        let b0 = discover_spec(s, breaks, i, last, w);
        if b0 < i || b0 >= s.len() {
        } else {
            lemma_greedy_fit(s, breaks, i, last, w);
            let tail = wrap_boundaries(s, breaks, b0, b0 + 1, mw, mw);
            lemma_trace_fits(s, breaks, b0, b0 + 1, mw, mw);
            assert forall|k: int| 0 <= k < tr.len() implies {
                let b = #[trigger] tr[k];
                let st = line_start_of(tr, k, i);
                let pv = prev_boundary(tr, k, last);
                let wk = if k == 0 {
                    w
                } else {
                    mw
                };
                0 <= pv <= st && st <= b < s.len() && (b == st || b - pv <= wk || (forall|j: int|
                    0 <= j < breaks.len() && st < #[trigger] breaks[j].0 as int && (breaks[j].0
                        as int) < b ==> !(breaks[j].1 || wrap_permitted(
                        s,
                        pv,
                        breaks[j].0 as int,
                    ))))
            } by {
                if k == 0 {
                    assert(tr[0] == b0);
                } else {
                    assert(tr[k] == tail[k - 1]);
                    if k == 1 {
                        assert(line_start_of(tr, k, i) == b0 + 1 == line_start_of(
                            tail,
                            0,
                            b0 + 1,
                        ));
                        assert(prev_boundary(tr, k, last) == b0 == prev_boundary(tail, 0, b0));
                    } else {
                        assert(tr[k - 1] == tail[k - 2]);
                        assert(line_start_of(tr, k, i) == line_start_of(tail, k - 1, b0 + 1));
                        assert(prev_boundary(tr, k, last) == prev_boundary(tail, k - 1, b0));
                    }
                }
            }
        }
    }
}

/// Greedy fit, line level: every produced line whose break lies within the
/// width in effect is no longer than that width, except that the first line
/// may also carry its kept break character; and every line's break either
/// lies within that width measured from the previous boundary, or is the
/// degenerate fallback at the line's own start, or nothing mandatory or
/// permitted strictly between the line's start and the break existed within
/// it (a single unbreakable token then stands on a line of its own).
pub proof fn lemma_greedy_fit_lines(
    s: Seq<char>,
    breaks: Seq<(usize, bool)>,
    last: int,
    i: int,
    w: int,
    mw: int,
)
    requires
        breaks_ascending(breaks),
        0 <= last <= i,
    ensures
        ({
            let lines = wrap_from(s, breaks, last, i, w, mw);
            let tr = wrap_boundaries(s, breaks, last, i, w, mw);
            forall|k: int|
                0 <= k < tr.len() ==> {
                    let b = #[trigger] tr[k];
                    let st = line_start_of(tr, k, i);
                    let pv = prev_boundary(tr, k, last);
                    let wk = if k == 0 {
                        w
                    } else {
                        mw
                    };
                    (b == st || b - pv <= wk || (forall|j: int|
                        0 <= j < breaks.len() && st < #[trigger] breaks[j].0 as int && (
                        breaks[j].0 as int) < b ==> !(breaks[j].1 || wrap_permitted(
                            s,
                            pv,
                            breaks[j].0 as int,
                        )))) && (b - pv <= wk ==> lines[k].len() <= wk + (if k == 0 {
                        1int
                    } else {
                        0int
                    }))
                }
        }),
{
    let lines = wrap_from(s, breaks, last, i, w, mw);
    let tr = wrap_boundaries(s, breaks, last, i, w, mw);
    lemma_trace_fits(s, breaks, last, i, w, mw);
    lemma_lines_match_boundaries(s, breaks, last, i, w, mw);
    assert forall|k: int| 0 <= k < tr.len() implies {
        let b = #[trigger] tr[k];
        let st = line_start_of(tr, k, i);
        let pv = prev_boundary(tr, k, last);
        let wk = if k == 0 {
            w
        } else {
            mw
        };
        (b == st || b - pv <= wk || (forall|j: int|
            0 <= j < breaks.len() && st < #[trigger] breaks[j].0 as int && (breaks[j].0 as int)
                < b ==> !(breaks[j].1 || wrap_permitted(s, pv, breaks[j].0 as int)))) && (b - pv
            <= wk ==> lines[k].len() <= wk + (if k == 0 {
            1int
        } else {
            0int
        }))
    } by {
        let b = tr[k];
        let st = line_start_of(tr, k, i);
        assert(lines[k] == line_slice(s, st, b));
        assert(0 <= st <= b < s.len());
        assert(s.subrange(st, b).len() == b - st);
        assert(lines[k].len() <= b - st + 1);
    }
}

} // verus!
