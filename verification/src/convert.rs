//! Conversion of break-opportunity positions from UTF-8 byte offsets, as the
//! Unicode classifier reports them, to character indices, the unit the rest
//! of the engine scans by.
//!
//! The classifier reports the byte index just past the break's last
//! character; the engine wants the index of that character itself. For a
//! byte offset `p`, the conversion counts the characters whose encodings lie
//! entirely within the first `p` bytes and steps back by one, so the
//! resulting position indexes the content up to the break.

use vstd::prelude::*;

verus! {

/// The length in bytes of one character's UTF-8 encoding, determined by its
/// code point alone: one byte below U+0080, two below U+0800, three below
/// U+10000, four otherwise.
pub open spec fn utf8_len(c: char) -> int {
    if (c as u32) < 0x80 {
        1
    } else if (c as u32) < 0x800 {
        2
    } else if (c as u32) < 0x10000 {
        3
    } else {
        4
    }
}

/// How many leading characters of `s` have their UTF-8 encodings entirely
/// within the first `bytes` bytes.
pub open spec fn chars_within(s: Seq<char>, bytes: int) -> int
    decreases s.len(),
{
    if s.len() == 0 {
        0
    } else if utf8_len(s[0]) <= bytes {
        1 + chars_within(s.drop_first(), bytes - utf8_len(s[0]))
    } else {
        0
    }
}

/// The character index of the character that ends at byte boundary
/// `bytepos`: one less than the count of characters within the boundary,
/// clamped at zero for a degenerate boundary at the very start.
pub open spec fn shifted_pos(s: Seq<char>, bytepos: int) -> int {
    let k = chars_within(s, bytepos);
    if k >= 1 {
        k - 1
    } else {
        0
    }
}

/// The classifier's break list with every byte position converted to the
/// character index of the content up to the break.
pub open spec fn convert_breaks_spec(s: Seq<char>, raw: Seq<(usize, bool)>) -> Seq<
    (usize, bool),
> {
    raw.map_values(|pb: (usize, bool)| (shifted_pos(s, pb.0 as int) as usize, pb.1))
}

/// The byte length of one character's UTF-8 encoding.
pub fn utf8_len_of(c: char) -> (n: usize)
    ensures
        n as int == utf8_len(c),
{
    let u: u32 = c as u32;
    if u < 0x80 {
        1
    } else if u < 0x800 {
        2
    } else if u < 0x10000 {
        3
    } else {
        4
    }
}

/// Count the leading characters of `text` that lie entirely within the
/// first `bytes` bytes.
pub fn chars_within_bytes(text: &Vec<char>, bytes: usize) -> (k: usize)
    ensures
        k as int == chars_within(text@, bytes as int),
{
    let mut k: usize = 0;
    let mut budget: usize = bytes;
    proof {
        assert(text@.skip(0) =~= text@);
    }
    while k < text.len() && utf8_len_of(text[k]) <= budget
        invariant
            k <= text.len(),
            budget <= bytes,
            chars_within(text@, bytes as int) == k + chars_within(
                text@.skip(k as int),
                budget as int,
            ),
        decreases text.len() - k,
    {
        proof {
            let tail = text@.skip(k as int);
            assert(tail[0] == text@[k as int]);
            assert(tail.drop_first() =~= text@.skip(k as int + 1));
        }
        budget = budget - utf8_len_of(text[k]);
        k = k + 1;
    }
    proof {
        let tail = text@.skip(k as int);
        if k < text.len() {
            assert(tail[0] == text@[k as int]);
        }
        assert(chars_within(tail, budget as int) == 0);
    }
    k
}

/// Convert the classifier's byte-offset break list into character indices.
pub fn convert_breaks(text: &Vec<char>, raw: &Vec<(usize, bool)>) -> (r: Vec<(usize, bool)>)
    ensures
        r@ == convert_breaks_spec(text@, raw@),
{
    let mut r: Vec<(usize, bool)> = Vec::new();
    let mut idx: usize = 0;
    while idx < raw.len()
        invariant
            idx <= raw.len(),
            r@ == convert_breaks_spec(text@, raw@.take(idx as int)),
        decreases raw.len() - idx,
    {
        let pair: (usize, bool) = raw[idx];
        let k = chars_within_bytes(text, pair.0);
        let pos: usize = if k >= 1 {
            k - 1
        } else {
            0
        };
        r.push((pos, pair.1));
        idx = idx + 1;
        proof {
            assert(r@ =~= convert_breaks_spec(text@, raw@.take(idx as int)));
        }
    }
    proof {
        assert(raw@.take(raw.len() as int) =~= raw@);
    }
    r
}

} // verus!
