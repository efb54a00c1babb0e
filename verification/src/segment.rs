//! The segmenter: cuts a text just before each key that follows a separator.
use vstd::prelude::*;
use crate::text::{copy_range, is_whitespace, is_whitespace_char, utf8_width, utf8_width_of};

verus! {

/// A comma or whitespace: what may stand between a value and the next key.
pub open spec fn is_separator(c: char) -> bool {
    c == ',' || is_whitespace(c)
}

/// The index of the character of `text` that starts at byte `offset` of its
/// UTF-8 form; for an offset inside a character, the index of the next one;
/// for one behind the end, the length.
pub open spec fn char_index(text: Seq<char>, offset: int) -> int
    decreases text.len(),
{
    if offset <= 0 || text.len() == 0 {
        0
    } else {
        1 + char_index(text.drop_first(), offset - utf8_width(text[0]))
    }
}

/// The first index at or behind `from` that holds no separator.
pub open spec fn skip_separators(text: Seq<char>, from: int) -> int
    decreases text.len() - from,
{
    if 0 <= from < text.len() && is_separator(text[from]) {
        skip_separators(text, from + 1)
    } else {
        from
    }
}

/// Where the text is cut for the boundary that starts at byte `offset`:
/// behind the separators, just before the key.
pub open spec fn cut_point(text: Seq<char>, offset: usize) -> int {
    skip_separators(text, char_index(text, offset as int))
}

/// The segments of `text` from index `last` on: one ends at each cut point
/// that lies behind the previous one, and the final one runs to the end.
pub open spec fn pieces(text: Seq<char>, offsets: Seq<usize>, last: int) -> Seq<Seq<char>>
    decreases offsets.len(),
{
    if offsets.len() == 0 {
        seq![text.subrange(last, text.len() as int)]
    } else {
        let c = cut_point(text, offsets[0]);
        if last < c <= text.len() {
            seq![text.subrange(last, c)] + pieces(text, offsets.drop_first(), c)
        } else {
            pieces(text, offsets.drop_first(), last)
        }
    }
}

/// The segments of a whole text.
pub open spec fn segments_of(text: Seq<char>, offsets: Seq<usize>) -> Seq<Seq<char>> {
    pieces(text, offsets, 0)
}

/// The character sequences that a vector of character vectors holds.
pub open spec fn views(v: Seq<Vec<char>>) -> Seq<Seq<char>> {
    Seq::new(v.len(), |i: int| v[i]@)
}

/// The segments from `last` on, put end to end, are the text from `last`
/// on: the segmenter drops and adds nothing, whatever the offsets are.
pub proof fn lemma_pieces_cover(text: Seq<char>, offsets: Seq<usize>, last: int)
    requires
        0 <= last <= text.len(),
    ensures
        pieces(text, offsets, last).flatten() =~= text.subrange(last, text.len() as int),
    decreases offsets.len(),
{
    let n = text.len() as int;
    if offsets.len() == 0 {
        let one = seq![text.subrange(last, n)];
        assert(one.drop_first() =~= Seq::<Seq<char>>::empty());
        assert(one.drop_first().flatten() =~= Seq::<char>::empty());
        assert(one.flatten() =~= one.first() + one.drop_first().flatten());
    } else {
        let c = cut_point(text, offsets[0]);
        if last < c <= n {
            let rest = pieces(text, offsets.drop_first(), c);
            let all = seq![text.subrange(last, c)] + rest;
            lemma_pieces_cover(text, offsets.drop_first(), c);
            assert(all.drop_first() =~= rest);
            assert(all.flatten() =~= all.first() + all.drop_first().flatten());
        } else {
            lemma_pieces_cover(text, offsets.drop_first(), last);
        }
    }
}

/// The segments of a text, put end to end, are the text.
pub proof fn lemma_segments_cover(text: Seq<char>, offsets: Seq<usize>)
    ensures
        segments_of(text, offsets).flatten() =~= text,
{
    lemma_pieces_cover(text, offsets, 0);
    assert(text.subrange(0, text.len() as int) =~= text);
}

/// The number of bytes that the first `i` characters of `text` take in
/// UTF-8.
pub open spec fn prefix_bytes(text: Seq<char>, i: int) -> int
    decreases i,
{
    if i <= 0 {
        0
    } else {
        prefix_bytes(text, i - 1) + utf8_width(text[i - 1])
    }
}

/// `chars` characters into `text` is `bytes` bytes into its UTF-8 form.
pub open spec fn is_position(text: Seq<char>, chars: int, bytes: int) -> bool {
    &&& 0 <= chars <= text.len()
    &&& bytes == prefix_bytes(text, chars)
    &&& 0 <= bytes <= 4 * chars
}

/// The search for the character at a byte offset can start at any position
/// that lies at or before that offset.
pub proof fn lemma_char_index_resume(text: Seq<char>, i: int, offset: int)
    requires
        0 <= i <= text.len(),
        prefix_bytes(text, i) <= offset,
    ensures
        char_index(text, offset) == i + char_index(text.skip(i), offset - prefix_bytes(text, i)),
    decreases i,
{
    if i == 0 {
        assert(text.skip(0) =~= text);
    } else {
        lemma_char_index_resume(text, i - 1, offset);
        let tail = text.skip(i - 1);
        assert(tail.drop_first() =~= text.skip(i));
        assert(tail[0] == text[i - 1]);
    }
}

/// Moves a position forward to the character that starts at byte `offset`.
pub fn advance(text: &Vec<char>, chars: usize, bytes: u128, offset: usize) -> (r: (usize, u128))
    requires
        is_position(text@, chars as int, bytes as int),
        bytes <= offset,
    ensures
        r.0 == char_index(text@, offset as int),
        is_position(text@, r.0 as int, r.1 as int),
{
    let n: usize = text.len();
    let mut ci: usize = chars;
    let mut cb: u128 = bytes;
    proof {
        lemma_char_index_resume(text@, chars as int, offset as int);
    }
    while ci < n && cb < offset as u128
        invariant
            n == text.len(),
            is_position(text@, ci as int, cb as int),
            cb <= offset ==> char_index(text@, offset as int) == ci + char_index(
                text@.skip(ci as int),
                offset - cb,
            ),
            cb > offset ==> char_index(text@, offset as int) == ci,
        decreases n - ci,
    {
        let w: usize = utf8_width_of(text[ci]);
        proof {
            let tail = text@.skip(ci as int);
            assert(tail.drop_first() =~= text@.skip(ci + 1));
            assert(tail[0] == text@[ci as int]);
            if cb + w > offset {
                assert(char_index(text@.skip(ci + 1), offset - cb - w) == 0);
            }
        }
        cb = cb + w as u128;
        ci += 1;
    }
    proof {
        if cb <= offset {
            assert(char_index(text@.skip(ci as int), offset - cb) == 0);
        }
    }
    (ci, cb)
}

/// Finds the character that starts at byte `offset`; see `char_index`.
pub fn char_index_of(text: &Vec<char>, offset: usize) -> (i: usize)
    ensures
        i == char_index(text@, offset as int),
        i <= text.len(),
{
    advance(text, 0, 0, offset).0
}

/// Steps over the separators that start at `from`; see `skip_separators`.
pub fn skip_separators_from(text: &Vec<char>, from: usize) -> (j: usize)
    requires
        from <= text.len(),
    ensures
        j == skip_separators(text@, from as int),
        from <= j <= text.len(),
{
    let n: usize = text.len();
    let mut j: usize = from;
    while j < n && (text[j] == ',' || is_whitespace_char(text[j]))
        invariant
            from <= j <= n == text.len(),
            skip_separators(text@, from as int) == skip_separators(text@, j as int),
        decreases n - j,
    {
        j += 1;
    }
    j
}

/// Cuts `text` at the boundaries that start at the byte offsets `offsets`.
pub fn split_segments(text: &Vec<char>, offsets: &Vec<usize>) -> (r: Vec<Vec<char>>)
    ensures
        views(r@) == segments_of(text@, offsets@),
        views(r@).flatten() == text@,
{
    let n: usize = text.len();
    let mut out: Vec<Vec<char>> = Vec::new();
    let mut last: usize = 0;
    let mut chars: usize = 0;
    let mut bytes: u128 = 0;
    let mut k: usize = 0;
    assert(offsets@.skip(0) =~= offsets@);
    assert(views(out@) + pieces(text@, offsets@, 0) =~= pieces(text@, offsets@, 0));
    while k < offsets.len()
        invariant
            last <= n == text.len(),
            k <= offsets.len(),
            is_position(text@, chars as int, bytes as int),
            segments_of(text@, offsets@) == views(out@) + pieces(
                text@,
                offsets@.skip(k as int),
                last as int,
            ),
        decreases offsets.len() - k,
    {
        let offset: usize = offsets[k];
        if bytes > offset as u128 {
            chars = 0;
            bytes = 0;
        }
        let at = advance(text, chars, bytes, offset);
        chars = at.0;
        bytes = at.1;
        let c: usize = skip_separators_from(text, chars);
        proof {
            assert(offsets@.skip(k as int).drop_first() =~= offsets@.skip(k + 1));
            assert(offsets@.skip(k as int)[0] == offsets@[k as int]);
        }
        if last < c {
            let ghost before = views(out@);
            let piece = copy_range(text, last, c);
            out.push(piece);
            proof {
                assert(views(out@) =~= before.push(piece@));
                assert(before + (seq![piece@] + pieces(text@, offsets@.skip(k + 1), c as int))
                    =~= before.push(piece@) + pieces(text@, offsets@.skip(k + 1), c as int));
            }
            last = c;
        }
        k += 1;
    }
    let ghost before = views(out@);
    let piece = copy_range(text, last, n);
    out.push(piece);
    proof {
        assert(offsets@.skip(k as int) =~= Seq::<usize>::empty());
        assert(views(out@) =~= before.push(piece@));
        assert(before + seq![piece@] =~= before.push(piece@));
        lemma_segments_cover(text@, offsets@);
    }
    out
}

} // verus!
