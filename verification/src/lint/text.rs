//! Lines and characters of a text, read off its UTF-8 bytes.
//!
//! A line starts at offset 0 and after every line feed. A character starts
//! at every byte that is not a UTF-8 continuation byte, so the characters of
//! a stretch of bytes are counted without decoding them.

use vstd::prelude::*;
use vstd::utf8::*;
use vstd::string::StringSliceAdditionalSpecFns;

verus! {

/// The line feed byte.
pub const LINE_FEED: u8 = 0x0A;

/// Whether a line starts at offset `o`: at the very beginning, or right
/// after a line feed.
pub open spec fn is_line_start(bytes: Seq<u8>, o: int) -> bool {
    o == 0 || (0 < o <= bytes.len() && bytes[o - 1] == LINE_FEED)
}

/// Whether `starts` lists the line starts of `bytes`: all of them, each
/// once, in increasing order.
pub open spec fn is_line_index(bytes: Seq<u8>, starts: Seq<usize>) -> bool {
    &&& starts.len() > 0
    &&& starts[0] == 0
    &&& forall|i: int, j: int| 0 <= i < j < starts.len() ==> starts[i] < starts[j]
    &&& forall|i: int| 0 <= i < starts.len() ==> is_line_start(bytes, #[trigger] starts[i] as int)
    &&& forall|o: int|
        #[trigger] is_line_start(bytes, o) ==> exists|i: int|
            0 <= i < starts.len() && #[trigger] starts[i] == o
}

/// The number of line feeds among the first `off` bytes.
pub open spec fn newlines_before(bytes: Seq<u8>, off: int) -> nat
    decreases off,
{
    if off <= 0 {
        0
    } else {
        newlines_before(bytes, off - 1) + if bytes[off - 1] == LINE_FEED {
            1nat
        } else {
            0nat
        }
    }
}

/// The start of the line that offset `off` lies on: the greatest line start
/// that is not beyond `off`.
pub open spec fn line_start_at(bytes: Seq<u8>, off: int) -> int
    decreases off,
{
    if off <= 0 {
        0
    } else if bytes[off - 1] == LINE_FEED {
        off
    } else {
        line_start_at(bytes, off - 1)
    }
}

/// The line of offset `off`, counted from 1.
pub open spec fn line_at(bytes: Seq<u8>, off: int) -> nat {
    newlines_before(bytes, off) + 1
}

/// The column of offset `off`, counted from 1: one more than the number
/// of characters between the start of its line and the offset.
pub open spec fn column_at(bytes: Seq<u8>, off: int) -> nat {
    scalar_count(bytes.subrange(line_start_at(bytes, off), off)) + 1
}

/// The number of characters that start in `bytes`: the bytes that are not
/// continuation bytes.
pub open spec fn scalar_count(bytes: Seq<u8>) -> nat
    decreases bytes.len(),
{
    if bytes.len() == 0 {
        0
    } else {
        scalar_count(bytes.drop_last()) + if is_continuation_byte(bytes.last()) {
            0nat
        } else {
            1nat
        }
    }
}

/// The line start found for an offset is a line start, is not beyond the
/// offset, and no line feed lies between the two.
pub proof fn lemma_line_start_at(bytes: Seq<u8>, off: int)
    requires
        0 <= off <= bytes.len(),
    ensures
        is_line_start(bytes, line_start_at(bytes, off)),
        0 <= line_start_at(bytes, off) <= off,
        forall|o: int| line_start_at(bytes, off) < o <= off ==> !is_line_start(bytes, o),
    decreases off,
{
    if off > 0 && bytes[off - 1] != LINE_FEED {
        lemma_line_start_at(bytes, off - 1);
    }
}

/// In a line index, the entry numbered by the line feeds before an offset is
/// the start of that offset's line, and the next entry lies beyond the
/// offset.
pub proof fn lemma_line_index_entry(bytes: Seq<u8>, starts: Seq<usize>, off: int)
    requires
        is_line_index(bytes, starts),
        0 <= off <= bytes.len(),
    ensures
        newlines_before(bytes, off) < starts.len(),
        starts[newlines_before(bytes, off) as int] == line_start_at(bytes, off),
        newlines_before(bytes, off) + 1 < starts.len() ==> starts[newlines_before(bytes, off) as int
            + 1] > off,
    decreases off,
{
    if off > 0 {
        lemma_line_index_entry(bytes, starts, off - 1);
        let k = newlines_before(bytes, off - 1) as int;
        if bytes[off - 1] == LINE_FEED {
            assert(is_line_start(bytes, off));
            let i = choose|i: int| 0 <= i < starts.len() && #[trigger] starts[i] == off;
            assert(i > k) by {
                lemma_line_start_at(bytes, off - 1);
                if i < k {
                    assert(starts[i] < starts[k]);
                }
            }
            assert(i == k + 1) by {
                if i > k + 1 {
                    assert(starts[k + 1] < starts[i]);
                }
            }
            if k + 2 < starts.len() {
                assert(starts[k + 1] < starts[k + 2]);
            }
        } else {
            if k + 1 < starts.len() {
                assert(is_line_start(bytes, starts[k + 1] as int));
            }
        }
    } else {
        if 1 < starts.len() {
            assert(starts[0] < starts[1]);
        }
    }
}

/// Only one entry of a line index can be the last that is not beyond an
/// offset.
pub proof fn lemma_line_index_unique(starts: Seq<usize>, off: int, a: int, b: int)
    requires
        forall|i: int, j: int| 0 <= i < j < starts.len() ==> starts[i] < starts[j],
        0 <= a < starts.len(),
        0 <= b < starts.len(),
        starts[a] <= off,
        starts[b] <= off,
        a + 1 < starts.len() ==> starts[a + 1] > off,
        b + 1 < starts.len() ==> starts[b + 1] > off,
    ensures
        a == b,
{
    if a < b {
        if a + 1 < b {
            assert(starts[a + 1] < starts[b]);
        }
    } else if b < a {
        if b + 1 < a {
            assert(starts[b + 1] < starts[a]);
        }
    }
}


/// Whether two byte strings hold the same bytes.
pub fn bytes_eq(a: &[u8], b: &[u8]) -> (r: bool)
    ensures
        r == (a@ == b@),
{
    if a.len() != b.len() {
        return false;
    }
    let mut i: usize = 0;
    while i < a.len()
        invariant
            i <= a@.len(),
            a@.len() == b@.len(),
            forall|j: int| 0 <= j < i ==> a@[j] == b@[j],
        decreases a@.len() - i,
    {
        if a[i] != b[i] {
            return false;
        }
        i += 1;
    }
    assert(a@ =~= b@);
    true
}

/// Whether two strings hold the same characters. Two strings are equal
/// exactly when their UTF-8 bytes are.
pub fn str_eq(a: &str, b: &str) -> (r: bool)
    ensures
        r == (a@ == b@),
{
    proof {
        encode_utf8_decode_utf8(a@);
        encode_utf8_decode_utf8(b@);
    }
    bytes_eq(a.as_bytes(), b.as_bytes())
}


/// The text that the bytes from `start` to `end` spell, if they are UTF-8.
pub open spec fn span_text(bytes: Seq<u8>, start: int, end: int) -> Option<Seq<char>> {
    if valid_utf8(bytes.subrange(start, end)) {
        Some(decode_utf8(bytes.subrange(start, end)))
    } else {
        None
    }
}

/// Where a prefix of a UTF-8 text is itself UTF-8, it ends at a character
/// boundary of the text.
pub proof fn lemma_valid_prefix_ends_at_boundary(bytes: Seq<u8>, m: int)
    requires
        valid_utf8(bytes),
        0 <= m <= bytes.len(),
        valid_utf8(bytes.subrange(0, m)),
    ensures
        is_char_boundary(bytes, m),
    decreases bytes.len(),
{
    if m > 0 {
        let head = bytes.subrange(0, m);
        assert(head[0] == bytes[0]);
        let width = length_of_first_scalar(bytes);
        assert(width == length_of_first_scalar(head));
        assert(pop_first_scalar(head) =~= pop_first_scalar(bytes).subrange(0, m - width));
        lemma_valid_prefix_ends_at_boundary(pop_first_scalar(bytes), m - width);
    }
}

/// Cuts the text from `start` to `end` out of `src`, where those bytes are
/// UTF-8.
pub fn text_between(src: &str, start: usize, end: usize) -> (text: Option<&str>)
    requires
        start <= end <= encode_utf8(src@).len(),
    ensures
        match text {
            Some(t) => span_text(encode_utf8(src@), start as int, end as int) == Some(t@),
            None => span_text(encode_utf8(src@), start as int, end as int) is None,
        },
{
    let ghost bytes = encode_utf8(src@);
    let ghost span = bytes.subrange(start as int, end as int);
    proof {
        encode_utf8_valid_utf8(src@);
    }
    if start == end {
        proof {
            reveal_strlit("");
            assert(span =~= Seq::<u8>::empty());
            assert(decode_utf8(span) =~= Seq::<char>::empty());
        }
        return Some("");
    }
    if !src.is_char_boundary(start) {
        proof {
            is_char_boundary_iff_not_is_continuation_byte(bytes, start as int);
            assert(span[0] == bytes[start as int]);
        }
        return None;
    }
    if !src.is_char_boundary(end) {
        proof {
            is_char_boundary_start_end_of_seq(bytes);
            let tail = bytes.subrange(start as int, bytes.len() as int);
            valid_utf8_split(bytes, start as int);
            if valid_utf8(span) {
                assert(tail.subrange(0, end - start) =~= span);
                lemma_valid_prefix_ends_at_boundary(tail, end - start);
                is_char_boundary_iff_not_is_continuation_byte(tail, end - start);
                is_char_boundary_iff_not_is_continuation_byte(bytes, end as int);
                assert(tail[end - start] == bytes[end as int]);
            }
        }
        return None;
    }
    let (head, _) = src.split_at(end);
    proof {
        valid_utf8_split(bytes, end as int);
        is_char_boundary_iff_not_is_continuation_byte(bytes, start as int);
        is_char_boundary_iff_not_is_continuation_byte(head.spec_bytes(), start as int);
        assert(head.spec_bytes()[start as int] == bytes[start as int]);
    }
    let (_, text) = head.split_at(start);
    proof {
        assert(text.spec_bytes() =~= span);
        valid_utf8_split(head.spec_bytes(), start as int);
        encode_utf8_decode_utf8(text@);
    }
    Some(text)
}


/// The characters that start in two stretches of bytes are those that
/// start in the one and those that start in the other.
pub proof fn lemma_scalar_count_concat(a: Seq<u8>, b: Seq<u8>)
    ensures
        scalar_count(a + b) == scalar_count(a) + scalar_count(b),
    decreases b.len(),
{
    if b.len() == 0 {
        assert(a + b =~= a);
    } else {
        lemma_scalar_count_concat(a, b.drop_last());
        assert((a + b).drop_last() =~= a + b.drop_last());
        assert((a + b).last() == b.last());
    }
}

/// One character starts in the bytes of the first character of a text.
pub proof fn lemma_scalar_count_first(bytes: Seq<u8>)
    requires
        valid_first_scalar(bytes),
    ensures
        scalar_count(take_first_scalar(bytes)) == 1,
{
    let first = take_first_scalar(bytes);
    let width = length_of_first_scalar(bytes);
    assert(first.len() == width);
    assert(forall|i: int| 0 <= i < width ==> first[i] == bytes[i]);
    assert(!is_continuation_byte(first[0]));
    assert(forall|i: int| 1 <= i < width ==> is_continuation_byte(first[i]));
    let a = first.drop_last();
    assert(a.len() == width - 1);
    if width >= 2 {
        assert(first.last() == first[width - 1]);
        assert(scalar_count(first) == scalar_count(a));
        let b = a.drop_last();
        if width >= 3 {
            assert(a.last() == first[width - 2]);
            assert(scalar_count(a) == scalar_count(b));
            let c = b.drop_last();
            if width >= 4 {
                assert(b.last() == first[width - 3]);
                assert(scalar_count(b) == scalar_count(c));
                assert(c.last() == first[0]);
                assert(c.drop_last().len() == 0);
                assert(scalar_count(c.drop_last()) == 0);
                assert(scalar_count(c) == 1);
            } else {
                assert(b.last() == first[0]);
                assert(b.drop_last().len() == 0);
                assert(scalar_count(b.drop_last()) == 0);
                assert(scalar_count(b) == 1);
            }
        } else {
            assert(a.last() == first[0]);
            assert(a.drop_last().len() == 0);
            assert(scalar_count(a.drop_last()) == 0);
            assert(scalar_count(a) == 1);
        }
    } else {
        assert(first.last() == first[0]);
        assert(a.len() == 0);
        assert(scalar_count(a) == 0);
        assert(scalar_count(first) == 1);
    }
}

/// As many characters start in a UTF-8 text as the text has characters.
pub proof fn lemma_scalar_count_of_text(bytes: Seq<u8>)
    requires
        valid_utf8(bytes),
    ensures
        scalar_count(bytes) == decode_utf8(bytes).len(),
    decreases bytes.len(),
{
    if bytes.len() > 0 {
        let first = take_first_scalar(bytes);
        let rest = pop_first_scalar(bytes);
        lemma_scalar_count_first(bytes);
        lemma_scalar_count_of_text(rest);
        assert(bytes =~= first + rest);
        lemma_scalar_count_concat(first, rest);
    }
}

/// After a one-byte character comes a character boundary.
pub proof fn lemma_boundary_after_ascii(bytes: Seq<u8>, i: int)
    requires
        valid_utf8(bytes),
        0 <= i < bytes.len(),
        is_char_boundary(bytes, i),
        is_leading_byte_width_1(bytes[i]),
    ensures
        is_char_boundary(bytes, i + 1),
    decreases bytes.len(),
{
    let rest = pop_first_scalar(bytes);
    let width = length_of_first_scalar(bytes);
    if i > 0 {
        assert(is_char_boundary(rest, i - width));
        assert(rest[i - width] == bytes[i]);
        lemma_boundary_after_ascii(rest, i - width);
    } else {
        assert(is_char_boundary(rest, 0));
    }
}

/// The column of an offset at a character boundary is one more than the
/// number of characters of the text between the start of its line and the
/// offset.
pub proof fn lemma_column_counts_characters(bytes: Seq<u8>, off: int)
    requires
        valid_utf8(bytes),
        0 <= off <= bytes.len(),
        is_char_boundary(bytes, off),
    ensures
        span_text(bytes, line_start_at(bytes, off), off) is Some,
        column_at(bytes, off) == span_text(bytes, line_start_at(bytes, off), off)->0.len() + 1,
{
    let start = line_start_at(bytes, off);
    lemma_line_start_at(bytes, off);
    is_char_boundary_start_end_of_seq(bytes);
    if start > 0 {
        is_char_boundary_iff_not_is_continuation_byte(bytes, start - 1);
        lemma_boundary_after_ascii(bytes, start - 1);
    }
    let tail = bytes.subrange(start, bytes.len() as int);
    valid_utf8_split(bytes, start);
    is_char_boundary_start_end_of_seq(tail);
    if off < bytes.len() {
        is_char_boundary_iff_not_is_continuation_byte(bytes, off);
        assert(tail[off - start] == bytes[off]);
        is_char_boundary_iff_not_is_continuation_byte(tail, off - start);
    }
    valid_utf8_split(tail, off - start);
    assert(tail.subrange(0, off - start) =~= bytes.subrange(start, off));
    lemma_scalar_count_of_text(bytes.subrange(start, off));
}

/// Whether a byte continues a character that an earlier byte began.
pub fn is_continuation(b: u8) -> (r: bool)
    ensures
        r == is_continuation_byte(b),
{
    0x80 <= b && b <= 0xbf
}

} // verus!
