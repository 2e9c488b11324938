//! Byte ranges of the source text, and cutting the text along them.

use vstd::prelude::*;
use vstd::string::StringSliceAdditionalSpecFns;
use vstd::utf8::*;

verus! {

/// A half-open range `start..end` of byte offsets into the source text.
#[derive(Clone, Copy, PartialEq, Eq, Debug, Hash, Structural)]
pub struct TextRange {
    pub start: usize,
    pub end: usize,
}

impl TextRange {
    /// The range `start..end`.
    pub fn new(start: usize, end: usize) -> (r: TextRange)
        ensures
            r == (TextRange { start, end }),
    {
        TextRange { start, end }
    }

    /// The number of bytes in the range; an inverted range holds none.
    pub open spec fn spec_len(self) -> int {
        if self.start <= self.end {
            self.end - self.start
        } else {
            0
        }
    }

    /// The number of bytes in the range; an inverted range holds none.
    pub fn len(self) -> (r: usize)
        ensures
            r as int == self.spec_len(),
    {
        if self.start <= self.end {
            self.end - self.start
        } else {
            0
        }
    }

    /// Whether the range lies inside a text of `len` bytes.
    pub open spec fn fits(self, len: int) -> bool {
        self.start <= self.end && self.end <= len
    }

    /// The bytes of `bytes` that the range covers.
    pub open spec fn of(self, bytes: Seq<u8>) -> Seq<u8>
        recommends
            self.fits(bytes.len() as int),
    {
        bytes.subrange(self.start as int, self.end as int)
    }
}

/// The common part of two ranges, where they share at least one byte.
pub open spec fn spec_intersect(r1: TextRange, r2: TextRange) -> Option<TextRange> {
    let start = if r1.start >= r2.start { r1.start } else { r2.start };
    let end = if r1.end <= r2.end { r1.end } else { r2.end };
    if end > start {
        Some(TextRange { start, end })
    } else {
        None
    }
}

/// The common part of two ranges; `None` when they share no byte.
pub fn intersect(r1: TextRange, r2: TextRange) -> (r: Option<TextRange>)
    ensures
        r == spec_intersect(r1, r2),
{
    let start = if r1.start >= r2.start { r1.start } else { r2.start };
    let end = if r1.end <= r2.end { r1.end } else { r2.end };
    if end > start {
        Some(TextRange { start, end })
    } else {
        None
    }
}

/// `range` as seen from `offset`: both ends moved down by `offset`.
pub fn relative_range(offset: usize, range: TextRange) -> (r: TextRange)
    requires
        offset <= range.start,
        offset <= range.end,
    ensures
        r.start == range.start - offset,
        r.end == range.end - offset,
{
    TextRange { start: range.start - offset, end: range.end - offset }
}

/// In UTF-8 text, the position after an ASCII byte starts a character or ends
/// the text.
pub proof fn lemma_boundary_after_ascii(bytes: Seq<u8>, i: int)
    requires
        valid_utf8(bytes),
        0 <= i < bytes.len(),
        bytes[i] < 0x80,
    ensures
        is_char_boundary(bytes, i + 1),
    decreases bytes.len(),
{
    let k = length_of_first_scalar(bytes);
    reveal_with_fuel(is_char_boundary, 2);
    if i < k {
        assert(i == 0);
    } else {
        lemma_boundary_after_ascii(pop_first_scalar(bytes), i - k);
    }
}

/// Where a position of UTF-8 text may be cut: at either end, before a byte
/// that is no continuation byte, or after an ASCII byte.
pub open spec fn is_cut(bytes: Seq<u8>, i: int) -> bool {
    0 <= i <= bytes.len() && (i == 0 || i == bytes.len() || !is_continuation_byte(bytes[i])
        || bytes[i - 1] < 0x80)
}

/// Every cut of UTF-8 text is a character boundary.
pub proof fn lemma_cut_is_boundary(bytes: Seq<u8>, i: int)
    requires
        valid_utf8(bytes),
        is_cut(bytes, i),
    ensures
        is_char_boundary(bytes, i),
{
    if i == 0 || i == bytes.len() {
        is_char_boundary_start_end_of_seq(bytes);
    } else if bytes[i - 1] < 0x80 {
        lemma_boundary_after_ascii(bytes, i - 1);
    } else {
        is_char_boundary_iff_not_is_continuation_byte(bytes, i);
    }
}

/// The part of `text` that `range` covers.
pub fn slice_str<'a>(text: &'a str, range: TextRange) -> (r: &'a str)
    requires
        range.fits(text.spec_bytes().len() as int),
        is_char_boundary(text.spec_bytes(), range.start as int),
        is_char_boundary(text.spec_bytes(), range.end as int),
    ensures
        r.spec_bytes() == range.of(text.spec_bytes()),
{
    let ghost bytes = text.spec_bytes();
    proof {
        encode_utf8_valid_utf8(text@);
    }
    let (head, _) = text.split_at(range.end);
    proof {
        valid_utf8_split(bytes, range.end as int);
        let h = head.spec_bytes();
        assert(h == bytes.subrange(0, range.end as int));
        if range.start == 0 || range.start == range.end {
            is_char_boundary_start_end_of_seq(h);
        } else {
            is_char_boundary_iff_not_is_continuation_byte(bytes, range.start as int);
            is_char_boundary_iff_not_is_continuation_byte(h, range.start as int);
        }
    }
    let (_, mid) = head.split_at(range.start);
    assert(mid.spec_bytes() == range.of(bytes));
    mid
}

} // verus!
