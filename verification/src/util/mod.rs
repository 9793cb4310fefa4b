//! Validators for the content of literals, and a predicate on spans.

pub mod allowed_chars;
pub mod escape;

use crate::tree::TextRange;
use vstd::prelude::*;

verus! {

/// Whether `offset` lies in `range`, whose end is excluded.
pub open spec fn spec_contains(range: TextRange, offset: usize) -> bool {
    range.start <= offset < range.end
}

/// Whether `other` lies in `range` altogether.
pub open spec fn spec_contains_range(range: TextRange, other: TextRange) -> bool {
    range.start <= other.start && other.end <= range.end
}

/// Two spans overlap where one holds the other, or holds the other's start or end.
pub open spec fn spec_overlaps(range: TextRange, other: TextRange) -> bool {
    ||| spec_contains_range(range, other)
    ||| spec_contains_range(other, range)
    ||| spec_contains(range, other.start)
    ||| spec_contains(range, other.end)
    ||| spec_contains(other, range.start)
    ||| spec_contains(other, range.end)
}

/// Overlapping goes both ways: where a span overlaps another, the other overlaps it.
pub proof fn lemma_overlaps_is_symmetric(range: TextRange, other: TextRange)
    ensures
        spec_overlaps(range, other) == spec_overlaps(other, range),
{
}

/// Calls `rowan::TextRange::contains_range` on the ranges `start..end` and
/// `other_start..other_end`. It is taken to hold exactly where the first range starts no
/// later and ends no earlier than the second. `TextRange::new` panics on a range that ends
/// before it starts, so such ranges are left out.
#[verifier::external_body]
fn text_range_contains_range(start: u32, end: u32, other_start: u32, other_end: u32) -> (r: bool)
    requires
        start <= end,
        other_start <= other_end,
    ensures
        r == (start <= other_start && other_end <= end),
{
    let range = rowan::TextRange::new(start.into(), end.into());
    range.contains_range(rowan::TextRange::new(other_start.into(), other_end.into()))
}

/// Calls `rowan::TextRange::contains` on the range `start..end` and `offset`. It is taken
/// to hold exactly where `offset` lies at or after the start and before the end.
/// `TextRange::new` panics on a range that ends before it starts, so such ranges are left
/// out.
#[verifier::external_body]
fn text_range_contains(start: u32, end: u32, offset: u32) -> (r: bool)
    requires
        start <= end,
    ensures
        r == (start <= offset < end),
{
    rowan::TextRange::new(start.into(), end.into()).contains(offset.into())
}

/// Whether `range` is a span that a range of `rowan` can hold: it ends no earlier than it
/// starts, and its offsets fit 32 bits.
pub open spec fn fits_text_range(range: TextRange) -> bool {
    range.start <= range.end <= u32::MAX
}

/// Tells whether a range of `rowan` can hold `range`.
fn fits(range: &TextRange) -> (r: bool)
    ensures
        r == fits_text_range(*range),
{
    range.start <= range.end && range.end <= 0xFFFF_FFFF
}

/// Whether two spans overlap. Spans that the ranges of `rowan` can hold are compared by
/// `rowan`; any others, which it cannot hold, are compared here.
pub fn overlaps(range: TextRange, other: TextRange) -> (r: bool)
    ensures
        r == spec_overlaps(range, other),
{
    if fits(&range) && fits(&other) {
        let start = range.start as u32;
        let end = range.end as u32;
        let other_start = other.start as u32;
        let other_end = other.end as u32;
        text_range_contains_range(start, end, other_start, other_end)
            || text_range_contains_range(other_start, other_end, start, end)
            || text_range_contains(start, end, other_start) || text_range_contains(
            start,
            end,
            other_end,
        ) || text_range_contains(other_start, other_end, start) || text_range_contains(
            other_start,
            other_end,
            end,
        )
    } else {
        (range.start <= other.start && other.end <= range.end) || (other.start <= range.start
            && range.end <= other.end) || (range.start <= other.start && other.start < range.end)
            || (range.start <= other.end && other.end < range.end) || (other.start <= range.start
            && range.start < other.end) || (other.start <= range.end && range.end < other.end)
    }
}

} // verus!
