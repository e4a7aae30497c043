//! A single interval remapping rule: one row of an almanac table.

use vstd::prelude::*;

verus! {

/// One contiguous interval remapping rule.  A value `v` with
/// `source_start <= v < source_start + length` is mapped to `v + offset`;
/// every other value is left unchanged.
#[derive(Clone, Copy, PartialEq, Eq, Structural, Debug)]
pub struct Range {
    /// Inclusive lower bound of the covered interval, in the source category.
    pub source_start: i64,
    /// Width of the covered interval; always strictly positive.
    pub length: i64,
    /// Signed distance from a covered source value to its destination value,
    /// equal to `destination_start - source_start`.
    pub offset: i64,
}

impl Range {
    /// The half-open interval membership test, over unbounded integers.
    pub open spec fn in_src(self, v: int) -> bool {
        self.source_start as int <= v < self.source_start as int + self.length as int
    }

    /// What converting `v` yields: shifted by `offset` inside the interval,
    /// unchanged outside it.
    pub open spec fn convert_at(self, v: int) -> int {
        if self.in_src(v) {
            v + self.offset as int
        } else {
            v
        }
    }

    /// Well-formedness: the interval is non-empty and its whole image
    /// `[source_start + offset, source_start + offset + length)` stays
    /// representable in 64 bits, so that `convert` never overflows.
    pub open spec fn wf(self) -> bool {
        &&& self.length as int >= 1
        &&& i64::MIN as int <= self.source_start as int + self.offset as int
        &&& self.source_start as int + self.offset as int + self.length as int - 1
            <= i64::MAX as int
    }

    /// Builds the rule from a table row `(destination_start, source_start,
    /// length)`, storing `offset = destination_start - source_start`.
    /// The preconditions only rule out rows whose interval is empty or whose
    /// arithmetic cannot be represented in 64 bits.
    pub fn new(dest_pos: i64, src_pos: i64, length: i64) -> (r: Range)
        requires
            length >= 1,
            i64::MIN as int <= dest_pos as int - src_pos as int <= i64::MAX as int,
            dest_pos as int + length as int - 1 <= i64::MAX as int,
        ensures
            r.source_start == src_pos,
            r.length == length,
            r.offset as int == dest_pos as int - src_pos as int,
            r.wf(),
    {
        Range { source_start: src_pos, length, offset: dest_pos - src_pos }
    }

    /// True iff `src_value` lies in `[source_start, source_start + length)`;
    /// the upper bound is exclusive.
    pub fn is_in_src_range(&self, src_value: i64) -> (r: bool)
        ensures
            r == self.in_src(src_value as int),
    {
        (src_value as i128) >= (self.source_start as i128) && (src_value as i128)
            - (self.source_start as i128) < (self.length as i128)
    }

    /// Total conversion: identity outside the interval, `value + offset`
    /// inside it.
    pub fn convert(&self, value: i64) -> (r: i64)
        requires
            self.wf(),
        ensures
            r as int == self.convert_at(value as int),
    {
        if !self.is_in_src_range(value) {
            return value;
        }
        value + self.offset
    }
}

/// A value outside the covered interval converts to itself.
pub proof fn lemma_convert_outside(r: Range, v: int)
    requires
        !r.in_src(v),
    ensures
        r.convert_at(v) == v,
{
}

/// A value inside the covered interval is shifted by exactly `offset`.
pub proof fn lemma_convert_inside(r: Range, v: int)
    requires
        r.in_src(v),
    ensures
        r.convert_at(v) == v + r.offset as int,
{
}

/// The shift applied by one rule is the same for every value of its interval.
pub proof fn lemma_offset_constant(r: Range, v1: int, v2: int)
    requires
        r.in_src(v1),
        r.in_src(v2),
    ensures
        r.convert_at(v1) - v1 == r.convert_at(v2) - v2,
{
}

/// Half-open boundary behaviour: the lower bound is covered, the upper bound
/// `source_start + length` is not.
pub proof fn lemma_half_open(r: Range)
    requires
        r.length as int >= 1,
    ensures
        r.in_src(r.source_start as int),
        !r.in_src(r.source_start as int + r.length as int),
{
}

} // verus!
