//! One named category-to-category table: an ordered list of interval rules
//! plus the names of its source and destination categories.

use vstd::prelude::*;
use crate::error::AlmanacError;
use crate::parse::{
    header_ok, header_parts, parse_header, parse_i64_chars, parse_signed, split_ws, split_ws_exec,
    to_chars,
};
use crate::range::Range;

verus! {

/// A named table of interval rules, built from one block of text lines.
/// Rules keep their document order; overlaps are allowed, and on overlap the
/// last matching rule in document order wins.
#[derive(Debug)]
pub struct Mapping {
    /// Source category name, e.g. `seed`.
    pub from: String,
    /// Destination category name, e.g. `soil`.
    pub to: String,
    /// The rules, in document order.
    pub ranges: Vec<Range>,
}

/// What resolving `v` against rules in order yields: the conversion of the
/// last rule whose interval covers `v`, or `v` itself when none does.
/// Membership is always tested against the original `v`, never against an
/// intermediate result.
pub open spec fn resolve(ranges: Seq<Range>, v: int) -> int
    decreases ranges.len(),
{
    if ranges.len() == 0 {
        v
    } else if ranges.last().in_src(v) {
        ranges.last().convert_at(v)
    } else {
        resolve(ranges.drop_last(), v)
    }
}

/// A numeric row: exactly three integer tokens `destination_start`,
/// `source_start`, `length`, with a non-empty interval whose image stays
/// representable in 64 bits.
pub open spec fn line_range_ok(line: Seq<char>) -> bool {
    let toks = split_ws(line);
    &&& toks.len() == 3
    &&& parse_signed(toks[0]) is Some
    &&& parse_signed(toks[1]) is Some
    &&& parse_signed(toks[2]) is Some
    &&& {
        let d = parse_signed(toks[0])->0;
        let s = parse_signed(toks[1])->0;
        let l = parse_signed(toks[2])->0;
        &&& l >= 1
        &&& i64::MIN as int <= d - s <= i64::MAX as int
        &&& d + l - 1 <= i64::MAX as int
    }
}

/// The rule `r` is exactly what the row `line` describes.
pub open spec fn range_matches_line(r: Range, line: Seq<char>) -> bool {
    let toks = split_ws(line);
    &&& line_range_ok(line)
    &&& r.source_start as int == parse_signed(toks[1])->0
    &&& r.length as int == parse_signed(toks[2])->0
    &&& r.offset as int == parse_signed(toks[0])->0 - parse_signed(toks[1])->0
}

/// A block of lines builds a table iff it has a header line with two
/// non-empty category names and every following line is a valid numeric row.
pub open spec fn block_ok(block: Seq<String>) -> bool {
    &&& block.len() > 0
    &&& header_ok(block[0]@)
    &&& forall|i: int| 1 <= i < block.len() ==> line_range_ok(#[trigger] block[i]@)
}

/// Which error a rejected block is reported with: a missing header first,
/// then a malformed header, then a bad numeric row.
pub open spec fn block_err(block: Seq<String>) -> AlmanacError {
    if block.len() == 0 {
        AlmanacError::EmptyBlock
    } else if !header_ok(block[0]@) {
        AlmanacError::InvalidHeader
    } else {
        AlmanacError::InvalidRange
    }
}

/// The table `m` is exactly what the block describes: its names are the two
/// header parts and its rules are the rows, in order.
pub open spec fn mapping_matches_block(m: Mapping, block: Seq<String>) -> bool {
    &&& block_ok(block)
    &&& m.from@ == header_parts(block[0]@)[0]
    &&& m.to@ == header_parts(block[0]@)[1]
    &&& m.ranges@.len() == block.len() - 1
    &&& forall|i: int|
        0 <= i < m.ranges@.len() ==> range_matches_line(#[trigger] m.ranges@[i], block[i + 1]@)
}

/// Parses one numeric row into a rule.
fn parse_range_line(line: &String) -> (r: Option<Range>)
    ensures
        match r {
            Some(rg) => range_matches_line(rg, line@) && rg.wf(),
            None => !line_range_ok(line@),
        },
{
    let chars = to_chars(line.as_str());
    let toks = split_ws_exec(&chars);
    if toks.len() != 3 {
        return None;
    }
    let d = match parse_i64_chars(&toks[0]) {
        None => { return None },
        Some(v) => v,
    };
    let s0 = match parse_i64_chars(&toks[1]) {
        None => { return None },
        Some(v) => v,
    };
    let l = match parse_i64_chars(&toks[2]) {
        None => { return None },
        Some(v) => v,
    };
    if l < 1 {
        return None;
    }
    let off = (d as i128) - (s0 as i128);
    if off < (i64::MIN as i128) || off > (i64::MAX as i128) {
        return None;
    }
    if (d as i128) + (l as i128) - 1 > (i64::MAX as i128) {
        return None;
    }
    Some(Range::new(d, s0, l))
}

impl Mapping {
    /// All rules of the table are well-formed, so resolving never overflows.
    pub open spec fn wf(self) -> bool {
        forall|i: int| 0 <= i < self.ranges@.len() ==> (#[trigger] self.ranges@[i]).wf()
    }

    /// Builds a table from one contiguous block of trimmed text lines: a
    /// header `<from>-to-<to> map` followed by zero or more rows
    /// `<destination_start> <source_start> <length>`.  Returns a fully formed
    /// table or the error of the first offending line; no partial table is
    /// ever produced.
    pub fn try_from(lines: &Vec<String>) -> (r: Result<Mapping, AlmanacError>)
        ensures
            match r {
                Ok(m) => mapping_matches_block(m, lines@) && m.wf(),
                Err(e) => !block_ok(lines@) && e == block_err(lines@),
            },
    {
        if lines.len() == 0 {
            return Err(AlmanacError::EmptyBlock);
        }
        let (from, to) = match parse_header(&lines[0]) {
            None => { return Err(AlmanacError::InvalidHeader) },
            Some(p) => p,
        };
        let mut ranges: Vec<Range> = Vec::new();
        let mut i: usize = 1;
        while i < lines.len()
            invariant
                1 <= i <= lines@.len(),
                header_ok(lines@[0]@),
                from@ == header_parts(lines@[0]@)[0],
                to@ == header_parts(lines@[0]@)[1],
                ranges@.len() == i - 1,
                forall|k: int|
                    0 <= k < ranges@.len() ==> range_matches_line(
                        #[trigger] ranges@[k],
                        lines@[k + 1]@,
                    ) && ranges@[k].wf(),
            decreases lines@.len() - i,
        {
            match parse_range_line(&lines[i]) {
                None => { return Err(AlmanacError::InvalidRange) },
                Some(rg) => ranges.push(rg),
            }
            i += 1;
        }
        proof {
            assert forall|k: int| 1 <= k < lines@.len() implies line_range_ok(
                #[trigger] lines@[k]@,
            ) by {
                assert(range_matches_line(ranges@[k - 1], lines@[k]@));
            }
            assert(block_ok(lines@));
        }
        Ok(Mapping { from, to, ranges })
    }

    /// Resolves one value: scans the rules in document order, always testing
    /// membership against the original `src_value`; the last matching rule
    /// wins, and a value no rule covers passes through unchanged.
    pub fn convert(&self, src_value: i64) -> (r: i64)
        requires
            self.wf(),
        ensures
            r as int == resolve(self.ranges@, src_value as int),
    {
        let mut dest_value: i64 = src_value;
        let mut i: usize = 0;
        proof {
            assert(self.ranges@.take(0) =~= Seq::<Range>::empty());
        }
        while i < self.ranges.len()
            invariant
                i <= self.ranges@.len(),
                self.wf(),
                dest_value as int == resolve(self.ranges@.take(i as int), src_value as int),
            decreases self.ranges@.len() - i,
        {
            let rg = self.ranges[i];
            if rg.is_in_src_range(src_value) {
                dest_value = rg.convert(src_value);
            }
            proof {
                assert(self.ranges@.take(i + 1).drop_last() =~= self.ranges@.take(i as int));
                assert(self.ranges@.take(i + 1).last() == self.ranges@[i as int]);
            }
            i += 1;
        }
        proof {
            assert(self.ranges@.take(self.ranges@.len() as int) =~= self.ranges@);
        }
        dest_value
    }
}

/// A value covered by no rule of the table resolves to itself.
pub proof fn lemma_resolve_unmatched(ranges: Seq<Range>, v: int)
    requires
        forall|i: int| 0 <= i < ranges.len() ==> !(#[trigger] ranges[i]).in_src(v),
    ensures
        resolve(ranges, v) == v,
    decreases ranges.len(),
{
    if ranges.len() > 0 {
        lemma_resolve_unmatched(ranges.drop_last(), v);
    }
}

/// A value covered by exactly one rule resolves to that rule's conversion.
pub proof fn lemma_resolve_single_match(ranges: Seq<Range>, v: int, k: int)
    requires
        0 <= k < ranges.len(),
        ranges[k].in_src(v),
        forall|i: int| 0 <= i < ranges.len() && i != k ==> !(#[trigger] ranges[i]).in_src(v),
    ensures
        resolve(ranges, v) == ranges[k].convert_at(v),
    decreases ranges.len(),
{
    if k < ranges.len() - 1 {
        lemma_resolve_single_match(ranges.drop_last(), v, k);
    }
}

} // verus!
