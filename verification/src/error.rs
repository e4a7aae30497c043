//! Construction errors for almanac tables.

use vstd::prelude::*;

verus! {

/// Why constructing a table (or the seed list) from text failed.  Errors are
/// only ever raised at construction time; conversion itself is total.
#[derive(Clone, Copy, PartialEq, Eq, Structural, Debug)]
pub enum AlmanacError {
    /// A table header did not split on `-to-` into exactly two non-empty
    /// category names.
    InvalidHeader,
    /// A numeric row did not hold exactly three integer tokens, a token did
    /// not parse as a 64-bit integer, or the row's interval was empty or not
    /// representable in 64 bits.
    InvalidRange,
    /// A table block held no header line at all.
    EmptyBlock,
}

impl AlmanacError {
    /// A short human-readable description of the error.
    pub fn describe(&self) -> (r: String)
        ensures
            *self is InvalidHeader ==> r@ == "invalid map header"@,
            *self is InvalidRange ==> r@ == "invalid range line"@,
            *self is EmptyBlock ==> r@ == "empty map block"@,
    {
        match self {
            AlmanacError::InvalidHeader => "invalid map header".to_owned(),
            AlmanacError::InvalidRange => "invalid range line".to_owned(),
            AlmanacError::EmptyBlock => "empty map block".to_owned(),
        }
    }
}

} // verus!
