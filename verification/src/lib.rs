//! Interval-based almanac conversion.
//!
//! An almanac lists a set of seed identifiers and a sequence of named
//! category-to-category remapping tables.  Each table is an ordered list of
//! interval rules; a value covered by a rule is shifted by the rule's offset,
//! and a value covered by no rule passes through unchanged.  Values are
//! carried from the first category to the last by folding them through the
//! tables in declaration order.

pub mod parse;
pub mod range;
pub mod error;
pub mod mapping;
pub mod chain;
pub mod almanac;

pub use almanac::read_data;
pub use almanac::read_maps;
pub use almanac::read_seeds;
pub use almanac::Data;
pub use chain::apply_chain;
pub use chain::convert_seeds;
pub use error::AlmanacError;
pub use range::Range;
pub use mapping::Mapping;
