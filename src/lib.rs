//! Property matching for feature-flag targeting rules: a single filter is
//! checked against the observed properties of a subject.
use vstd::prelude::*;

pub mod value;
pub mod outside;
pub mod numeric;
pub mod dates;
pub mod text;
pub mod filter;
pub mod matching;
pub mod laws;

verus! {

/// The ways in which a filter can fail to be decided.
#[derive(Debug, PartialEq, Eq)]
pub enum FlagMatchingError {
    ValidationError(String),
    MissingProperty(String),
    InconclusiveOperatorMatch,
    InvalidRegexPattern,
}

} // verus!

pub use dates::{Instant, determine_parsed_date_for_property_matching, parse_date_string};
pub use filter::{OperatorType, Properties, PropertyFilter};
pub use matching::{compute_exact_match, match_property};
pub use numeric::{Decimal, Numeric, to_numeric_representation};
pub use value::{PropValue, to_string_representation};
