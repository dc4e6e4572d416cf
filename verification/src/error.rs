//! Why a search is refused.

use vstd::prelude::*;

verus! {

/// The reasons for which a search is refused.
#[derive(Debug, Clone, Copy, PartialEq, Eq)]
pub enum HighlightError {
    /// The regular expression does not compile.
    InvalidRegex,
    /// The prefix length of a fuzzy search is negative.
    NegativePrefix,
    /// The prefix of a fuzzy search ends inside a character.
    SplitCharacter,
    /// A part of a proximity clause is null.
    MissingPart,
    /// The distance between two positions, or a permitted distance, exceeds its integer type.
    DistanceOverflow,
}

} // verus!
