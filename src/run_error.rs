use crate::item::ItemError;
use vstd::prelude::*;

verus! {

/// Why a text does not describe a knapsack instance.
#[derive(Debug, Clone, Copy, PartialEq, Eq, Structural)]
pub enum ParseError {
    /// The text has no lines at all.
    EmptyInput,
    /// The first line is not an item count.
    IllegalItemCount,
    /// Line `line` (counted from 1) does not describe an item.
    Item { line: usize, error: ItemError },
    /// The text ends before the capacity line.
    MissingCapacity,
    /// The capacity line is not an unsigned 64-bit integer.
    MalformedCapacity,
}

/// Why a knapsack instance could not be built from a file: the file could not
/// be read, or its text does not describe an instance.
#[derive(Debug, Clone, PartialEq, Eq)]
pub enum RunError {
    IoError(String),
    ParseError(ParseError),
}

impl From<ParseError> for RunError {
    fn from(error: ParseError) -> (r: RunError)
        ensures
            r == RunError::ParseError(error),
    {
        RunError::ParseError(error)
    }
}

impl vstd::std_specs::convert::FromSpecImpl<ParseError> for RunError {
    open spec fn obeys_from_spec() -> bool {
        true
    }

    open spec fn from_spec(v: ParseError) -> RunError {
        RunError::ParseError(v)
    }
}

} // verus!
