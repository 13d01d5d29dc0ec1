//! Why a compilation failed.
use vstd::prelude::*;
use crate::keys::Chord;

verus! {

/// A reason to reject the source text. `row` is the 1-based line of the
/// entry or character at fault.
#[derive(Debug)]
pub enum ParseError {
    /// A line before the first entry that is neither blank nor a comment.
    IllegalLine { row: usize },
    /// A `{` on the trigger side that a second `{` does not follow.
    MissingOpenBrace { row: usize },
    /// A comma on the trigger side outside an enumeration group.
    UnexpectedComma { row: usize },
    /// A `|` inside a trigger-side group.
    BarInGroup { row: usize },
    /// A backslash inside a trigger-side group.
    BackslashInHead { row: usize },
    /// A `}` on the trigger side outside any group.
    UnmatchedClose { row: usize },
    /// A `}` inside a group that a second `}` does not follow.
    MissingCloseBrace { row: usize },
    /// The text ends inside an enumeration group.
    UnclosedGroup,
    /// A key name or modifier keyword longer than the longest allowed.
    TokenTooLong { row: usize },
    /// An entry's trigger groups have more combinations than allowed.
    TooManyPermutations { row: usize },
    /// An entry's action groups have more combinations than its trigger groups.
    BodyExceedsHead { row: usize },
    /// A chord without a key.
    NoKey { row: usize },
    /// A chord with a second key.
    SecondKey { row: usize },
    /// A token that is neither a modifier keyword nor a key name.
    UnknownKey { row: usize, name: Vec<char> },
    /// One hotkey is the start of another, or equal to it.
    Ambiguous { first: Vec<Chord>, second: Vec<Chord> },
}

} // verus!
