//! Typed per-line parse errors. A parse failure never aborts the processing
//! of other lines: loaders skip the offending line and report it.

use vstd::prelude::*;

verus! {

/// The required field that was absent or empty, named per record kind.
#[derive(Clone, Copy, Debug, PartialEq, Eq, Structural)]
pub enum Field {
    LeaderboardName,
    FileName,
    TopicName,
    TopicDescription,
    QuizName,
    QuizDescription,
    QuizAnswer,
    QuizChoices,
    PlayerName,
    StartTime,
    EndTime,
}

/// Why one line of a delimited file was rejected.
#[derive(Clone, Copy, Debug, PartialEq, Eq, Structural)]
pub enum ParseError {
    /// A required string field is absent or empty after trimming.
    MissingField(Field),
    /// An id or duration field does not denote an unsigned integer.
    InvalidInteger,
    /// A score field does not denote a decimal percentage in range.
    InvalidFloat,
    /// An answer token is not one of the four recognized letters.
    InvalidAnswer,
}

} // verus!
