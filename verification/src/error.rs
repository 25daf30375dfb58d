//! The ways in which a move or a game record can be refused.

use vstd::prelude::*;
use vstd::string::StringExecFns;

verus! {

/// Why an operation was refused. Every refusal leaves the board and the game
/// record as they were.
#[derive(Clone, Debug, PartialEq, Eq)]
pub enum SgfError {
    /// The point lies outside the board.
    OutOfBounds,
    /// The point already holds a stone.
    Occupied,
    /// The move would leave its own group without a liberty and captures
    /// nothing.
    Suicide,
    /// The move would retake a single stone at the point barred by the
    /// previous capture.
    KoViolation,
    /// The game record text could not be read.
    ParseError { message: String },
}

impl SgfError {
    /// The text that describes this error.
    pub open spec fn spec_message(&self) -> Seq<char> {
        match self {
            SgfError::OutOfBounds => "Out of bounds"@,
            SgfError::Occupied => "Position occupied"@,
            SgfError::Suicide => "Suicide move"@,
            SgfError::KoViolation => "Ko violation"@,
            SgfError::ParseError { message } => "Parse error: "@ + message@,
        }
    }

    /// Returns a description of the error for display.
    pub fn message(&self) -> (text: String)
        ensures
            text@ == self.spec_message(),
    {
        match self {
            SgfError::OutOfBounds => String::from_str("Out of bounds"),
            SgfError::Occupied => String::from_str("Position occupied"),
            SgfError::Suicide => String::from_str("Suicide move"),
            SgfError::KoViolation => String::from_str("Ko violation"),
            SgfError::ParseError { message } => {
                let mut text = String::from_str("Parse error: ");
                text.append(message.as_str());
                text
            },
        }
    }
}

} // verus!
