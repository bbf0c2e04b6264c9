//! Diagnostics of the parser.

use crate::text::{append_decimal, decimal, push_char};
use vstd::prelude::*;
use vstd::string::*;

verus! {

/// Why a pattern was rejected, and the position in it, counted in code points, where the
/// parser stood when it gave up.
#[derive(Debug, Clone, Copy, PartialEq, Eq, Structural)]
pub enum ParseError {
    /// An atom was expected at `position`, where the pattern ends.
    UnexpectedEnd { position: usize },
    /// The pattern ends at `position`, after a backslash.
    DanglingEscape { position: usize },
    /// A delimiter was expected at `position`; `found` is the character in its place, or
    /// `None` at the end of the pattern. A group that is never closed ends this way.
    Expected { expected: char, found: Option<char>, position: usize },
    /// `(?` is followed at `position` by none of `:`, `=`, `!` and `<`.
    InvalidGroup { position: usize },
    /// `(?<` is followed at `position` by neither `=` nor `!`.
    InvalidLookbehind { position: usize },
    /// A character class is still open at `position`, where the pattern ends.
    UnterminatedClass { position: usize },
    /// The pattern ends at `position`, after a backslash inside a character class.
    ClassEscapeAtEnd { position: usize },
    /// The pattern ends at `position`, after a backslash where a range in a class needs
    /// its upper end.
    RangeAtEnd { position: usize },
    /// A complete pattern is followed by `found` at `position`.
    Trailing { found: char, position: usize },
}

impl ParseError {
    /// The position at which the error arose.
    pub open spec fn place(self) -> usize {
        match self {
            ParseError::UnexpectedEnd { position } => position,
            ParseError::DanglingEscape { position } => position,
            ParseError::Expected { position, .. } => position,
            ParseError::InvalidGroup { position } => position,
            ParseError::InvalidLookbehind { position } => position,
            ParseError::UnterminatedClass { position } => position,
            ParseError::ClassEscapeAtEnd { position } => position,
            ParseError::RangeAtEnd { position } => position,
            ParseError::Trailing { position, .. } => position,
        }
    }

    /// What went wrong, without the position.
    pub open spec fn reason(self) -> Seq<char> {
        match self {
            ParseError::UnexpectedEnd { .. } => "Unexpected end of pattern"@,
            ParseError::DanglingEscape { .. } => "Unexpected end of pattern after '\\'"@,
            ParseError::Expected { expected, found: Some(found), .. } => "Expected '"@
                + seq![expected] + "', got '"@ + seq![found] + "'"@,
            ParseError::Expected { expected, found: None, .. } => "Expected '"@ + seq![expected]
                + "', got end of pattern"@,
            ParseError::InvalidGroup { .. } => "Invalid group syntax after '(?'"@,
            ParseError::InvalidLookbehind { .. } => "Invalid lookbehind syntax"@,
            ParseError::UnterminatedClass { .. } => "Unterminated character class"@,
            ParseError::ClassEscapeAtEnd { .. } => "Unexpected end in character class escape"@,
            ParseError::RangeAtEnd { .. } => "Unexpected end in range"@,
            ParseError::Trailing { found, .. } => "Unexpected character '"@ + seq![found] + "'"@,
        }
    }

    /// The text of the diagnostic: what went wrong, and the position in decimal.
    pub open spec fn text(self) -> Seq<char> {
        self.reason() + " at position "@ + decimal(self.place() as nat)
    }

    /// The position at which the error arose.
    pub fn position(&self) -> (position: usize)
        ensures
            position == self.place(),
    {
        match self {
            ParseError::UnexpectedEnd { position } => *position,
            ParseError::DanglingEscape { position } => *position,
            ParseError::Expected { position, .. } => *position,
            ParseError::InvalidGroup { position } => *position,
            ParseError::InvalidLookbehind { position } => *position,
            ParseError::UnterminatedClass { position } => *position,
            ParseError::ClassEscapeAtEnd { position } => *position,
            ParseError::RangeAtEnd { position } => *position,
            ParseError::Trailing { position, .. } => *position,
        }
    }

    /// The diagnostic as a string.
    pub fn message(&self) -> (message: String)
        ensures
            message@ == self.text(),
    {
        let mut message = match self {
            ParseError::UnexpectedEnd { .. } => String::from_str("Unexpected end of pattern"),
            ParseError::DanglingEscape { .. } => String::from_str(
                "Unexpected end of pattern after '\\'",
            ),
            ParseError::Expected { expected, found, .. } => {
                let mut message = String::from_str("Expected '");
                push_char(&mut message, *expected);
                match found {
                    Some(found) => {
                        message.append("', got '");
                        push_char(&mut message, *found);
                        message.append("'");
                    },
                    None => {
                        message.append("', got end of pattern");
                    },
                }
                message
            },
            ParseError::InvalidGroup { .. } => String::from_str("Invalid group syntax after '(?'"),
            ParseError::InvalidLookbehind { .. } => String::from_str("Invalid lookbehind syntax"),
            ParseError::UnterminatedClass { .. } => String::from_str(
                "Unterminated character class",
            ),
            ParseError::ClassEscapeAtEnd { .. } => String::from_str(
                "Unexpected end in character class escape",
            ),
            ParseError::RangeAtEnd { .. } => String::from_str("Unexpected end in range"),
            ParseError::Trailing { found, .. } => {
                let mut message = String::from_str("Unexpected character '");
                push_char(&mut message, *found);
                message.append("'");
                message
            },
        };
        message.append(" at position ");
        append_decimal(&mut message, self.position());
        message
    }
}

} // verus!
