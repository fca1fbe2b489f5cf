use vstd::prelude::*;
use crate::cursor::Position;

verus! {

/// Why a text is not a JSON document, and where.
#[derive(Debug, Clone, Copy, PartialEq, Eq)]
pub enum ParseError {
    UnexpectedCharacter { character: char, position: Position },
    UnexpectedEnd { position: Position },
    InvalidEscape { position: Position },
    InvalidNumber { position: Position },
    UnterminatedString { position: Position },
    TrailingData { position: Position },
}

impl ParseError {
    /// The words for the fault.
    pub open spec fn spec_message(&self) -> Seq<char> {
        match self {
            ParseError::UnexpectedCharacter { .. } => "unexpected character"@,
            ParseError::UnexpectedEnd { .. } => "unexpected end of input"@,
            ParseError::InvalidEscape { .. } => "invalid escape sequence"@,
            ParseError::InvalidNumber { .. } => "invalid number"@,
            ParseError::UnterminatedString { .. } => "unterminated string"@,
            ParseError::TrailingData { .. } => "trailing data after the document"@,
        }
    }

    /// The words for the fault, for a reader.
    pub fn message(&self) -> (words: String)
        ensures
            words@ == self.spec_message(),
    {
        match self {
            ParseError::UnexpectedCharacter { .. } => "unexpected character".to_owned(),
            ParseError::UnexpectedEnd { .. } => "unexpected end of input".to_owned(),
            ParseError::InvalidEscape { .. } => "invalid escape sequence".to_owned(),
            ParseError::InvalidNumber { .. } => "invalid number".to_owned(),
            ParseError::UnterminatedString { .. } => "unterminated string".to_owned(),
            ParseError::TrailingData { .. } => "trailing data after the document".to_owned(),
        }
    }

    /// Where the fault was met.
    pub open spec fn spec_position(&self) -> Position {
        match self {
            ParseError::UnexpectedCharacter { position, .. } => *position,
            ParseError::UnexpectedEnd { position } => *position,
            ParseError::InvalidEscape { position } => *position,
            ParseError::InvalidNumber { position } => *position,
            ParseError::UnterminatedString { position } => *position,
            ParseError::TrailingData { position } => *position,
        }
    }

    /// Where the fault was met.
    #[verifier::when_used_as_spec(spec_position)]
    pub fn position(&self) -> (place: Position)
        ensures
            place == self.spec_position(),
    {
        match self {
            ParseError::UnexpectedCharacter { position, .. } => *position,
            ParseError::UnexpectedEnd { position } => *position,
            ParseError::InvalidEscape { position } => *position,
            ParseError::InvalidNumber { position } => *position,
            ParseError::UnterminatedString { position } => *position,
            ParseError::TrailingData { position } => *position,
        }
    }
}

} // verus!
