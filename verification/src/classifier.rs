use vstd::prelude::*;

verus! {

/// What the character that a value begins with says of the value.
#[derive(Debug, Clone, Copy, PartialEq, Eq)]
pub enum Lookahead {
    /// `{`: an object.
    Object,
    /// `[`: an array.
    Array,
    /// `"`: a string.
    String,
    /// `t`, `f` or `n`: one of the literals `true`, `false` and `null`.
    Literal,
    /// `-` or a decimal digit: a number.
    Number,
    /// No value begins with this character.
    Other,
}

pub open spec fn is_digit(c: char) -> bool {
    '0' <= c <= '9'
}

/// The production that a value beginning with `c` belongs to.
pub open spec fn lookahead(c: char) -> Lookahead {
    if c == '{' {
        Lookahead::Object
    } else if c == '[' {
        Lookahead::Array
    } else if c == '"' {
        Lookahead::String
    } else if c == 't' || c == 'f' || c == 'n' {
        Lookahead::Literal
    } else if c == '-' || is_digit(c) {
        Lookahead::Number
    } else {
        Lookahead::Other
    }
}

/// Tells from its first character which production a value belongs to.
pub fn classify(c: char) -> (kind: Lookahead)
    ensures
        kind == lookahead(c),
{
    match c {
        '{' => Lookahead::Object,
        '[' => Lookahead::Array,
        '"' => Lookahead::String,
        't' | 'f' | 'n' => Lookahead::Literal,
        '-' | '0'..='9' => Lookahead::Number,
        _ => Lookahead::Other,
    }
}

} // verus!
