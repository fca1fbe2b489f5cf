use vstd::prelude::*;
use crate::cursor::Cursor;
use crate::grammar::is_number;
use crate::parser::parse_number;

verus! {

/// A JSON number, held as the decimal notation that stands for it. Every
/// `Number` holds a notation that the grammar accepts, so none stands for
/// an infinity or for something that is not a number.
#[derive(Debug, PartialEq, Eq)]
pub struct Number {
    text: String,
}

impl View for Number {
    type V = Seq<char>;

    closed spec fn view(&self) -> Seq<char> {
        self.text@
    }
}

impl Number {
    #[verifier::type_invariant]
    spec fn written_well(&self) -> bool {
        is_number(self.text@)
    }

    pub(crate) fn from_lexeme(text: String) -> (number: Number)
        requires
            is_number(text@),
        ensures
            number@ == text@,
    {
        Number { text }
    }

    /// The number that `text` is, if it is one from its first character to
    /// its last.
    pub fn from_text(text: &str) -> (number: Option<Number>)
        ensures
            match number {
                Some(number) => is_number(text@) && number@ == text@,
                None => !is_number(text@),
            },
    {
        let mut cursor = Cursor::new(text);
        match parse_number(&mut cursor) {
            Ok(number) => {
                if cursor.peek().is_none() {
                    assert(text@.subrange(0, text@.len() as int) =~= text@);
                    Some(number)
                } else {
                    None
                }
            },
            Err(_) => None,
        }
    }

    /// The notation of the number.
    pub fn as_str(&self) -> (text: &str)
        ensures
            text@ == self@,
            is_number(self@),
    {
        proof {
            use_type_invariant(self);
        }
        self.text.as_str()
    }
}

} // verus!
