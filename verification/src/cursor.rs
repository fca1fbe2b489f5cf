use vstd::prelude::*;

verus! {

/// A place in a text. All three numbers count from zero.
#[derive(Debug, Clone, Copy, PartialEq, Eq)]
pub struct Position {
    /// Characters before this place.
    pub offset: usize,
    /// Line feeds before this place.
    pub line: usize,
    /// Characters between the last line feed and this place.
    pub column: usize,
}

/// Where the line that holds `offset` begins.
pub open spec fn line_start(text: Seq<char>, offset: int) -> int
    decreases offset,
{
    if offset <= 0 || offset > text.len() {
        0
    } else if text[offset - 1] == '\n' {
        offset
    } else {
        line_start(text, offset - 1)
    }
}

/// How many line feeds stand before `offset`.
pub open spec fn line_index(text: Seq<char>, offset: int) -> int
    decreases offset,
{
    if offset <= 0 || offset > text.len() {
        0
    } else if text[offset - 1] == '\n' {
        line_index(text, offset - 1) + 1
    } else {
        line_index(text, offset - 1)
    }
}

/// The place of `offset` in `text`.
pub open spec fn position_at(text: Seq<char>, offset: int) -> Position {
    Position {
        offset: offset as usize,
        line: line_index(text, offset) as usize,
        column: (offset - line_start(text, offset)) as usize,
    }
}

/// A forward-only view of a text, one character at a time. A cursor always
/// stands inside its text and knows the line and column of its place.
pub struct Cursor {
    chars: Vec<char>,
    place: Position,
}

impl Cursor {
    #[verifier::type_invariant]
    spec fn inside(&self) -> bool {
        &&& self.place.offset <= self.chars.len()
        &&& self.place == position_at(self.chars@, self.place.offset as int)
    }

    /// The whole text, read or not.
    pub closed spec fn text(&self) -> Seq<char> {
        self.chars@
    }

    /// How many characters have been consumed.
    pub closed spec fn offset(&self) -> int {
        self.place.offset as int
    }

    /// The character that comes next, if any is left.
    pub open spec fn next(&self) -> Option<char> {
        if 0 <= self.offset() < self.text().len() {
            Some(self.text()[self.offset()])
        } else {
            None
        }
    }

    /// A cursor at the start of `text`.
    pub fn new(text: &str) -> (cursor: Cursor)
        ensures
            cursor.text() == text@,
            cursor.offset() == 0,
    {
        let mut chars: Vec<char> = Vec::new();
        for c in it: text.chars()
            invariant
                it.seq() == text@,
                chars@ == text@.take(it.index() as int),
        {
            chars.push(c);
        }
        Cursor { chars, place: Position { offset: 0, line: 0, column: 0 } }
    }

    /// The next character, which stays unconsumed.
    pub fn peek(&self) -> (c: Option<char>)
        ensures
            c == self.next(),
            0 <= self.offset() <= self.text().len(),
    {
        proof {
            use_type_invariant(self);
        }
        if self.place.offset < self.chars.len() {
            Some(self.chars[self.place.offset])
        } else {
            None
        }
    }

    /// Consumes the next character and returns it; at the end of the text
    /// nothing changes.
    pub fn advance(&mut self) -> (c: Option<char>)
        ensures
            final(self).text() == old(self).text(),
            c == old(self).next(),
            final(self).offset() == old(self).offset() + (if c is Some { 1int } else { 0int }),
            0 <= old(self).offset() <= final(self).offset() <= old(self).text().len(),
    {
        proof {
            use_type_invariant(&*self);
        }
        if self.place.offset < self.chars.len() {
            let c = self.chars[self.place.offset];
            proof {
                lemma_line_bounds(self.chars@, self.place.offset as int);
            }
            if c == '\n' {
                self.place = Position {
                    offset: self.place.offset + 1,
                    line: self.place.line + 1,
                    column: 0,
                };
            } else {
                self.place = Position {
                    offset: self.place.offset + 1,
                    line: self.place.line,
                    column: self.place.column + 1,
                };
            }
            Some(c)
        } else {
            None
        }
    }

    /// Where the cursor stands.
    pub fn position(&self) -> (place: Position)
        ensures
            place == position_at(self.text(), self.offset()),
            place.offset == self.offset(),
            0 <= self.offset() <= self.text().len(),
    {
        proof {
            use_type_invariant(self);
        }
        self.place
    }
}

/// Line and column of an offset never exceed the offset.
pub proof fn lemma_line_bounds(text: Seq<char>, offset: int)
    requires
        0 <= offset <= text.len(),
    ensures
        0 <= line_index(text, offset) <= offset,
        0 <= line_start(text, offset) <= offset,
    decreases offset,
{
    if offset > 0 {
        lemma_line_bounds(text, offset - 1);
    }
}

} // verus!
