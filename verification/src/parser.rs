use vstd::prelude::*;
use crate::classifier::{Lookahead, classify};
use crate::cursor::Cursor;
use crate::error::ParseError;
use crate::grammar::{
    Parsed, after, array_at, common_len, digit_at, digits_len, document, elements_rest, escape_at,
    escape_fault, exponent_len, first_element_at, fraction_len, hex_run, hex_value, holds,
    literal_at, member_at, members_rest, number_at, object_at, put, remaining, string_at,
    string_rest, unexpected, unicode_at, value_at, whitespace_len, whole_len,
};
use crate::lemmas::{lemma_key_index, lemma_number_alone, lemma_whitespace_run};
use crate::number::Number;
use crate::soundness::law_document_well_formed;
use crate::value::{Tree, Value, entries, lemma_array_view, lemma_object_view, trees};

verus! {

/// A production read `expected` between `before` and `behind`: on success
/// `result` holds the value read and the cursor stands behind its last
/// character; on a fault `result` holds the fault and the cursor stands
/// where it was met.
pub open spec fn reads<V: View>(
    before: &Cursor,
    behind: &Cursor,
    result: Result<V, ParseError>,
    expected: Parsed<V::V>,
) -> bool {
    &&& behind.text() == before.text()
    &&& 0 <= before.offset() <= behind.offset() <= behind.text().len()
    &&& match expected {
        Ok((value, length)) => {
            &&& result is Ok
            &&& result->Ok_0@ == value
            &&& behind.offset() == before.offset() + length
        },
        Err(error) => {
            &&& result == Err::<V, ParseError>(error)
            &&& behind.offset() == error.position().offset
        },
    }
}

/// The fault for whatever stands at the cursor.
fn unexpected_here(cursor: &Cursor) -> (error: ParseError)
    ensures
        error == unexpected(cursor.text(), cursor.offset()),
        error.position().offset == cursor.offset(),
{
    let position = cursor.position();
    match cursor.peek() {
        Some(character) => ParseError::UnexpectedCharacter { character, position },
        None => ParseError::UnexpectedEnd { position },
    }
}

/// The fault for whatever stands at the cursor inside an escape sequence.
fn escape_fault_here(cursor: &Cursor) -> (error: ParseError)
    ensures
        error == escape_fault(cursor.text(), cursor.offset()),
        error.position().offset == cursor.offset(),
{
    let position = cursor.position();
    match cursor.peek() {
        Some(_) => ParseError::InvalidEscape { position },
        None => ParseError::UnterminatedString { position },
    }
}

/// Consumes the whitespace at the cursor.
fn skip_whitespace(cursor: &mut Cursor)
    ensures
        final(cursor).text() == old(cursor).text(),
        final(cursor).offset() == old(cursor).offset() + whitespace_len(
            old(cursor).text(),
            old(cursor).offset(),
        ),
        0 <= old(cursor).offset() <= final(cursor).offset() <= old(cursor).text().len(),
{
    let ghost text = cursor.text();
    let ghost start = cursor.offset();
    loop
        invariant
            cursor.text() == text,
            start == old(cursor).offset(),
            text == old(cursor).text(),
            start <= cursor.offset(),
            whitespace_len(text, start) == cursor.offset() - start + whitespace_len(
                text,
                cursor.offset(),
            ),
        decreases text.len() - cursor.offset(),
    {
        match cursor.peek() {
            Some(c) => {
                if c == ' ' || c == '\t' || c == '\n' || c == '\r' {
                    cursor.advance();
                } else {
                    return ;
                }
            },
            None => {
                return ;
            },
        }
    }
}

/// The value of `c` as a hexadecimal digit.
fn hex_digit_value(c: char) -> (digit: Option<u32>)
    ensures
        match digit {
            Some(d) => hex_value(c) == Some(d as nat) && d < 16,
            None => hex_value(c) is None,
        },
{
    if c >= '0' && c <= '9' {
        Some(c as u32 - '0' as u32)
    } else if c >= 'a' && c <= 'f' {
        Some(c as u32 - 'a' as u32 + 10)
    } else if c >= 'A' && c <= 'F' {
        Some(c as u32 - 'A' as u32 + 10)
    } else {
        None
    }
}

/// Reads one hexadecimal digit and appends it to the digits before it, whose
/// value is `high`.
fn parse_hex_digit(cursor: &mut Cursor, high: u32) -> (r: Result<u32, ParseError>)
    requires
        high < 0x1000,
    ensures
        final(cursor).text() == old(cursor).text(),
        0 <= old(cursor).offset() <= final(cursor).offset() <= old(cursor).text().len(),
        match r {
            Ok(value) => {
                &&& 0 <= old(cursor).offset() < old(cursor).text().len()
                &&& hex_value(old(cursor).text()[old(cursor).offset()]) == Some(
                    (value - high * 16) as nat,
                )
                &&& high * 16 <= value < high * 16 + 16
                &&& final(cursor).offset() == old(cursor).offset() + 1
            },
            Err(error) => {
                &&& error == escape_fault(old(cursor).text(), old(cursor).offset())
                &&& final(cursor).offset() == old(cursor).offset()
                &&& error.position().offset == old(cursor).offset()
                &&& old(cursor).next() is Some ==> hex_value(old(cursor).next()->Some_0) is None
            },
        },
{
    match cursor.peek() {
        Some(c) => match hex_digit_value(c) {
            Some(digit) => {
                cursor.advance();
                Ok(high * 16 + digit)
            },
            None => Err(escape_fault_here(cursor)),
        },
        None => Err(escape_fault_here(cursor)),
    }
}

/// Reads the four hexadecimal digits of a `\u` escape.
fn parse_code_unit(cursor: &mut Cursor) -> (r: Result<u32, ParseError>)
    ensures
        final(cursor).text() == old(cursor).text(),
        0 <= old(cursor).offset() <= final(cursor).offset() <= old(cursor).text().len(),
        match hex_run(old(cursor).text(), old(cursor).offset(), 4, 0) {
            Ok(unit) => {
                &&& r == Ok::<u32, ParseError>(unit as u32)
                &&& unit < 0x10000
                &&& final(cursor).offset() == old(cursor).offset() + 4
            },
            Err(error) => {
                &&& r == Err::<u32, ParseError>(error)
                &&& final(cursor).offset() == error.position().offset
            },
        },
{
    proof {
        reveal_with_fuel(hex_run, 5);
    }
    let first = match parse_hex_digit(cursor, 0) {
        Ok(value) => value,
        Err(error) => {
            return Err(error);
        },
    };
    let second = match parse_hex_digit(cursor, first) {
        Ok(value) => value,
        Err(error) => {
            return Err(error);
        },
    };
    let third = match parse_hex_digit(cursor, second) {
        Ok(value) => value,
        Err(error) => {
            return Err(error);
        },
    };
    match parse_hex_digit(cursor, third) {
        Ok(value) => Ok(value),
        Err(error) => Err(error),
    }
}

/// Reads what follows `\u`: one code unit, or the two of a surrogate pair.
fn parse_unicode(cursor: &mut Cursor) -> (r: Result<char, ParseError>)
    ensures
        reads(
            old(cursor),
            final(cursor),
            r,
            unicode_at(old(cursor).text(), old(cursor).offset()),
        ),
{
    let unit = match parse_code_unit(cursor) {
        Ok(unit) => unit,
        Err(error) => {
            return Err(error);
        },
    };
    if 0xDC00 <= unit && unit <= 0xDFFF {
        return Err(ParseError::InvalidEscape { position: cursor.position() });
    }
    if !(0xD800 <= unit && unit <= 0xDBFF) {
        return match char::from_u32(unit) {
            Some(c) => Ok(c),
            None => Err(ParseError::InvalidEscape { position: cursor.position() }),
        };
    }
    match cursor.peek() {
        Some('\\') => {
            cursor.advance();
        },
        _ => {
            return Err(escape_fault_here(cursor));
        },
    }
    match cursor.peek() {
        Some('u') => {
            cursor.advance();
        },
        _ => {
            return Err(escape_fault_here(cursor));
        },
    }
    let second = match parse_code_unit(cursor) {
        Ok(second) => second,
        Err(error) => {
            return Err(error);
        },
    };
    if !(0xDC00 <= second && second <= 0xDFFF) {
        return Err(ParseError::InvalidEscape { position: cursor.position() });
    }
    match char::from_u32(0x10000 + (unit - 0xD800) * 0x400 + (second - 0xDC00)) {
        Some(c) => Ok(c),
        None => Err(ParseError::InvalidEscape { position: cursor.position() }),
    }
}

/// Reads an escape sequence, the cursor standing behind its backslash.
fn parse_escape(cursor: &mut Cursor) -> (r: Result<char, ParseError>)
    ensures
        reads(
            old(cursor),
            final(cursor),
            r,
            escape_at(old(cursor).text(), old(cursor).offset()),
        ),
{
    match cursor.peek() {
        None => Err(escape_fault_here(cursor)),
        Some(c) => {
            if c == 'u' {
                cursor.advance();
                parse_unicode(cursor)
            } else {
                let resolved = if c == '"' || c == '\\' || c == '/' {
                    c
                } else if c == 'b' {
                    '\u{8}'
                } else if c == 'f' {
                    '\u{c}'
                } else if c == 'n' {
                    '\n'
                } else if c == 'r' {
                    '\r'
                } else if c == 't' {
                    '\t'
                } else {
                    return Err(escape_fault_here(cursor));
                };
                cursor.advance();
                Ok(resolved)
            }
        },
    }
}

/// Reads a string: an opening quote, characters and escape sequences, and
/// the closing quote. The result holds the characters that the escape
/// sequences stand for.
pub fn parse_string(cursor: &mut Cursor) -> (r: Result<String, ParseError>)
    ensures
        reads(
            old(cursor),
            final(cursor),
            r,
            string_at(old(cursor).text(), old(cursor).offset()),
        ),
{
    let ghost text = cursor.text();
    let ghost start = cursor.offset();
    match cursor.peek() {
        Some('"') => {
            cursor.advance();
        },
        _ => {
            return Err(unexpected_here(cursor));
        },
    }
    let mut done = String::new();
    loop
        invariant
            cursor.text() == text,
            text == old(cursor).text(),
            start == old(cursor).offset(),
            0 <= start < cursor.offset() <= text.len(),
            string_at(text, start) == after(
                (cursor.offset() - start) as nat,
                string_rest(text, cursor.offset(), done@),
            ),
        decreases text.len() - cursor.offset(),
    {
        match cursor.peek() {
            None => {
                return Err(ParseError::UnterminatedString { position: cursor.position() });
            },
            Some(c) => {
                if c == '"' {
                    cursor.advance();
                    return Ok(done);
                } else if c == '\\' {
                    cursor.advance();
                    match parse_escape(cursor) {
                        Ok(resolved) => {
                            done.push(resolved);
                        },
                        Err(error) => {
                            return Err(error);
                        },
                    }
                } else if ' ' > c {
                    return Err(unexpected_here(cursor));
                } else {
                    cursor.advance();
                    done.push(c);
                }
            },
        }
    }
}

/// Whether `c` comes next.
fn next_is(cursor: &Cursor, c: char) -> (b: bool)
    ensures
        b == holds(cursor.text(), cursor.offset(), c),
        0 <= cursor.offset() <= cursor.text().len(),
{
    match cursor.peek() {
        Some(next) => next == c,
        None => false,
    }
}

/// Whether a decimal digit comes next.
fn digit_next(cursor: &Cursor) -> (b: bool)
    ensures
        b == digit_at(cursor.text(), cursor.offset()),
        0 <= cursor.offset() <= cursor.text().len(),
{
    match cursor.peek() {
        Some(next) => next >= '0' && next <= '9',
        None => false,
    }
}

/// Consumes the next character into `lexeme`, which holds the text since
/// `start`.
fn take(cursor: &mut Cursor, lexeme: &mut String, Ghost(start): Ghost<int>)
    requires
        old(cursor).next() is Some,
        0 <= start <= old(cursor).offset(),
        old(lexeme)@ == old(cursor).text().subrange(start, old(cursor).offset()),
    ensures
        final(cursor).text() == old(cursor).text(),
        final(cursor).offset() == old(cursor).offset() + 1,
        final(cursor).offset() <= old(cursor).text().len(),
        final(lexeme)@ == old(cursor).text().subrange(start, final(cursor).offset()),
{
    match cursor.advance() {
        Some(c) => {
            lexeme.push(c);
            assert(lexeme@ =~= cursor.text().subrange(start, cursor.offset()));
        },
        None => {},
    }
}

/// Consumes the run of digits at the cursor into `lexeme`, which holds the
/// text since `start`.
fn take_digits(cursor: &mut Cursor, lexeme: &mut String, Ghost(start): Ghost<int>)
    requires
        0 <= start <= old(cursor).offset(),
        old(lexeme)@ == old(cursor).text().subrange(start, old(cursor).offset()),
    ensures
        final(cursor).text() == old(cursor).text(),
        final(cursor).offset() == old(cursor).offset() + digits_len(
            old(cursor).text(),
            old(cursor).offset(),
        ),
        final(cursor).offset() <= old(cursor).text().len(),
        final(lexeme)@ == old(cursor).text().subrange(start, final(cursor).offset()),
{
    let ghost text = cursor.text();
    let ghost first = cursor.offset();
    loop
        invariant
            cursor.text() == text,
            text == old(cursor).text(),
            first == old(cursor).offset(),
            0 <= start <= first <= cursor.offset(),
            lexeme@ == text.subrange(start, cursor.offset()),
            digits_len(text, first) == cursor.offset() - first + digits_len(text, cursor.offset()),
        decreases text.len() - cursor.offset(),
    {
        if digit_next(cursor) {
            take(cursor, lexeme, Ghost(start));
        } else {
            return ;
        }
    }
}

/// Consumes sign and digits before the fraction of a number into `lexeme`,
/// which holds the text since `start`.
fn take_whole(cursor: &mut Cursor, lexeme: &mut String, Ghost(start): Ghost<int>) -> (r: Result<
    (),
    ParseError,
>)
    requires
        0 <= start <= old(cursor).offset(),
        old(lexeme)@ == old(cursor).text().subrange(start, old(cursor).offset()),
    ensures
        final(cursor).text() == old(cursor).text(),
        old(cursor).offset() <= final(cursor).offset() <= old(cursor).text().len(),
        match whole_len(old(cursor).text(), old(cursor).offset()) {
            Ok(length) => {
                &&& r is Ok
                &&& final(cursor).offset() == old(cursor).offset() + length
                &&& final(lexeme)@ == old(cursor).text().subrange(start, final(cursor).offset())
            },
            Err(error) => r == Err::<(), ParseError>(error) && final(cursor).offset()
                == error.position().offset,
        },
{
    if next_is(cursor, '-') {
        take(cursor, lexeme, Ghost(start));
    }
    if !digit_next(cursor) {
        return Err(ParseError::InvalidNumber { position: cursor.position() });
    }
    let zero = next_is(cursor, '0');
    take(cursor, lexeme, Ghost(start));
    if zero && digit_next(cursor) {
        return Err(ParseError::InvalidNumber { position: cursor.position() });
    }
    take_digits(cursor, lexeme, Ghost(start));
    Ok(())
}

/// Consumes the fraction of a number, if one is there, into `lexeme`, which
/// holds the text since `start`.
fn take_fraction(cursor: &mut Cursor, lexeme: &mut String, Ghost(start): Ghost<int>) -> (r:
    Result<(), ParseError>)
    requires
        0 <= start <= old(cursor).offset(),
        old(lexeme)@ == old(cursor).text().subrange(start, old(cursor).offset()),
    ensures
        final(cursor).text() == old(cursor).text(),
        old(cursor).offset() <= final(cursor).offset() <= old(cursor).text().len(),
        match fraction_len(old(cursor).text(), old(cursor).offset()) {
            Ok(length) => {
                &&& r is Ok
                &&& final(cursor).offset() == old(cursor).offset() + length
                &&& final(lexeme)@ == old(cursor).text().subrange(start, final(cursor).offset())
            },
            Err(error) => r == Err::<(), ParseError>(error) && final(cursor).offset()
                == error.position().offset,
        },
{
    if next_is(cursor, '.') {
        take(cursor, lexeme, Ghost(start));
        if !digit_next(cursor) {
            return Err(ParseError::InvalidNumber { position: cursor.position() });
        }
        take_digits(cursor, lexeme, Ghost(start));
    }
    Ok(())
}

/// Consumes the exponent of a number, if one is there, into `lexeme`, which
/// holds the text since `start`.
fn take_exponent(cursor: &mut Cursor, lexeme: &mut String, Ghost(start): Ghost<int>) -> (r:
    Result<(), ParseError>)
    requires
        0 <= start <= old(cursor).offset(),
        old(lexeme)@ == old(cursor).text().subrange(start, old(cursor).offset()),
    ensures
        final(cursor).text() == old(cursor).text(),
        old(cursor).offset() <= final(cursor).offset() <= old(cursor).text().len(),
        match exponent_len(old(cursor).text(), old(cursor).offset()) {
            Ok(length) => {
                &&& r is Ok
                &&& final(cursor).offset() == old(cursor).offset() + length
                &&& final(lexeme)@ == old(cursor).text().subrange(start, final(cursor).offset())
            },
            Err(error) => r == Err::<(), ParseError>(error) && final(cursor).offset()
                == error.position().offset,
        },
{
    if next_is(cursor, 'e') || next_is(cursor, 'E') {
        take(cursor, lexeme, Ghost(start));
        if next_is(cursor, '+') || next_is(cursor, '-') {
            take(cursor, lexeme, Ghost(start));
        }
        if !digit_next(cursor) {
            return Err(ParseError::InvalidNumber { position: cursor.position() });
        }
        take_digits(cursor, lexeme, Ghost(start));
    }
    Ok(())
}

/// Reads a number: an optional minus sign, `0` or digits that do not begin
/// with `0`, an optional fraction and an optional exponent.
pub fn parse_number(cursor: &mut Cursor) -> (r: Result<Number, ParseError>)
    ensures
        reads(
            old(cursor),
            final(cursor),
            r,
            number_at(old(cursor).text(), old(cursor).offset()),
        ),
{
    let ghost text = cursor.text();
    let ghost start = cursor.offset();
    let mut lexeme = String::new();
    let _ = cursor.position();
    assert(lexeme@ =~= text.subrange(start, start));
    if let Err(error) = take_whole(cursor, &mut lexeme, Ghost(start)) {
        return Err(error);
    }
    if let Err(error) = take_fraction(cursor, &mut lexeme, Ghost(start)) {
        return Err(error);
    }
    if let Err(error) = take_exponent(cursor, &mut lexeme, Ghost(start)) {
        return Err(error);
    }
    proof {
        lemma_number_alone(text, start, (cursor.offset() - start) as nat);
    }
    Ok(Number::from_lexeme(lexeme))
}

/// Consumes `word`, or as much of it as stands at the cursor.
fn expect_word(cursor: &mut Cursor, word: &str) -> (r: Result<(), ParseError>)
    ensures
        final(cursor).text() == old(cursor).text(),
        0 <= old(cursor).offset() <= final(cursor).offset() <= old(cursor).text().len(),
        r is Err ==> r->Err_0.position().offset == final(cursor).offset(),
        ({
            let found = common_len(old(cursor).text(), old(cursor).offset(), word@, 0);
            &&& final(cursor).offset() == old(cursor).offset() + found
            &&& if found == word@.len() {
                r is Ok
            } else {
                r == Err::<(), ParseError>(
                    unexpected(old(cursor).text(), old(cursor).offset() + found),
                )
            }
        }),
{
    let ghost text = cursor.text();
    let ghost start = cursor.offset();
    let _ = cursor.position();
    for c in it: word.chars()
        invariant
            it.seq() == word@,
            cursor.text() == text,
            text == old(cursor).text(),
            start == old(cursor).offset(),
            0 <= start,
            cursor.offset() == start + it.index(),
            cursor.offset() <= text.len(),
            common_len(text, start, word@, 0) == it.index() + common_len(
                text,
                start,
                word@,
                it.index() as int,
            ),
    {
        if next_is(cursor, c) {
            cursor.advance();
        } else {
            return Err(unexpected_here(cursor));
        }
    }
    Ok(())
}

/// Reads one of the literals `true`, `false` and `null`.
pub fn parse_literal(cursor: &mut Cursor) -> (r: Result<Value, ParseError>)
    ensures
        reads(
            old(cursor),
            final(cursor),
            r,
            literal_at(old(cursor).text(), old(cursor).offset()),
        ),
{
    if next_is(cursor, 't') {
        match expect_word(cursor, "true") {
            Ok(()) => Ok(Value::Bool(true)),
            Err(error) => Err(error),
        }
    } else if next_is(cursor, 'f') {
        match expect_word(cursor, "false") {
            Ok(()) => Ok(Value::Bool(false)),
            Err(error) => Err(error),
        }
    } else if next_is(cursor, 'n') {
        match expect_word(cursor, "null") {
            Ok(()) => Ok(Value::Null),
            Err(error) => Err(error),
        }
    } else {
        Err(unexpected_here(cursor))
    }
}

/// Reads a value, behind any whitespace: an object, an array, a string, a
/// literal or a number, told by its first character.
pub fn parse_value(cursor: &mut Cursor) -> (r: Result<Value, ParseError>)
    ensures
        reads(old(cursor), final(cursor), r, value_at(old(cursor).text(), old(cursor).offset())),
    decreases remaining(old(cursor).text(), old(cursor).offset()), 2nat,
{
    skip_whitespace(cursor);
    match cursor.peek() {
        None => Err(unexpected_here(cursor)),
        Some(c) => match classify(c) {
            Lookahead::Object => parse_object(cursor),
            Lookahead::Array => parse_array(cursor),
            Lookahead::String => match parse_string(cursor) {
                Ok(text) => Ok(Value::String(text)),
                Err(error) => Err(error),
            },
            Lookahead::Literal => parse_literal(cursor),
            Lookahead::Number => match parse_number(cursor) {
                Ok(number) => Ok(Value::Number(number)),
                Err(error) => Err(error),
            },
            Lookahead::Other => Err(unexpected_here(cursor)),
        },
    }
}

/// Reads what stands behind the opening bracket of an array: `None` for the
/// closing bracket of an empty array, which it consumes, else the first
/// element.
pub fn parse_value_first_item_array(cursor: &mut Cursor) -> (r: Result<Option<Value>, ParseError>)
    ensures
        final(cursor).text() == old(cursor).text(),
        0 <= old(cursor).offset() <= final(cursor).offset() <= old(cursor).text().len(),
        match first_element_at(old(cursor).text(), old(cursor).offset()) {
            Ok((first, length)) => {
                &&& final(cursor).offset() == old(cursor).offset() + length
                &&& match first {
                    Some(tree) => r is Ok && r->Ok_0 is Some && r->Ok_0->Some_0@ == tree,
                    None => r is Ok && r->Ok_0 is None,
                }
            },
            Err(error) => {
                &&& r == Err::<Option<Value>, ParseError>(error)
                &&& final(cursor).offset() == error.position().offset
            },
        },
    decreases remaining(old(cursor).text(), old(cursor).offset()), 3nat,
{
    let ghost text = cursor.text();
    let ghost start = cursor.offset();
    skip_whitespace(cursor);
    proof {
            lemma_whitespace_run(text, start);
    }
    if next_is(cursor, ']') {
        cursor.advance();
        Ok(None)
    } else {
        match parse_value(cursor) {
            Ok(value) => Ok(Some(value)),
            Err(error) => Err(error),
        }
    }
}

/// Reads an array: an opening bracket, elements with a comma between each
/// two, and the closing bracket.
pub fn parse_array(cursor: &mut Cursor) -> (r: Result<Value, ParseError>)
    ensures
        reads(old(cursor), final(cursor), r, array_at(old(cursor).text(), old(cursor).offset())),
    decreases remaining(old(cursor).text(), old(cursor).offset()), 1nat,
{
    let ghost text = cursor.text();
    let ghost start = cursor.offset();
    if !next_is(cursor, '[') {
        return Err(unexpected_here(cursor));
    }
    cursor.advance();
    let mut elements: Vec<Value> = Vec::new();
    match parse_value_first_item_array(cursor) {
        Err(error) => {
            return Err(error);
        },
        Ok(None) => {
            proof {
                lemma_array_view(elements);
                assert(trees(elements@) =~= Seq::empty());
            }
            return Ok(Value::Array(elements));
        },
        Ok(Some(first)) => {
            elements.push(first);
            assert(trees(elements@) =~= seq![first@]);
        },
    }
    loop
        invariant
            cursor.text() == text,
            text == old(cursor).text(),
            start == old(cursor).offset(),
            0 <= start < cursor.offset() <= text.len(),
            array_at(text, start) == after(
                (cursor.offset() - start) as nat,
                elements_rest(text, cursor.offset(), trees(elements@)),
            ),
        decreases remaining(text, cursor.offset()),
    {
        let ghost done = trees(elements@);
        skip_whitespace(cursor);
        if next_is(cursor, ',') {
            cursor.advance();
            match parse_value(cursor) {
                Ok(element) => {
                    elements.push(element);
                    assert(trees(elements@) =~= done.push(element@));
                },
                Err(error) => {
                    return Err(error);
                },
            }
        } else if next_is(cursor, ']') {
            cursor.advance();
            proof {
                lemma_array_view(elements);
            }
            return Ok(Value::Array(elements));
        } else {
            return Err(unexpected_here(cursor));
        }
    }
}

/// Sets `key` to `value` among `members`: in the place of the first member
/// with that key, else as a new last member.
fn put_member(members: &mut Vec<(String, Value)>, key: String, value: Value)
    ensures
        entries(final(members)@) == put(entries(old(members)@), key@, value@),
{
    let ghost before = entries(members@);
    let mut i: usize = 0;
    while i < members.len()
        invariant
            0 <= i <= members.len(),
            members@ == old(members)@,
            before == entries(members@),
            forall|j: int| 0 <= j < i ==> (#[trigger] before[j]).0 != key@,
        decreases members.len() - i,
    {
        assert(before[i as int] == (members@[i as int].0@, members@[i as int].1@));
        if members[i].0 == key {
            proof {
                lemma_key_index(before, key@, i as int);
            }
            members.set(i, (key, value));
            assert(entries(members@) =~= before.update(i as int, (key@, value@)));
            return ;
        }
        i += 1;
    }
    proof {
        lemma_key_index(before, key@, before.len() as int);
    }
    members.push((key, value));
    assert(entries(members@) =~= before.push((key@, value@)));
}

/// Reads one member of an object, behind any whitespace: a string that is
/// the key, a colon and a value.
pub fn parse_member(cursor: &mut Cursor) -> (r: Result<(String, Value), ParseError>)
    ensures
        reads(old(cursor), final(cursor), r, member_at(old(cursor).text(), old(cursor).offset())),
    decreases remaining(old(cursor).text(), old(cursor).offset()), 3nat,
{
    skip_whitespace(cursor);
    let key = match parse_string(cursor) {
        Ok(key) => key,
        Err(error) => {
            return Err(error);
        },
    };
    skip_whitespace(cursor);
    if !next_is(cursor, ':') {
        return Err(unexpected_here(cursor));
    }
    cursor.advance();
    match parse_value(cursor) {
        Ok(value) => Ok((key, value)),
        Err(error) => Err(error),
    }
}

/// Reads an object: an opening brace, members with a comma between each
/// two, and the closing brace. Of two members with one key the later one
/// stays, in the place of the earlier one.
pub fn parse_object(cursor: &mut Cursor) -> (r: Result<Value, ParseError>)
    ensures
        reads(old(cursor), final(cursor), r, object_at(old(cursor).text(), old(cursor).offset())),
    decreases remaining(old(cursor).text(), old(cursor).offset()), 1nat,
{
    let ghost text = cursor.text();
    let ghost start = cursor.offset();
    if !next_is(cursor, '{') {
        return Err(unexpected_here(cursor));
    }
    cursor.advance();
    let mut members: Vec<(String, Value)> = Vec::new();
    skip_whitespace(cursor);
    if next_is(cursor, '}') {
        cursor.advance();
        proof {
            lemma_object_view(members);
            assert(entries(members@) =~= Seq::empty());
        }
        return Ok(Value::Object(members));
    }
    match parse_member(cursor) {
        Ok(first) => {
            members.push(first);
            assert(entries(members@) =~= seq![first@]);
        },
        Err(error) => {
            return Err(error);
        },
    }
    loop
        invariant
            cursor.text() == text,
            text == old(cursor).text(),
            start == old(cursor).offset(),
            0 <= start < cursor.offset() <= text.len(),
            object_at(text, start) == after(
                (cursor.offset() - start) as nat,
                members_rest(text, cursor.offset(), entries(members@)),
            ),
        decreases remaining(text, cursor.offset()),
    {
        skip_whitespace(cursor);
        if next_is(cursor, ',') {
            cursor.advance();
            match parse_member(cursor) {
                Ok((key, value)) => {
                    put_member(&mut members, key, value);
                },
                Err(error) => {
                    return Err(error);
                },
            }
        } else if next_is(cursor, '}') {
            cursor.advance();
            proof {
                lemma_object_view(members);
            }
            return Ok(Value::Object(members));
        } else {
            return Err(unexpected_here(cursor));
        }
    }
}

/// Reads a document: one value, with nothing but whitespace round it. The
/// value is well-formed: its numbers are written as the grammar asks, and
/// its objects hold no key twice.
pub fn parse(text: &str) -> (r: Result<Value, ParseError>)
    ensures
        match r {
            Ok(value) => document(text@) == Ok::<Tree, ParseError>(value@) && value@.well_formed(),
            Err(error) => document(text@) == Err::<Tree, ParseError>(error),
        },
{
    proof {
        law_document_well_formed(text@);
    }
    let mut cursor = Cursor::new(text);
    let value = match parse_value(&mut cursor) {
        Ok(value) => value,
        Err(error) => {
            return Err(error);
        },
    };
    skip_whitespace(&mut cursor);
    match cursor.peek() {
        Some(_) => Err(ParseError::TrailingData { position: cursor.position() }),
        None => Ok(value),
    }
}

/// A parsed document: the values at its top level. A text holds one.
#[derive(Debug, PartialEq, Eq)]
pub struct JSON {
    elements: Vec<Value>,
}

impl View for JSON {
    type V = Seq<Tree>;

    closed spec fn view(&self) -> Seq<Tree> {
        trees(self.elements@)
    }
}

impl JSON {
    /// A document without a value.
    pub fn new() -> (json: JSON)
        ensures
            json@ == Seq::<Tree>::empty(),
    {
        let json = JSON { elements: Vec::new() };
        assert(json@ =~= Seq::<Tree>::empty());
        json
    }

    /// The document that `raw` is.
    pub fn parse(raw: String) -> (r: Result<JSON, ParseError>)
        ensures
            match r {
                Ok(json) => {
                    &&& json@.len() == 1
                    &&& document(raw@) == Ok::<Tree, ParseError>(json@[0])
                    &&& json@[0].well_formed()
                },
                Err(error) => document(raw@) == Err::<Tree, ParseError>(error),
            },
    {
        tokenize(raw)
    }

    /// The values of the document.
    pub fn elements(&self) -> (elements: &Vec<Value>)
        ensures
            trees(elements@) == self@,
    {
        &self.elements
    }
}

/// Reads `raw` as a document and returns it with its one value.
pub fn tokenize(raw: String) -> (r: Result<JSON, ParseError>)
    ensures
        match r {
            Ok(json) => {
                &&& json@.len() == 1
                &&& document(raw@) == Ok::<Tree, ParseError>(json@[0])
                &&& json@[0].well_formed()
            },
            Err(error) => document(raw@) == Err::<Tree, ParseError>(error),
        },
{
    match parse(raw.as_str()) {
        Ok(value) => {
            let mut elements: Vec<Value> = Vec::new();
            elements.push(value);
            let json = JSON { elements };
            assert(json@ =~= seq![value@]);
            Ok(json)
        },
        Err(error) => Err(error),
    }
}

} // verus!
