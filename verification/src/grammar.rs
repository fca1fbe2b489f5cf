use vstd::prelude::*;
use crate::classifier::{Lookahead, is_digit, lookahead};
use crate::cursor::position_at;
use crate::error::ParseError;
use crate::value::Tree;

verus! {

/// What reading one production at some offset gives: the value read and the
/// number of characters it took, or the first fault met.
pub type Parsed<T> = Result<(T, nat), ParseError>;

/// `rest`, read after `skipped` more characters.
pub open spec fn after<T>(skipped: nat, rest: Parsed<T>) -> Parsed<T> {
    match rest {
        Ok((value, length)) => Ok((value, skipped + length)),
        Err(error) => Err(error),
    }
}

/// How many characters of `text` stand at or behind `from`.
pub open spec fn remaining(text: Seq<char>, from: int) -> nat {
    if from <= text.len() {
        (text.len() - from) as nat
    } else {
        0
    }
}

/// `text` holds `c` at offset `at`.
pub open spec fn holds(text: Seq<char>, at: int, c: char) -> bool {
    0 <= at < text.len() && text[at] == c
}

/// The fault for a character that no production accepts at `at`, or for the
/// end of the text there.
pub open spec fn unexpected(text: Seq<char>, at: int) -> ParseError {
    if 0 <= at < text.len() {
        ParseError::UnexpectedCharacter { character: text[at], position: position_at(text, at) }
    } else {
        ParseError::UnexpectedEnd { position: position_at(text, at) }
    }
}

pub open spec fn is_whitespace(c: char) -> bool {
    c == ' ' || c == '\t' || c == '\n' || c == '\r'
}

/// A character that may not stand unescaped inside a string.
pub open spec fn is_control(c: char) -> bool {
    ' ' > c
}

/// The length of the run of whitespace that starts at `from`.
pub open spec fn whitespace_len(text: Seq<char>, from: int) -> nat
    decreases text.len() - from,
{
    if 0 <= from < text.len() && is_whitespace(text[from]) {
        1 + whitespace_len(text, from + 1)
    } else {
        0
    }
}

pub open spec fn digit_at(text: Seq<char>, at: int) -> bool {
    0 <= at < text.len() && is_digit(text[at])
}

/// The length of the run of decimal digits that starts at `from`.
pub open spec fn digits_len(text: Seq<char>, from: int) -> nat
    decreases text.len() - from,
{
    if digit_at(text, from) {
        1 + digits_len(text, from + 1)
    } else {
        0
    }
}

/// How many characters of `word`, from its `k`-th on, stand in `text` at the
/// matching offsets from `from + k` on.
pub open spec fn common_len(text: Seq<char>, from: int, word: Seq<char>, k: int) -> nat
    decreases word.len() - k,
{
    if 0 <= k < word.len() && holds(text, from + k, word[k]) {
        1 + common_len(text, from, word, k + 1)
    } else {
        0
    }
}

/// The keyword `word` at `from`: all of it, or the fault at its first
/// character that is not there.
pub open spec fn keyword_at(text: Seq<char>, from: int, word: Seq<char>, tree: Tree) -> Parsed<
    Tree,
> {
    let found = common_len(text, from, word, 0);
    if found == word.len() {
        Ok((tree, found))
    } else {
        Err(unexpected(text, from + found))
    }
}

pub open spec fn word_true() -> Seq<char> {
    "true"@
}

pub open spec fn word_false() -> Seq<char> {
    "false"@
}

pub open spec fn word_null() -> Seq<char> {
    "null"@
}

/// The literal at `from`, told by its first letter: `true`, `false` or
/// `null`.
pub open spec fn literal_at(text: Seq<char>, from: int) -> Parsed<Tree> {
    if holds(text, from, 't') {
        keyword_at(text, from, word_true(), Tree::Bool(true))
    } else if holds(text, from, 'f') {
        keyword_at(text, from, word_false(), Tree::Bool(false))
    } else if holds(text, from, 'n') {
        keyword_at(text, from, word_null(), Tree::Null)
    } else {
        Err(unexpected(text, from))
    }
}

pub open spec fn invalid_number(text: Seq<char>, at: int) -> ParseError {
    ParseError::InvalidNumber { position: position_at(text, at) }
}

/// The fraction of a number at `from`: nothing, or a point and at least one
/// digit.
pub open spec fn fraction_len(text: Seq<char>, from: int) -> Result<nat, ParseError> {
    if !holds(text, from, '.') {
        Ok(0)
    } else if digit_at(text, from + 1) {
        Ok(1 + digits_len(text, from + 1))
    } else {
        Err(invalid_number(text, from + 1))
    }
}

/// The exponent of a number at `from`: nothing, or `e` or `E`, an optional
/// sign and at least one digit.
pub open spec fn exponent_len(text: Seq<char>, from: int) -> Result<nat, ParseError> {
    if !(holds(text, from, 'e') || holds(text, from, 'E')) {
        Ok(0)
    } else {
        let sign: nat = if holds(text, from + 1, '+') || holds(text, from + 1, '-') {
            1
        } else {
            0
        };
        if digit_at(text, from + 1 + sign) {
            Ok(1 + sign + digits_len(text, from + 1 + sign))
        } else {
            Err(invalid_number(text, from + 1 + sign))
        }
    }
}

/// The sign and the digits before the fraction of a number at `from`: an
/// optional minus sign, then `0` or a run of digits that does not begin
/// with `0`.
pub open spec fn whole_len(text: Seq<char>, from: int) -> Result<nat, ParseError> {
    let sign: nat = if holds(text, from, '-') {
        1
    } else {
        0
    };
    let first = from + sign;
    if !digit_at(text, first) {
        Err(invalid_number(text, first))
    } else if text[first] == '0' && digit_at(text, first + 1) {
        Err(invalid_number(text, first + 1))
    } else {
        Ok(sign + digits_len(text, first))
    }
}

/// The length of the number that starts at `from`: sign and digits, then the
/// fraction, then the exponent.
pub open spec fn number_len(text: Seq<char>, from: int) -> Result<nat, ParseError> {
    match whole_len(text, from) {
        Err(error) => Err(error),
        Ok(whole) => match fraction_len(text, from + whole) {
            Err(error) => Err(error),
            Ok(fraction) => match exponent_len(text, from + whole + fraction) {
                Err(error) => Err(error),
                Ok(exponent) => Ok(whole + fraction + exponent),
            },
        },
    }
}

/// `lexeme` is, from its first to its last character, one JSON number.
pub open spec fn is_number(lexeme: Seq<char>) -> bool {
    number_len(lexeme, 0) == Ok::<nat, ParseError>(lexeme.len())
}

/// The number that starts at `from`, as it is written.
pub open spec fn number_at(text: Seq<char>, from: int) -> Parsed<Seq<char>> {
    match number_len(text, from) {
        Ok(length) => Ok((text.subrange(from, from + length), length)),
        Err(error) => Err(error),
    }
}

/// The value of a hexadecimal digit.
pub open spec fn hex_value(c: char) -> Option<nat> {
    if '0' <= c <= '9' {
        Some((c as nat - '0' as nat) as nat)
    } else if 'a' <= c <= 'f' {
        Some((c as nat - 'a' as nat + 10) as nat)
    } else if 'A' <= c <= 'F' {
        Some((c as nat - 'A' as nat + 10) as nat)
    } else {
        None
    }
}

/// The fault inside an escape sequence at `at`: the text ends there, or the
/// character there does not belong.
pub open spec fn escape_fault(text: Seq<char>, at: int) -> ParseError {
    if 0 <= at < text.len() {
        ParseError::InvalidEscape { position: position_at(text, at) }
    } else {
        ParseError::UnterminatedString { position: position_at(text, at) }
    }
}

/// The number written by `count` hexadecimal digits at `from`, continuing
/// from `high`, the value of the digits before them.
pub open spec fn hex_run(text: Seq<char>, from: int, count: nat, high: nat) -> Result<
    nat,
    ParseError,
>
    decreases count,
{
    if count == 0 {
        Ok(high)
    } else if !(0 <= from < text.len()) {
        Err(escape_fault(text, from))
    } else {
        match hex_value(text[from]) {
            Some(digit) => hex_run(text, from + 1, (count - 1) as nat, high * 16 + digit),
            None => Err(escape_fault(text, from)),
        }
    }
}

pub open spec fn is_leading_surrogate(unit: nat) -> bool {
    0xD800 <= unit <= 0xDBFF
}

pub open spec fn is_trailing_surrogate(unit: nat) -> bool {
    0xDC00 <= unit <= 0xDFFF
}

/// The scalar value that a surrogate pair stands for.
pub open spec fn paired(leading: nat, trailing: nat) -> nat {
    (0x10000 + (leading - 0xD800) * 0x400 + (trailing - 0xDC00)) as nat
}

/// What follows `\u` at `from`: four hexadecimal digits; where they give a
/// leading surrogate, a second `\u` escape with the trailing one. A
/// surrogate without its partner is a fault where the partner is missed.
pub open spec fn unicode_at(text: Seq<char>, from: int) -> Parsed<char> {
    match hex_run(text, from, 4, 0) {
        Err(error) => Err(error),
        Ok(unit) => if is_trailing_surrogate(unit) {
            Err(ParseError::InvalidEscape { position: position_at(text, from + 4) })
        } else if !is_leading_surrogate(unit) {
            Ok((unit as char, 4))
        } else if !holds(text, from + 4, '\\') {
            Err(escape_fault(text, from + 4))
        } else if !holds(text, from + 5, 'u') {
            Err(escape_fault(text, from + 5))
        } else {
            match hex_run(text, from + 6, 4, 0) {
                Err(error) => Err(error),
                Ok(second) => if is_trailing_surrogate(second) {
                    Ok((paired(unit, second) as char, 10))
                } else {
                    Err(ParseError::InvalidEscape { position: position_at(text, from + 10) })
                },
            }
        },
    }
}

/// The character that a one-letter escape stands for.
pub open spec fn short_escape(c: char) -> Option<char> {
    if c == '"' || c == '\\' || c == '/' {
        Some(c)
    } else if c == 'b' {
        Some('\u{8}')
    } else if c == 'f' {
        Some('\u{c}')
    } else if c == 'n' {
        Some('\n')
    } else if c == 'r' {
        Some('\r')
    } else if c == 't' {
        Some('\t')
    } else {
        None
    }
}

/// The escape whose first character, the one behind the backslash, stands at
/// `from`.
pub open spec fn escape_at(text: Seq<char>, from: int) -> Parsed<char> {
    if !(0 <= from < text.len()) {
        Err(escape_fault(text, from))
    } else if text[from] == 'u' {
        after(1, unicode_at(text, from + 1))
    } else {
        match short_escape(text[from]) {
            Some(c) => Ok((c, 1)),
            None => Err(escape_fault(text, from)),
        }
    }
}

/// The rest of a string from `from` up to and with its closing quote, `done`
/// being the characters read since the opening quote.
pub open spec fn string_rest(text: Seq<char>, from: int, done: Seq<char>) -> Parsed<Seq<char>>
    decreases remaining(text, from),
{
    if !(0 <= from < text.len()) {
        Err(ParseError::UnterminatedString { position: position_at(text, from) })
    } else if text[from] == '"' {
        Ok((done, 1))
    } else if text[from] == '\\' {
        match escape_at(text, from + 1) {
            Err(error) => Err(error),
            Ok((c, length)) => after(
                1 + length,
                string_rest(text, from + 1 + length, done.push(c)),
            ),
        }
    } else if is_control(text[from]) {
        Err(unexpected(text, from))
    } else {
        after(1, string_rest(text, from + 1, done.push(text[from])))
    }
}

/// The string whose opening quote stands at `from`.
pub open spec fn string_at(text: Seq<char>, from: int) -> Parsed<Seq<char>> {
    if holds(text, from, '"') {
        after(1, string_rest(text, from + 1, Seq::empty()))
    } else {
        Err(unexpected(text, from))
    }
}

/// Where `key` first occurs among `members`; their number where it does not.
pub open spec fn key_index(members: Seq<(Seq<char>, Tree)>, key: Seq<char>) -> int
    decreases members.len(),
{
    if members.len() == 0 {
        0
    } else {
        let before = key_index(members.drop_last(), key);
        if before < members.len() - 1 {
            before
        } else if members.last().0 == key {
            members.len() - 1
        } else {
            members.len() as int
        }
    }
}

/// `members` with `key` set to `value`: in the place where `key` stood,
/// else as a new last member.
pub open spec fn put(members: Seq<(Seq<char>, Tree)>, key: Seq<char>, value: Tree) -> Seq<
    (Seq<char>, Tree),
> {
    let at = key_index(members, key);
    if 0 <= at < members.len() {
        members.update(at, (key, value))
    } else {
        members.push((key, value))
    }
}

} // verus!

verus! {

/// The value at `from`, behind any whitespace there: the production that
/// its first character tells.
pub open spec fn value_at(text: Seq<char>, from: int) -> Parsed<Tree>
    decreases remaining(text, from), 2nat,
{
    let space = whitespace_len(text, from);
    let at = from + space;
    after(
        space,
        if !(0 <= at < text.len()) {
            Err(unexpected(text, at))
        } else {
            match lookahead(text[at]) {
                Lookahead::Object => object_at(text, at),
                Lookahead::Array => array_at(text, at),
                Lookahead::String => match string_at(text, at) {
                    Ok((s, length)) => Ok((Tree::String(s), length)),
                    Err(error) => Err(error),
                },
                Lookahead::Literal => literal_at(text, at),
                Lookahead::Number => match number_at(text, at) {
                    Ok((lexeme, length)) => Ok((Tree::Number(lexeme), length)),
                    Err(error) => Err(error),
                },
                Lookahead::Other => Err(unexpected(text, at)),
            }
        },
    )
}

/// The array whose opening bracket stands at `from`.
pub open spec fn array_at(text: Seq<char>, from: int) -> Parsed<Tree>
    decreases remaining(text, from), 1nat,
{
    if !holds(text, from, '[') {
        Err(unexpected(text, from))
    } else {
        match first_element_at(text, from + 1) {
            Err(error) => Err(error),
            Ok((None, length)) => Ok((Tree::Array(Seq::empty()), 1 + length)),
            Ok((Some(element), length)) => after(
                1 + length,
                elements_rest(text, from + 1 + length, seq![element]),
            ),
        }
    }
}

/// What stands behind the opening bracket of an array, `from` being the
/// offset behind it: the closing bracket of an empty array, or the first
/// element.
pub open spec fn first_element_at(text: Seq<char>, from: int) -> Parsed<Option<Tree>>
    decreases remaining(text, from), 3nat,
{
    let space = whitespace_len(text, from);
    if holds(text, from + space, ']') {
        Ok((None, space + 1))
    } else {
        match value_at(text, from) {
            Err(error) => Err(error),
            Ok((element, length)) => Ok((Some(element), length)),
        }
    }
}

/// The rest of an array from `from`, which lies behind an element, up to and
/// with the closing bracket, `done` being the elements read so far: a
/// comma and one more element, or the bracket.
pub open spec fn elements_rest(text: Seq<char>, from: int, done: Seq<Tree>) -> Parsed<Tree>
    decreases remaining(text, from), 3nat,
{
    let space = whitespace_len(text, from);
    let at = from + space;
    if holds(text, at, ',') {
        match value_at(text, at + 1) {
            Err(error) => Err(error),
            Ok((element, length)) => after(
                space + 1 + length,
                elements_rest(text, at + 1 + length, done.push(element)),
            ),
        }
    } else if holds(text, at, ']') {
        Ok((Tree::Array(done), space + 1))
    } else {
        Err(unexpected(text, at))
    }
}

/// The object whose opening brace stands at `from`.
pub open spec fn object_at(text: Seq<char>, from: int) -> Parsed<Tree>
    decreases remaining(text, from), 1nat,
{
    if !holds(text, from, '{') {
        Err(unexpected(text, from))
    } else {
        let space = whitespace_len(text, from + 1);
        if holds(text, from + 1 + space, '}') {
            Ok((Tree::Object(Seq::empty()), 2 + space))
        } else {
            match member_at(text, from + 1 + space) {
                Err(error) => Err(error),
                Ok(((key, value), length)) => after(
                    1 + space + length,
                    members_rest(text, from + 1 + space + length, seq![(key, value)]),
                ),
            }
        }
    }
}

/// One member of an object at `from`, behind any whitespace there: a string,
/// a colon and a value.
pub open spec fn member_at(text: Seq<char>, from: int) -> Parsed<(Seq<char>, Tree)>
    decreases remaining(text, from), 3nat,
{
    let space = whitespace_len(text, from);
    match string_at(text, from + space) {
        Err(error) => Err(error),
        Ok((key, length)) => {
            let gap = whitespace_len(text, from + space + length);
            let colon = from + space + length + gap;
            if !holds(text, colon, ':') {
                Err(unexpected(text, colon))
            } else {
                match value_at(text, colon + 1) {
                    Err(error) => Err(error),
                    Ok((value, more)) => Ok(((key, value), space + length + gap + 1 + more)),
                }
            }
        },
    }
}

/// The rest of an object from `from`, which lies behind a member, up to and
/// with the closing brace, `done` being the members read so far: a comma
/// and one more member, or the brace. A key that comes again takes the
/// later value.
pub open spec fn members_rest(text: Seq<char>, from: int, done: Seq<(Seq<char>, Tree)>) -> Parsed<
    Tree,
>
    decreases remaining(text, from), 3nat,
{
    let space = whitespace_len(text, from);
    let at = from + space;
    if holds(text, at, ',') {
        match member_at(text, at + 1) {
            Err(error) => Err(error),
            Ok(((key, value), length)) => after(
                space + 1 + length,
                members_rest(text, at + 1 + length, put(done, key, value)),
            ),
        }
    } else if holds(text, at, '}') {
        Ok((Tree::Object(done), space + 1))
    } else {
        Err(unexpected(text, at))
    }
}

/// The document that `text` is: one value, with nothing but whitespace
/// round it.
pub open spec fn document(text: Seq<char>) -> Result<Tree, ParseError> {
    match value_at(text, 0) {
        Err(error) => Err(error),
        Ok((tree, length)) => {
            let end = length + whitespace_len(text, length as int);
            if end < text.len() {
                Err(ParseError::TrailingData { position: position_at(text, end as int) })
            } else {
                Ok(tree)
            }
        },
    }
}

} // verus!
