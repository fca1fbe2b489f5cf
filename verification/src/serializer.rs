use vstd::prelude::*;
use crate::grammar::{is_control, word_false, word_null, word_true};
use crate::value::{Tree, Value, entries, lemma_array_view, lemma_object_view, trees};

verus! {

/// The hexadecimal digit, in lower case, for a value below sixteen.
pub open spec fn hex_digit(value: int) -> char {
    if value < 10 {
        ('0' as int + value) as char
    } else {
        ('a' as int + value - 10) as char
    }
}

/// How one character of a string is written: the quote and the backslash
/// behind a backslash, a control character as its short escape where it has
/// one and as `\u00` with two hexadecimal digits where it has none, any
/// other character as itself.
pub open spec fn escape_of(c: char) -> Seq<char> {
    if c == '"' {
        seq!['\\', '"']
    } else if c == '\\' {
        seq!['\\', '\\']
    } else if c == '\n' {
        seq!['\\', 'n']
    } else if c == '\t' {
        seq!['\\', 't']
    } else if c == '\r' {
        seq!['\\', 'r']
    } else if c == '\u{8}' {
        seq!['\\', 'b']
    } else if c == '\u{c}' {
        seq!['\\', 'f']
    } else if is_control(c) {
        seq!['\\', 'u', '0', '0', hex_digit(c as int / 16), hex_digit(c as int % 16)]
    } else {
        seq![c]
    }
}

/// The characters of `text` from the one at `from` on, each written as
/// `escape_of` says.
pub open spec fn escaped(text: Seq<char>, from: int) -> Seq<char>
    decreases text.len() - from,
{
    if 0 <= from < text.len() {
        escape_of(text[from]) + escaped(text, from + 1)
    } else {
        Seq::empty()
    }
}

/// A string as it is written: between quotes, its characters escaped.
pub open spec fn quoted(text: Seq<char>) -> Seq<char> {
    seq!['"'] + escaped(text, 0) + seq!['"']
}

/// The compact text of a tree: no whitespace, a comma between each two
/// elements or members, a colon between key and value, the members of an
/// object in the order in which it holds them.
pub open spec fn render(tree: Tree) -> Seq<char>
    decreases tree, 0nat,
{
    match tree {
        Tree::Null => word_null(),
        Tree::Bool(b) => if b {
            word_true()
        } else {
            word_false()
        },
        Tree::Number(lexeme) => lexeme,
        Tree::String(text) => quoted(text),
        Tree::Array(elements) => if elements.len() == 0 {
            seq!['[', ']']
        } else {
            seq!['['] + render(elements[0]) + render_elements(elements, 1)
        },
        Tree::Object(members) => if members.len() == 0 {
            seq!['{', '}']
        } else {
            seq!['{'] + render_member(members, 0) + render_members(members, 1)
        },
    }
}

/// The text of an array behind some of its elements: a comma and the element
/// at `from`, and so on up to the closing bracket.
pub open spec fn render_elements(elements: Seq<Tree>, from: int) -> Seq<char>
    decreases elements, elements.len() - from,
{
    if 0 <= from < elements.len() {
        seq![','] + render(elements[from]) + render_elements(elements, from + 1)
    } else {
        seq![']']
    }
}

/// The text of the member at `at`: the key, a colon and the value.
pub open spec fn render_member(members: Seq<(Seq<char>, Tree)>, at: int) -> Seq<char>
    decreases members, 0nat,
{
    if 0 <= at < members.len() {
        quoted(members[at].0) + seq![':'] + render(members[at].1)
    } else {
        Seq::empty()
    }
}

/// The text of an object behind some of its members: a comma and the member
/// at `from`, and so on up to the closing brace.
pub open spec fn render_members(members: Seq<(Seq<char>, Tree)>, from: int) -> Seq<char>
    decreases members, members.len() - from,
{
    if 0 <= from < members.len() {
        seq![','] + render_member(members, from) + render_members(members, from + 1)
    } else {
        seq!['}']
    }
}

/// The hexadecimal digit for `value`.
fn hex_digit_char(value: u8) -> (c: char)
    requires
        value < 16,
    ensures
        c == hex_digit(value as int),
{
    if value < 10 {
        (48u8 + value) as char
    } else {
        (87u8 + value) as char
    }
}

/// Appends one character of a string, escaped where it must be.
fn write_char(c: char, out: &mut String)
    ensures
        final(out)@ == old(out)@ + escape_of(c),
{
    if c == '"' {
        out.push('\\');
        out.push('"');
    } else if c == '\\' {
        out.push('\\');
        out.push('\\');
    } else if c == '\n' {
        out.push('\\');
        out.push('n');
    } else if c == '\t' {
        out.push('\\');
        out.push('t');
    } else if c == '\r' {
        out.push('\\');
        out.push('r');
    } else if c == '\u{8}' {
        out.push('\\');
        out.push('b');
    } else if c == '\u{c}' {
        out.push('\\');
        out.push('f');
    } else if ' ' > c {
        let code = c as u8;
        out.push('\\');
        out.push('u');
        out.push('0');
        out.push('0');
        out.push(hex_digit_char(code / 16));
        out.push(hex_digit_char(code % 16));
    } else {
        out.push(c);
    }
    assert(out@ =~= old(out)@ + escape_of(c));
}

/// Appends a string between quotes.
fn write_string(text: &str, out: &mut String)
    ensures
        final(out)@ == old(out)@ + quoted(text@),
{
    let ghost before = out@;
    out.push('"');
    assert(before + quoted(text@) =~= out@ + escaped(text@, 0) + seq!['"']);
    for c in it: text.chars()
        invariant
            it.seq() == text@,
            before + quoted(text@) == out@ + escaped(text@, it.index() as int) + seq!['"'],
    {
        let ghost so_far = out@;
        write_char(c, out);
        assert(out@ + escaped(text@, it.index() + 1) + seq!['"'] =~= so_far + escaped(
            text@,
            it.index() as int,
        ) + seq!['"']);
    }
    out.push('"');
    assert(out@ =~= before + quoted(text@));
}

/// Appends the compact text of `value`.
#[verifier::loop_isolation(false)]
fn write_value(value: &Value, out: &mut String)
    ensures
        final(out)@ == old(out)@ + render(value@),
    decreases value,
{
    let ghost before = out@;
    match value {
        Value::Null => {
            out.append("null");
        },
        Value::Bool(b) => {
            if *b {
                out.append("true");
            } else {
                out.append("false");
            }
        },
        Value::Number(number) => {
            out.append(number.as_str());
        },
        Value::String(text) => {
            write_string(text.as_str(), out);
        },
        Value::Array(elements) => {
            proof {
                lemma_array_view(*elements);
            }
            let ghost all = trees(elements@);
            out.push('[');
            if elements.len() > 0 {
                write_value(&elements[0], out);
                assert(before + render(value@) =~= out@ + render_elements(all, 1));
                let mut i: usize = 1;
                while i < elements.len()
                    invariant
                        1 <= i <= elements.len(),
                        all == trees(elements@),
                        before + render(value@) == out@ + render_elements(all, i as int),
                    decreases elements.len() - i,
                {
                    let ghost so_far = out@;
                    out.push(',');
                    write_value(&elements[i], out);
                    assert(out@ + render_elements(all, i + 1) =~= so_far + render_elements(
                        all,
                        i as int,
                    ));
                    i += 1;
                }
            }
            out.push(']');
            assert(out@ =~= before + render(value@));
        },
        Value::Object(members) => {
            proof {
                lemma_object_view(*members);
            }
            let ghost all = entries(members@);
            out.push('{');
            if members.len() > 0 {
                write_string(members[0].0.as_str(), out);
                out.push(':');
                write_value(&members[0].1, out);
                assert(all[0] == (members@[0].0@, members@[0].1@));
                assert(render_member(all, 0) == quoted(all[0].0) + seq![':'] + render(all[0].1));
                assert(before + render(value@) =~= out@ + render_members(all, 1));
                let mut i: usize = 1;
                while i < members.len()
                    invariant
                        1 <= i <= members.len(),
                        all == entries(members@),
                        before + render(value@) == out@ + render_members(all, i as int),
                    decreases members.len() - i,
                {
                    let ghost so_far = out@;
                    out.push(',');
                    write_string(members[i].0.as_str(), out);
                    out.push(':');
                    write_value(&members[i].1, out);
                    assert(all[i as int] == (members@[i as int].0@, members@[i as int].1@));
                    assert(render_member(all, i as int) == quoted(all[i as int].0) + seq![':']
                        + render(all[i as int].1));
                    assert(out@ + render_members(all, i + 1) =~= so_far + render_members(
                        all,
                        i as int,
                    ));
                    i += 1;
                }
            }
            out.push('}');
            assert(out@ =~= before + render(value@));
        },
    }
}

/// The compact text of `value`.
pub fn serialize(value: &Value) -> (text: String)
    ensures
        text@ == render(value@),
{
    let mut text = String::new();
    write_value(value, &mut text);
    assert(text@ =~= render(value@));
    text
}

} // verus!
