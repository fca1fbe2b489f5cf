use vstd::prelude::*;
use crate::classifier::is_digit;
use crate::error::ParseError;
use crate::grammar::{
    Parsed, after, array_at, common_len, document, elements_rest, escape_at, hex_run, hex_value,
    holds, is_control, is_number, member_at, members_rest, object_at, put, short_escape,
    string_at, string_rest, unicode_at, value_at, whitespace_len, whole_len,
};
use crate::lemmas::{lemma_key_index, lemma_number_transfer, number_stops};
use crate::serializer::{
    escape_of, escaped, hex_digit, quoted, render, render_elements, render_member, render_members,
};
use crate::soundness::law_document_well_formed;
use crate::value::{Tree, distinct_keys, lemma_element_well_formed, lemma_member_well_formed};

verus! {

/// `text` holds `part` from `from` on.
#[verifier::opaque]
pub open spec fn stands_at(part: Seq<char>, text: Seq<char>, from: int) -> bool {
    &&& 0 <= from
    &&& from + part.len() <= text.len()
    &&& text.subrange(from, from + part.len()) == part
}

/// Where a text holds a part, it holds each of its characters.
pub proof fn lemma_stands_char(part: Seq<char>, text: Seq<char>, from: int, k: int)
    requires
        stands_at(part, text, from),
        0 <= k < part.len(),
    ensures
        0 <= from + k < text.len(),
        text[from + k] == part[k],
{
    reveal(stands_at);
    assert(text.subrange(from, from + part.len())[k] == part[k]);
}

/// Where a text holds two parts joined, it holds the first and, behind it,
/// the second.
pub proof fn lemma_stands_split(a: Seq<char>, b: Seq<char>, text: Seq<char>, from: int)
    requires
        stands_at(a + b, text, from),
    ensures
        stands_at(a, text, from),
        stands_at(b, text, from + a.len()),
{
    reveal(stands_at);
    let whole = text.subrange(from, from + (a + b).len());
    assert forall|k: int| 0 <= k < a.len() implies text.subrange(from, from + a.len())[k]
        == a[k] by {
        assert(whole[k] == (a + b)[k]);
    }
    assert(text.subrange(from, from + a.len()) =~= a);
    assert forall|k: int| 0 <= k < b.len() implies text.subrange(
        from + a.len(),
        from + a.len() + b.len(),
    )[k] == b[k] by {
        assert(whole[a.len() + k] == (a + b)[a.len() + k]);
    }
    assert(text.subrange(from + a.len(), from + a.len() + b.len()) =~= b);
}

/// A keyword that stands in the text is found there whole.
pub proof fn lemma_common_len(text: Seq<char>, from: int, word: Seq<char>, k: int)
    requires
        stands_at(word, text, from),
        0 <= k <= word.len(),
    ensures
        common_len(text, from, word, k) == word.len() - k,
    decreases word.len() - k,
{
    if k < word.len() {
        lemma_stands_char(word, text, from, k);
        lemma_common_len(text, from, word, k + 1);
    }
}

/// A hexadecimal digit has the value that it was written for.
pub proof fn lemma_hex_digit(value: int)
    requires
        0 <= value < 16,
    ensures
        hex_value(hex_digit(value)) == Some(value as nat),
{
}

/// A one-letter escape is read back as the character that it stands for.
pub proof fn lemma_escape_short(c: char, letter: char, text: Seq<char>, from: int)
    requires
        stands_at(seq!['\\', letter], text, from),
        short_escape(letter) == Some(c),
    ensures
        holds(text, from, '\\'),
        escape_at(text, from + 1) == Ok::<(char, nat), ParseError>((c, 1)),
{
    let e = seq!['\\', letter];
    lemma_stands_char(e, text, from, 0);
    lemma_stands_char(e, text, from, 1);
}

/// The four hexadecimal digits written for a control character are read
/// back as its code.
pub proof fn lemma_code_unit(c: char, text: Seq<char>, from: int)
    requires
        is_control(c),
        stands_at(seq!['0', '0', hex_digit(c as int / 16), hex_digit(c as int % 16)], text, from),
    ensures
        hex_run(text, from, 4, 0) == Ok::<nat, ParseError>(c as nat),
{
    let e = seq!['0', '0', hex_digit(c as int / 16), hex_digit(c as int % 16)];
    lemma_stands_char(e, text, from, 0);
    lemma_stands_char(e, text, from, 1);
    lemma_stands_char(e, text, from, 2);
    lemma_stands_char(e, text, from, 3);
    lemma_hex_digit(c as int / 16);
    lemma_hex_digit(c as int % 16);
    assert(hex_value('0') == Some(0nat));
    assert(hex_run(text, from + 4, 0, c as nat) == Ok::<nat, ParseError>(c as nat));
    assert(hex_run(text, from + 3, 1, (c as int / 16) as nat) == Ok::<nat, ParseError>(c as nat));
    assert(hex_run(text, from + 2, 2, 0) == Ok::<nat, ParseError>(c as nat));
    assert(hex_run(text, from + 1, 3, 0) == Ok::<nat, ParseError>(c as nat));
}

/// The escape written for a control character without a short escape is
/// read back as that character.
pub proof fn lemma_escape_unicode(c: char, text: Seq<char>, from: int)
    requires
        is_control(c),
        stands_at(
            seq!['\\', 'u', '0', '0', hex_digit(c as int / 16), hex_digit(c as int % 16)],
            text,
            from,
        ),
    ensures
        holds(text, from, '\\'),
        escape_at(text, from + 1) == Ok::<(char, nat), ParseError>((c, 5)),
{
    let digits = seq!['0', '0', hex_digit(c as int / 16), hex_digit(c as int % 16)];
    let head = seq!['\\', 'u'];
    assert(seq!['\\', 'u', '0', '0', hex_digit(c as int / 16), hex_digit(c as int % 16)] =~= head
        + digits);
    lemma_stands_split(head, digits, text, from);
    lemma_stands_char(head, text, from, 0);
    lemma_stands_char(head, text, from, 1);
    lemma_code_unit(c, text, from + 2);
    assert(unicode_at(text, from + 2) == Ok::<(char, nat), ParseError>((c, 4)));
}

/// One character of a string, as it was written, is read back as that
/// character.
pub proof fn lemma_escape_step(c: char, text: Seq<char>, from: int, done: Seq<char>)
    requires
        stands_at(escape_of(c), text, from),
    ensures
        string_rest(text, from, done) == after(
            escape_of(c).len(),
            string_rest(text, from + escape_of(c).len(), done.push(c)),
        ),
{
    if c == '"' {
        lemma_escape_short(c, '"', text, from);
    } else if c == '\\' {
        lemma_escape_short(c, '\\', text, from);
    } else if c == '\n' {
        lemma_escape_short(c, 'n', text, from);
    } else if c == '\t' {
        lemma_escape_short(c, 't', text, from);
    } else if c == '\r' {
        lemma_escape_short(c, 'r', text, from);
    } else if c == '\u{8}' {
        lemma_escape_short(c, 'b', text, from);
    } else if c == '\u{c}' {
        lemma_escape_short(c, 'f', text, from);
    } else if is_control(c) {
        lemma_escape_unicode(c, text, from);
    } else {
        lemma_stands_char(escape_of(c), text, from, 0);
    }
}

/// The characters of a string from the `k`-th on, as they were written and
/// with the closing quote behind them, are read back as those characters.
pub proof fn lemma_string_rest(
    written: Seq<char>,
    k: int,
    text: Seq<char>,
    from: int,
    done: Seq<char>,
)
    requires
        0 <= k <= written.len(),
        stands_at(escaped(written, k) + seq!['"'], text, from),
    ensures
        string_rest(text, from, done) == Ok::<(Seq<char>, nat), ParseError>(
            (done + written.subrange(k, written.len() as int), (escaped(written, k).len() + 1) as nat),
        ),
    decreases written.len() - k,
{
    if k == written.len() {
        lemma_stands_char(escaped(written, k) + seq!['"'], text, from, 0);
        assert(done + written.subrange(k, written.len() as int) =~= done);
    } else {
        let c = written[k];
        let e = escape_of(c);
        let rest = escaped(written, k + 1) + seq!['"'];
        assert(escaped(written, k) + seq!['"'] =~= e + rest);
        lemma_stands_split(e, rest, text, from);
        lemma_escape_step(c, text, from, done);
        lemma_string_rest(written, k + 1, text, from + e.len(), done.push(c));
        assert(done.push(c) + written.subrange(k + 1, written.len() as int) =~= done
            + written.subrange(k, written.len() as int));
    }
}

/// A string, as it was written, is read back as that string.
pub proof fn lemma_string_at(written: Seq<char>, text: Seq<char>, from: int)
    requires
        stands_at(quoted(written), text, from),
    ensures
        string_at(text, from) == Ok::<(Seq<char>, nat), ParseError>(
            (written, quoted(written).len()),
        ),
{
    let body = escaped(written, 0) + seq!['"'];
    assert(quoted(written) =~= seq!['"'] + body);
    lemma_stands_split(seq!['"'], body, text, from);
    lemma_stands_char(seq!['"'], text, from, 0);
    lemma_string_rest(written, 0, text, from + 1, Seq::empty());
    assert(Seq::<char>::empty() + written.subrange(0, written.len() as int) =~= written);
}

/// The first character of the text of a tree tells what the tree is.
pub open spec fn begins(tree: Tree, c: char) -> bool {
    match tree {
        Tree::Null => c == 'n',
        Tree::Bool(b) => c == if b {
            't'
        } else {
            'f'
        },
        Tree::Number(_) => c == '-' || is_digit(c),
        Tree::String(_) => c == '"',
        Tree::Array(_) => c == '[',
        Tree::Object(_) => c == '{',
    }
}

/// The text of a well-formed tree is not empty, and begins as `begins` says.
pub proof fn lemma_render_begins(tree: Tree)
    requires
        tree.well_formed(),
    ensures
        render(tree).len() > 0,
        begins(tree, render(tree)[0]),
{
    reveal_strlit("null");
    reveal_strlit("true");
    reveal_strlit("false");
    match tree {
        Tree::Number(lexeme) => {
            assert(whole_len(lexeme, 0) is Ok);
        },
        _ => {},
    }
}

/// Where the text of a well-formed tree stands, no whitespace stands before
/// it, and its first character tells what the tree is.
pub proof fn lemma_stands_begins(tree: Tree, text: Seq<char>, from: int)
    requires
        tree.well_formed(),
        stands_at(render(tree), text, from),
    ensures
        0 <= from < text.len(),
        begins(tree, text[from]),
        whitespace_len(text, from) == 0,
{
    lemma_render_begins(tree);
    lemma_stands_char(render(tree), text, from, 0);
}

/// A literal, as it was written, is read back.
pub proof fn lemma_literal(tree: Tree, text: Seq<char>, from: int)
    requires
        tree is Null || tree is Bool,
        stands_at(render(tree), text, from),
    ensures
        value_at(text, from) == Ok::<(Tree, nat), ParseError>((tree, render(tree).len())),
{
    lemma_stands_begins(tree, text, from);
    lemma_common_len(text, from, render(tree), 0);
}

/// A number, as it was written, is read back where nothing behind it could
/// belong to a number.
pub proof fn lemma_number(lexeme: Seq<char>, text: Seq<char>, from: int)
    requires
        is_number(lexeme),
        stands_at(lexeme, text, from),
        number_stops(text, from + lexeme.len()),
    ensures
        value_at(text, from) == Ok::<(Tree, nat), ParseError>((Tree::Number(lexeme), lexeme.len())),
{
    reveal(stands_at);
    lemma_stands_begins(Tree::Number(lexeme), text, from);
    assert(lexeme.subrange(0, lexeme.len() as int) =~= lexeme);
    lemma_number_transfer(lexeme, 0, text, from, lexeme.len() as int);
}

/// A string, as it was written, is read back.
pub proof fn lemma_string(written: Seq<char>, text: Seq<char>, from: int)
    requires
        stands_at(quoted(written), text, from),
    ensures
        value_at(text, from) == Ok::<(Tree, nat), ParseError>(
            (Tree::String(written), quoted(written).len()),
        ),
{
    lemma_stands_begins(Tree::String(written), text, from);
    lemma_string_at(written, text, from);
}

/// Setting a key that none of the members before has adds a member.
pub proof fn lemma_put_new(members: Seq<(Seq<char>, Tree)>, k: int)
    requires
        distinct_keys(members),
        0 <= k < members.len(),
    ensures
        put(members.take(k), members[k].0, members[k].1) == members.take(k + 1),
{
    let before = members.take(k);
    assert forall|i: int| 0 <= i < k implies (#[trigger] before[i]).0 != members[k].0 by {
        assert(before[i] == members[i]);
    }
    lemma_key_index(before, members[k].0, k);
    assert(before.push((members[k].0, members[k].1)) =~= members.take(k + 1));
}

/// After no whitespace, reading adds no length.
pub proof fn lemma_after_nothing<T>(rest: Parsed<T>)
    ensures
        after(0, rest) == rest,
{
    match rest {
        Ok((value, length)) => {},
        Err(error) => {},
    }
}

/// A value that begins with a bracket is the array there.
pub proof fn lemma_value_is_array(text: Seq<char>, from: int)
    requires
        holds(text, from, '['),
    ensures
        value_at(text, from) == array_at(text, from),
{
    lemma_after_nothing(array_at(text, from));
}

/// A value that begins with a brace is the object there.
pub proof fn lemma_value_is_object(text: Seq<char>, from: int)
    requires
        holds(text, from, '{'),
    ensures
        value_at(text, from) == object_at(text, from),
{
    lemma_after_nothing(object_at(text, from));
}

/// An opening bracket and a closing one are the empty array.
pub proof fn lemma_array_empty(text: Seq<char>, from: int)
    requires
        holds(text, from, '['),
        holds(text, from + 1, ']'),
    ensures
        array_at(text, from) == Ok::<(Tree, nat), ParseError>((Tree::Array(Seq::empty()), 2)),
{
}

/// An opening bracket, a first element and the rest of an array are an
/// array.
pub proof fn lemma_array_begun(
    text: Seq<char>,
    from: int,
    first: Tree,
    length: nat,
    tree: Tree,
    more: nat,
)
    requires
        holds(text, from, '['),
        whitespace_len(text, from + 1) == 0,
        !holds(text, from + 1, ']'),
        value_at(text, from + 1) == Ok::<(Tree, nat), ParseError>((first, length)),
        elements_rest(text, from + 1 + length, seq![first]) == Ok::<(Tree, nat), ParseError>(
            (tree, more),
        ),
    ensures
        array_at(text, from) == Ok::<(Tree, nat), ParseError>((tree, 1 + length + more)),
{
}

/// A closing bracket ends the elements.
pub proof fn lemma_elements_end(text: Seq<char>, from: int, done: Seq<Tree>)
    requires
        holds(text, from, ']'),
    ensures
        elements_rest(text, from, done) == Ok::<(Tree, nat), ParseError>((Tree::Array(done), 1)),
{
}

/// A comma, an element and the rest of the elements are the rest of the
/// elements.
pub proof fn lemma_elements_go_on(
    text: Seq<char>,
    from: int,
    done: Seq<Tree>,
    element: Tree,
    length: nat,
    tree: Tree,
    more: nat,
)
    requires
        holds(text, from, ','),
        value_at(text, from + 1) == Ok::<(Tree, nat), ParseError>((element, length)),
        elements_rest(text, from + 1 + length, done.push(element)) == Ok::<(Tree, nat), ParseError>(
            (tree, more),
        ),
    ensures
        elements_rest(text, from, done) == Ok::<(Tree, nat), ParseError>(
            (tree, 1 + length + more),
        ),
{
}

/// A string, a colon and a value are a member.
pub proof fn lemma_member_read(
    text: Seq<char>,
    from: int,
    key: Seq<char>,
    length: nat,
    value: Tree,
    more: nat,
)
    requires
        holds(text, from, '"'),
        string_at(text, from) == Ok::<(Seq<char>, nat), ParseError>((key, length)),
        holds(text, from + length, ':'),
        value_at(text, from + length + 1) == Ok::<(Tree, nat), ParseError>((value, more)),
    ensures
        member_at(text, from) == Ok::<((Seq<char>, Tree), nat), ParseError>(
            ((key, value), length + 1 + more),
        ),
{
}

/// An opening brace and a closing one are the empty object.
pub proof fn lemma_object_empty(text: Seq<char>, from: int)
    requires
        holds(text, from, '{'),
        holds(text, from + 1, '}'),
    ensures
        object_at(text, from) == Ok::<(Tree, nat), ParseError>((Tree::Object(Seq::empty()), 2)),
{
}

/// An opening brace, a first member and the rest of an object are an
/// object.
pub proof fn lemma_object_begun(
    text: Seq<char>,
    from: int,
    first: (Seq<char>, Tree),
    length: nat,
    tree: Tree,
    more: nat,
)
    requires
        holds(text, from, '{'),
        holds(text, from + 1, '"'),
        member_at(text, from + 1) == Ok::<((Seq<char>, Tree), nat), ParseError>((first, length)),
        members_rest(text, from + 1 + length, seq![first]) == Ok::<(Tree, nat), ParseError>(
            (tree, more),
        ),
    ensures
        object_at(text, from) == Ok::<(Tree, nat), ParseError>((tree, 1 + length + more)),
{
}

/// A closing brace ends the members.
pub proof fn lemma_members_end(text: Seq<char>, from: int, done: Seq<(Seq<char>, Tree)>)
    requires
        holds(text, from, '}'),
    ensures
        members_rest(text, from, done) == Ok::<(Tree, nat), ParseError>((Tree::Object(done), 1)),
{
}

/// A comma, a member and the rest of the members are the rest of the
/// members.
pub proof fn lemma_members_go_on(
    text: Seq<char>,
    from: int,
    done: Seq<(Seq<char>, Tree)>,
    member: (Seq<char>, Tree),
    length: nat,
    tree: Tree,
    more: nat,
)
    requires
        holds(text, from, ','),
        member_at(text, from + 1) == Ok::<((Seq<char>, Tree), nat), ParseError>((member, length)),
        members_rest(text, from + 1 + length, put(done, member.0, member.1)) == Ok::<
            (Tree, nat),
            ParseError,
        >((tree, more)),
    ensures
        members_rest(text, from, done) == Ok::<(Tree, nat), ParseError>(
            (tree, 1 + length + more),
        ),
{
}

/// What is written behind an element begins with a comma or the closing
/// bracket.
pub proof fn lemma_elements_begin(elements: Seq<Tree>, k: int)
    ensures
        render_elements(elements, k).len() > 0,
        render_elements(elements, k)[0] == ',' || render_elements(elements, k)[0] == ']',
{
}

/// What is written behind a member begins with a comma or the closing
/// brace.
pub proof fn lemma_members_begin(members: Seq<(Seq<char>, Tree)>, k: int)
    ensures
        render_members(members, k).len() > 0,
        render_members(members, k)[0] == ',' || render_members(members, k)[0] == '}',
{
}

/// A well-formed tree, as it was written, is read back where nothing behind
/// it could belong to a number.
pub proof fn lemma_value(tree: Tree, text: Seq<char>, from: int)
    requires
        tree.well_formed(),
        stands_at(render(tree), text, from),
        number_stops(text, from + render(tree).len()),
    ensures
        value_at(text, from) == Ok::<(Tree, nat), ParseError>((tree, render(tree).len())),
    decreases tree, 0nat,
{
    lemma_stands_begins(tree, text, from);
    match tree {
        Tree::Null => {
            lemma_literal(tree, text, from);
        },
        Tree::Bool(_) => {
            lemma_literal(tree, text, from);
        },
        Tree::Number(lexeme) => {
            lemma_number(lexeme, text, from);
        },
        Tree::String(written) => {
            lemma_string(written, text, from);
        },
        Tree::Array(elements) => {
            lemma_array(elements, text, from);
            lemma_value_is_array(text, from);
        },
        Tree::Object(members) => {
            lemma_object(members, text, from);
            lemma_value_is_object(text, from);
        },
    }
}

/// An array of well-formed trees, as it was written, is read back.
pub proof fn lemma_array(elements: Seq<Tree>, text: Seq<char>, from: int)
    requires
        Tree::Array(elements).well_formed(),
        stands_at(render(Tree::Array(elements)), text, from),
    ensures
        array_at(text, from) == Ok::<(Tree, nat), ParseError>(
            (Tree::Array(elements), render(Tree::Array(elements)).len()),
        ),
    decreases elements, elements.len() + 1,
{
    let whole = render(Tree::Array(elements));
    lemma_stands_char(whole, text, from, 0);
    if elements.len() == 0 {
        lemma_stands_char(whole, text, from, 1);
        assert(elements =~= Seq::empty());
        lemma_array_empty(text, from);
    } else {
        let first = render(elements[0]);
        let rest = render_elements(elements, 1);
        assert(whole =~= seq!['['] + (first + rest));
        lemma_stands_split(seq!['['], first + rest, text, from);
        lemma_stands_split(first, rest, text, from + 1);
        lemma_elements_begin(elements, 1);
        lemma_stands_char(rest, text, from + 1 + first.len(), 0);
        lemma_element_well_formed(elements, 0);
        lemma_stands_begins(elements[0], text, from + 1);
        lemma_value(elements[0], text, from + 1);
        assert(elements.take(1) =~= seq![elements[0]]);
        lemma_elements(elements, 1, text, from + 1 + first.len());
        lemma_array_begun(
            text,
            from,
            elements[0],
            first.len(),
            Tree::Array(elements),
            rest.len(),
        );
    }
}

/// The elements of an array from the `k`-th on, as they were written, are
/// read back behind the elements before them.
pub proof fn lemma_elements(elements: Seq<Tree>, k: int, text: Seq<char>, from: int)
    requires
        Tree::Array(elements).well_formed(),
        0 < k <= elements.len(),
        stands_at(render_elements(elements, k), text, from),
    ensures
        elements_rest(text, from, elements.take(k)) == Ok::<(Tree, nat), ParseError>(
            (Tree::Array(elements), render_elements(elements, k).len()),
        ),
    decreases elements, elements.len() - k,
{
    let whole = render_elements(elements, k);
    lemma_stands_char(whole, text, from, 0);
    if k == elements.len() {
        assert(elements.take(k) =~= elements);
        lemma_elements_end(text, from, elements.take(k));
    } else {
        lemma_element_well_formed(elements, k);
        let element = render(elements[k]);
        let rest = render_elements(elements, k + 1);
        assert(whole =~= seq![','] + (element + rest));
        lemma_stands_split(seq![','], element + rest, text, from);
        lemma_stands_split(element, rest, text, from + 1);
        lemma_elements_begin(elements, k + 1);
        lemma_stands_char(rest, text, from + 1 + element.len(), 0);
        lemma_value(elements[k], text, from + 1);
        assert(elements.take(k).push(elements[k]) =~= elements.take(k + 1));
        lemma_elements(elements, k + 1, text, from + 1 + element.len());
        lemma_elements_go_on(
            text,
            from,
            elements.take(k),
            elements[k],
            element.len(),
            Tree::Array(elements),
            rest.len(),
        );
    }
}

/// A member of an object, as it was written, is read back where nothing
/// behind it could belong to a number.
pub proof fn lemma_member(members: Seq<(Seq<char>, Tree)>, k: int, text: Seq<char>, from: int)
    requires
        Tree::Object(members).well_formed(),
        0 <= k < members.len(),
        stands_at(render_member(members, k), text, from),
        number_stops(text, from + render_member(members, k).len()),
    ensures
        holds(text, from, '"'),
        member_at(text, from) == Ok::<((Seq<char>, Tree), nat), ParseError>(
            (members[k], render_member(members, k).len()),
        ),
    decreases members, 0nat,
{
    lemma_member_well_formed(members, k);
    let key = quoted(members[k].0);
    let value = render(members[k].1);
    assert(render_member(members, k) =~= key + (seq![':'] + value));
    lemma_stands_split(key, seq![':'] + value, text, from);
    lemma_stands_split(seq![':'], value, text, from + key.len());
    lemma_stands_char(key, text, from, 0);
    lemma_stands_char(seq![':'], text, from + key.len(), 0);
    lemma_string_at(members[k].0, text, from);
    lemma_value(members[k].1, text, from + key.len() + 1);
    lemma_member_read(text, from, members[k].0, key.len(), members[k].1, value.len());
}

/// The members of an object from the `k`-th on, as they were written, are
/// read back behind the members before them.
pub proof fn lemma_members(members: Seq<(Seq<char>, Tree)>, k: int, text: Seq<char>, from: int)
    requires
        Tree::Object(members).well_formed(),
        0 < k <= members.len(),
        stands_at(render_members(members, k), text, from),
    ensures
        members_rest(text, from, members.take(k)) == Ok::<(Tree, nat), ParseError>(
            (Tree::Object(members), render_members(members, k).len()),
        ),
    decreases members, members.len() - k,
{
    let whole = render_members(members, k);
    lemma_stands_char(whole, text, from, 0);
    if k == members.len() {
        assert(members.take(k) =~= members);
        lemma_members_end(text, from, members.take(k));
    } else {
        let member = render_member(members, k);
        let rest = render_members(members, k + 1);
        assert(whole =~= seq![','] + (member + rest));
        lemma_stands_split(seq![','], member + rest, text, from);
        lemma_stands_split(member, rest, text, from + 1);
        lemma_members_begin(members, k + 1);
        lemma_stands_char(rest, text, from + 1 + member.len(), 0);
        lemma_member(members, k, text, from + 1);
        lemma_member_well_formed(members, k);
        lemma_put_new(members, k);
        lemma_members(members, k + 1, text, from + 1 + member.len());
        lemma_members_go_on(
            text,
            from,
            members.take(k),
            members[k],
            member.len(),
            Tree::Object(members),
            rest.len(),
        );
    }
}

/// An object of well-formed trees under keys that differ, as it was written,
/// is read back.
pub proof fn lemma_object(members: Seq<(Seq<char>, Tree)>, text: Seq<char>, from: int)
    requires
        Tree::Object(members).well_formed(),
        stands_at(render(Tree::Object(members)), text, from),
    ensures
        object_at(text, from) == Ok::<(Tree, nat), ParseError>(
            (Tree::Object(members), render(Tree::Object(members)).len()),
        ),
    decreases members, members.len() + 1,
{
    let whole = render(Tree::Object(members));
    lemma_stands_char(whole, text, from, 0);
    if members.len() == 0 {
        lemma_stands_char(whole, text, from, 1);
        assert(members =~= Seq::empty());
        lemma_object_empty(text, from);
    } else {
        let first = render_member(members, 0);
        let rest = render_members(members, 1);
        assert(whole =~= seq!['{'] + (first + rest));
        lemma_stands_split(seq!['{'], first + rest, text, from);
        lemma_stands_split(first, rest, text, from + 1);
        lemma_members_begin(members, 1);
        lemma_stands_char(rest, text, from + 1 + first.len(), 0);
        lemma_member(members, 0, text, from + 1);
        assert(members.take(1) =~= seq![members[0]]);
        lemma_members(members, 1, text, from + 1 + first.len());
        lemma_object_begun(text, from, members[0], first.len(), Tree::Object(members), rest.len());
    }
}

/// Reading what was written gives back what was written from: the text of a
/// tree whose numbers are written as the grammar asks, and whose objects
/// hold no key twice, is a document, and the document is that tree.
pub proof fn law_parse_inverts_render(tree: Tree)
    requires
        tree.well_formed(),
    ensures
        document(render(tree)) == Ok::<Tree, ParseError>(tree),
{
    let text = render(tree);
    assert(stands_at(text, text, 0)) by {
        reveal(stands_at);
        assert(text.subrange(0, text.len() as int) =~= text);
    }
    lemma_value(tree, text, 0);
}

/// Writing a document and reading it again changes nothing: where a text is
/// a document, the text of its tree is a document too, and the same one.
pub proof fn law_render_keeps_document(text: Seq<char>)
    requires
        document(text) is Ok,
    ensures
        document(render(document(text)->Ok_0)) == document(text),
{
    law_document_well_formed(text);
    law_parse_inverts_render(document(text)->Ok_0);
}

} // verus!
