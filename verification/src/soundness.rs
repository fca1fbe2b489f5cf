use vstd::prelude::*;
use crate::classifier::is_digit;
use crate::grammar::{
    array_at, document, elements_rest, first_element_at, holds, key_index, member_at,
    members_rest, number_at, object_at, put, remaining, string_at, value_at, whitespace_len,
};
use crate::lemmas::lemma_number_alone;
use crate::value::{Tree, lemma_element_well_formed, lemma_member_well_formed};

verus! {

/// `key_index` lies among the members or just behind them; where it lies
/// among them it is the first place at which the key stands.
pub proof fn lemma_key_index_first(members: Seq<(Seq<char>, Tree)>, key: Seq<char>)
    ensures
        0 <= key_index(members, key) <= members.len(),
        key_index(members, key) < members.len() ==> members[key_index(members, key)].0 == key,
        forall|i: int| 0 <= i < key_index(members, key) ==> (#[trigger] members[i]).0 != key,
    decreases members.len(),
{
    if members.len() > 0 {
        let front = members.drop_last();
        lemma_key_index_first(front, key);
        assert forall|i: int| 0 <= i < key_index(members, key) implies (#[trigger] members[i]).0
            != key by {
            if i < front.len() {
                assert(front[i] == members[i]);
            }
        }
    }
}

/// An array stays well-formed when a well-formed element is added.
pub proof fn lemma_push_element(done: Seq<Tree>, element: Tree)
    requires
        Tree::Array(done).well_formed(),
        element.well_formed(),
    ensures
        Tree::Array(done.push(element)).well_formed(),
{
    reveal_with_fuel(Tree::well_formed, 2);
    let all = done.push(element);
    assert forall|i: int| 0 <= i < all.len() implies (#[trigger] all[i]).well_formed() by {
        if i < done.len() {
            lemma_element_well_formed(done, i);
        }
    }
}

/// An object stays well-formed when a key is set to a well-formed value.
pub proof fn lemma_put_member(done: Seq<(Seq<char>, Tree)>, key: Seq<char>, value: Tree)
    requires
        Tree::Object(done).well_formed(),
        value.well_formed(),
    ensures
        Tree::Object(put(done, key, value)).well_formed(),
{
    reveal_with_fuel(Tree::well_formed, 2);
    lemma_key_index_first(done, key);
    let at = key_index(done, key);
    let all = put(done, key, value);
    assert forall|i: int| 0 <= i < all.len() implies (#[trigger] all[i]).1.well_formed() by {
        if i < done.len() && i != at {
            lemma_member_well_formed(done, i);
        }
    }
    if done.len() > 0 {
        lemma_member_well_formed(done, 0);
    }
    assert forall|i: int, j: int| 0 <= i < j < all.len() implies (#[trigger] all[i]).0 != (
    #[trigger] all[j]).0 by {
        if at < done.len() {
            assert(all[i].0 == done[i].0);
            assert(all[j].0 == done[j].0);
        } else if j < done.len() {
            assert(all[i] == done[i]);
            assert(all[j] == done[j]);
        } else {
            assert(all[i] == done[i]);
        }
    }
}

/// What is read as a value is well-formed.
pub proof fn lemma_value_read(text: Seq<char>, from: int)
    ensures
        value_at(text, from) is Ok ==> value_at(text, from)->Ok_0.0.well_formed(),
    decreases remaining(text, from), 2nat,
{
    let at = from + whitespace_len(text, from);
    if 0 <= at < text.len() {
        if text[at] == '{' {
            lemma_object_read(text, at);
        } else if text[at] == '[' {
            lemma_array_read(text, at);
        } else if text[at] == '-' || is_digit(text[at]) {
            if number_at(text, at) is Ok {
                lemma_number_alone(text, at, number_at(text, at)->Ok_0.1);
            }
        }
    }
}

/// What is read as an array is well-formed.
pub proof fn lemma_array_read(text: Seq<char>, from: int)
    ensures
        array_at(text, from) is Ok ==> array_at(text, from)->Ok_0.0.well_formed(),
    decreases remaining(text, from), 1nat,
{
    if holds(text, from, '[') {
        lemma_first_element_read(text, from + 1);
        match first_element_at(text, from + 1) {
            Ok((Some(element), length)) => {
                lemma_push_element(Seq::empty(), element);
                assert(Seq::<Tree>::empty().push(element) =~= seq![element]);
                lemma_elements_read(text, from + 1 + length, seq![element]);
            },
            _ => {},
        }
    }
}

/// The first element of an array, as it is read, is well-formed.
pub proof fn lemma_first_element_read(text: Seq<char>, from: int)
    ensures
        match first_element_at(text, from) {
            Ok((Some(element), _)) => element.well_formed(),
            _ => true,
        },
    decreases remaining(text, from), 3nat,
{
    lemma_value_read(text, from);
}

/// The rest of an array, read behind well-formed elements, is well-formed.
pub proof fn lemma_elements_read(text: Seq<char>, from: int, done: Seq<Tree>)
    requires
        Tree::Array(done).well_formed(),
    ensures
        elements_rest(text, from, done) is Ok ==> elements_rest(
            text,
            from,
            done,
        )->Ok_0.0.well_formed(),
    decreases remaining(text, from), 3nat,
{
    let at = from + whitespace_len(text, from);
    if holds(text, at, ',') {
        lemma_value_read(text, at + 1);
        match value_at(text, at + 1) {
            Ok((element, length)) => {
                lemma_push_element(done, element);
                lemma_elements_read(text, at + 1 + length, done.push(element));
            },
            Err(_) => {},
        }
    }
}

/// What is read as a member holds a well-formed value.
pub proof fn lemma_member_read(text: Seq<char>, from: int)
    ensures
        member_at(text, from) is Ok ==> member_at(text, from)->Ok_0.0.1.well_formed(),
    decreases remaining(text, from), 3nat,
{
    let space = whitespace_len(text, from);
    match string_at(text, from + space) {
        Ok((key, length)) => {
            let colon = from + space + length + whitespace_len(text, from + space + length);
            if holds(text, colon, ':') {
                lemma_value_read(text, colon + 1);
            }
        },
        Err(_) => {},
    }
}

/// The rest of an object, read behind well-formed members under keys that
/// differ, is well-formed.
pub proof fn lemma_members_read(text: Seq<char>, from: int, done: Seq<(Seq<char>, Tree)>)
    requires
        Tree::Object(done).well_formed(),
    ensures
        members_rest(text, from, done) is Ok ==> members_rest(
            text,
            from,
            done,
        )->Ok_0.0.well_formed(),
    decreases remaining(text, from), 3nat,
{
    let at = from + whitespace_len(text, from);
    if holds(text, at, ',') {
        lemma_member_read(text, at + 1);
        match member_at(text, at + 1) {
            Ok(((key, value), length)) => {
                lemma_put_member(done, key, value);
                lemma_members_read(text, at + 1 + length, put(done, key, value));
            },
            Err(_) => {},
        }
    }
}

/// What is read as an object is well-formed.
pub proof fn lemma_object_read(text: Seq<char>, from: int)
    ensures
        object_at(text, from) is Ok ==> object_at(text, from)->Ok_0.0.well_formed(),
    decreases remaining(text, from), 1nat,
{
    if holds(text, from, '{') {
        let space = whitespace_len(text, from + 1);
        if !holds(text, from + 1 + space, '}') {
            lemma_member_read(text, from + 1 + space);
            match member_at(text, from + 1 + space) {
                Ok(((key, value), length)) => {
                    reveal_with_fuel(Tree::well_formed, 2);
                    assert(Tree::Object(seq![(key, value)]).well_formed());
                    lemma_members_read(
                        text,
                        from + 1 + space + length,
                        seq![(key, value)],
                    );
                },
                Err(_) => {},
            }
        }
    }
}

/// A document is well-formed: each of its numbers is written as the grammar
/// asks, and none of its objects holds a key twice.
pub proof fn law_document_well_formed(text: Seq<char>)
    ensures
        document(text) is Ok ==> document(text)->Ok_0.well_formed(),
{
    lemma_value_read(text, 0);
}

} // verus!
