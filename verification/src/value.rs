use vstd::prelude::*;
use crate::grammar::is_number;
use crate::number::Number;

verus! {

/// The mathematical tree that a [`Value`] stands for.
///
/// The members of an object are kept in the order in which their keys were
/// first set.
pub enum Tree {
    Null,
    Bool(bool),
    /// A number, held as its decimal notation.
    Number(Seq<char>),
    /// A string, escape sequences resolved.
    String(Seq<char>),
    Array(Seq<Tree>),
    Object(Seq<(Seq<char>, Tree)>),
}

impl Tree {
    /// Every number of the tree is written as the grammar asks, and no
    /// object of the tree holds a key twice.
    pub open spec fn well_formed(self) -> bool
        decreases self,
    {
        match self {
            Tree::Number(lexeme) => is_number(lexeme),
            Tree::Array(elements) => forall|i: int|
                0 <= i < elements.len() ==> (#[trigger] elements[i]).well_formed(),
            Tree::Object(members) => {
                &&& distinct_keys(members)
                &&& forall|i: int|
                    0 <= i < members.len() ==> (#[trigger] members[i]).1.well_formed()
            },
            _ => true,
        }
    }
}

/// No key occurs twice among `members`.
pub open spec fn distinct_keys(members: Seq<(Seq<char>, Tree)>) -> bool {
    forall|i: int, j: int|
        0 <= i < j < members.len() ==> (#[trigger] members[i]).0 != (#[trigger] members[j]).0
}

/// A JSON value. `Object` keeps its members in a vector; in a well-formed
/// value no key occurs twice.
#[derive(Debug, PartialEq, Eq)]
pub enum Value {
    Null,
    Bool(bool),
    Number(Number),
    String(String),
    Array(Vec<Value>),
    Object(Vec<(String, Value)>),
}

impl View for Value {
    type V = Tree;

    open spec fn view(&self) -> Tree
        decreases self,
    {
        match self {
            Value::Null => Tree::Null,
            Value::Bool(b) => Tree::Bool(*b),
            Value::Number(number) => Tree::Number(number@),
            Value::String(text) => Tree::String(text@),
            Value::Array(items) => Tree::Array(
                Seq::new(
                    items.len() as nat,
                    |i: int|
                        if 0 <= i < items.len() {
                            items[i].view()
                        } else {
                            Tree::Null
                        },
                ),
            ),
            Value::Object(members) => Tree::Object(
                Seq::new(
                    members@.len(),
                    |i: int|
                        if 0 <= i < members@.len() {
                            (members@[i].0@, members@[i].1.view())
                        } else {
                            (Seq::empty(), Tree::Null)
                        },
                ),
            ),
        }
    }
}

/// The trees of a sequence of values.
pub open spec fn trees(values: Seq<Value>) -> Seq<Tree> {
    Seq::new(values.len(), |i: int| values[i]@)
}

/// The members of an object as pairs of key and tree.
pub open spec fn entries(members: Seq<(String, Value)>) -> Seq<(Seq<char>, Tree)> {
    Seq::new(members.len(), |i: int| (members[i].0@, members[i].1@))
}

/// An array stands for the trees of its elements.
pub proof fn lemma_array_view(elements: Vec<Value>)
    ensures
        Value::Array(elements)@ == Tree::Array(trees(elements@)),
{
    assert(Value::Array(elements)@->Array_0 =~= trees(elements@));
}

/// An object stands for its keys and the trees of its values.
pub proof fn lemma_object_view(members: Vec<(String, Value)>)
    ensures
        Value::Object(members)@ == Tree::Object(entries(members@)),
{
    reveal_with_fuel(<Value as View>::view, 2);
    assert(Value::Object(members)@->Object_0 =~= entries(members@));
}

/// The elements of a well-formed array are well-formed.
pub proof fn lemma_element_well_formed(elements: Seq<Tree>, k: int)
    requires
        Tree::Array(elements).well_formed(),
        0 <= k < elements.len(),
    ensures
        elements[k].well_formed(),
{
    reveal_with_fuel(Tree::well_formed, 2);
    let whole = Tree::Array(elements);
    assert(whole.well_formed());
    assert(whole->Array_0 == elements);
    assert(whole->Array_0[k].well_formed());
}

/// The members of a well-formed object hold well-formed trees under keys
/// that differ.
pub proof fn lemma_member_well_formed(members: Seq<(Seq<char>, Tree)>, k: int)
    requires
        Tree::Object(members).well_formed(),
        0 <= k < members.len(),
    ensures
        members[k].1.well_formed(),
        distinct_keys(members),
{
    reveal_with_fuel(Tree::well_formed, 2);
}

} // verus!
