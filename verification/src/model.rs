//! The mathematical model of parsed values.
use crate::{Number, Value};
use vstd::prelude::*;

verus! {

/// The model of a [`Number`].
pub enum Numeral {
    Int(i32),
    Float(Seq<char>),
}

/// The model of a [`Value`]: a finite tree over sequences.
pub enum Json {
    String(Seq<char>),
    Number(Numeral),
    Boolean(bool),
    Null,
    Array(Seq<Json>),
    Object(Seq<(Seq<char>, Json)>),
}

impl View for Number {
    type V = Numeral;

    open spec fn view(&self) -> Numeral {
        match self {
            Number::Int(i) => Numeral::Int(*i),
            Number::Float(t) => Numeral::Float(t@),
        }
    }
}

/// The tree that a value stands for.
pub open spec fn tree(v: Value) -> Json
    decreases v,
{
    match v {
        Value::String(s) => Json::String(s@),
        Value::Number(n) => Json::Number(n@),
        Value::Boolean(b) => Json::Boolean(b),
        Value::Null => Json::Null,
        Value::Array(items) => Json::Array(
            Seq::new(
                items@.len(),
                |i: int|
                    if 0 <= i < items@.len() {
                        tree(items@[i])
                    } else {
                        Json::Null
                    },
            ),
        ),
        Value::Object(members) => Json::Object(
            Seq::new(
                members@.len(),
                |i: int|
                    if 0 <= i < members@.len() {
                        (members@[i].0@, tree(members@[i].1))
                    } else {
                        (Seq::empty(), Json::Null)
                    },
            ),
        ),
    }
}

impl View for Value {
    type V = Json;

    open spec fn view(&self) -> Json {
        tree(*self)
    }
}

/// The trees of a list of values, in order.
pub open spec fn trees(items: Seq<Value>) -> Seq<Json> {
    Seq::new(items.len(), |i: int| items[i]@)
}

/// The keys and trees of a list of members, in order.
pub open spec fn member_trees(members: Seq<(String, Value)>) -> Seq<(Seq<char>, Json)> {
    Seq::new(members.len(), |i: int| (members[i].0@, members[i].1@))
}

/// The view of an array is the list of its items' views.
pub proof fn lemma_array_view(items: Vec<Value>)
    ensures
        Value::Array(items)@ == Json::Array(trees(items@)),
{
    assert(Value::Array(items)@->Array_0 =~= trees(items@));
}

/// The view of an object is the list of its members' keys and views.
pub proof fn lemma_object_view(members: Vec<(String, Value)>)
    ensures
        Value::Object(members)@ == Json::Object(member_trees(members@)),
{
    assert(Value::Object(members)@->Object_0 =~= member_trees(members@));
}

/// The index of the first member with the given key; the number of members
/// where there is none.
pub open spec fn position(members: Seq<(Seq<char>, Json)>, key: Seq<char>) -> nat
    decreases members.len(),
{
    if members.len() == 0 || members[0].0 == key {
        0
    } else {
        1 + position(members.skip(1), key)
    }
}

/// The value that the members hold for a key, if they hold one.
pub open spec fn lookup(members: Seq<(Seq<char>, Json)>, key: Seq<char>) -> Option<Json> {
    if position(members, key) < members.len() {
        Some(members[position(members, key) as int].1)
    } else {
        None
    }
}

/// The value that the last write to a key gave it, if there was one.
pub open spec fn last_written(entries: Seq<(Seq<char>, Json)>, key: Seq<char>) -> Option<Json>
    decreases entries.len(),
{
    if entries.len() == 0 {
        None
    } else if entries.last().0 == key {
        Some(entries.last().1)
    } else {
        last_written(entries.drop_last(), key)
    }
}

/// The members after a write: a key that is there keeps its place and gets the
/// new value, a new key goes to the end.
pub open spec fn put(members: Seq<(Seq<char>, Json)>, key: Seq<char>, value: Json) -> Seq<
    (Seq<char>, Json),
> {
    let i: nat = position(members, key);
    if i < members.len() {
        members.update(i as int, (key, value))
    } else {
        members.push((key, value))
    }
}

/// The members that a list of writes leaves, the writes taken in order.
pub open spec fn assemble(entries: Seq<(Seq<char>, Json)>) -> Seq<(Seq<char>, Json)>
    decreases entries.len(),
{
    if entries.len() == 0 {
        Seq::empty()
    } else {
        put(assemble(entries.drop_last()), entries.last().0, entries.last().1)
    }
}

/// The index that a search from the front finds is the position.
pub proof fn lemma_position(members: Seq<(Seq<char>, Json)>, key: Seq<char>, i: int)
    requires
        0 <= i <= members.len(),
        forall|j: int| 0 <= j < i ==> (#[trigger] members[j]).0 != key,
        i < members.len() ==> members[i].0 == key,
    ensures
        position(members, key) == i,
    decreases i,
{
    if i > 0 {
        assert(members[0].0 != key);
        let rest = members.skip(1);
        assert forall|j: int| 0 <= j < i - 1 implies (#[trigger] rest[j]).0 != key by {
            assert(rest[j] == members[j + 1]);
        }
        lemma_position(rest, key, i - 1);
    }
}

/// Assembling one more write is a `put` on what the writes before it left.
pub proof fn lemma_assemble_push(
    entries: Seq<(Seq<char>, Json)>,
    key: Seq<char>,
    value: Json,
)
    ensures
        assemble(entries.push((key, value))) == put(assemble(entries), key, value),
{
    assert(entries.push((key, value)).drop_last() == entries);
}

} // verus!
