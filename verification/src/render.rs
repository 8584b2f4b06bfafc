//! The text of a value, and the values whose text reads back as themselves.
use crate::grammar::{ends_token, is_delimiter, significant};
use crate::model::{Json, Numeral};
use crate::numeral::{classify, is_digit, is_sign};
use vstd::prelude::*;

verus! {

/// The character of a decimal digit.
pub open spec fn digit_char(d: nat) -> char {
    (d + '0' as nat) as char
}

/// The decimal digits of a natural number, without leading zeros.
pub open spec fn digits(n: nat) -> Seq<char>
    decreases n,
{
    if n < 10 {
        seq![digit_char(n)]
    } else {
        digits(n / 10).push(digit_char(n % 10))
    }
}

/// The text of an integer: its digits, behind a minus where it is negative.
pub open spec fn render_int(i: int) -> Seq<char> {
    if i < 0 {
        seq!['-'] + digits((-i) as nat)
    } else {
        digits(i as nat)
    }
}

/// A text between quotes.
pub open spec fn quoted(text: Seq<char>) -> Seq<char> {
    seq!['"'] + text + seq!['"']
}

/// The text of a value: strings between quotes and otherwise as they are,
/// integers in decimal, floats as their token, items and members between
/// brackets and braces with a comma between two of them, no blanks.
pub open spec fn render(j: Json) -> Seq<char>
    decreases j,
{
    match j {
        Json::String(text) => quoted(text),
        Json::Number(Numeral::Int(i)) => render_int(i as int),
        Json::Number(Numeral::Float(token)) => token,
        Json::Boolean(b) => if b {
            seq!['t', 'r', 'u', 'e']
        } else {
            seq!['f', 'a', 'l', 's', 'e']
        },
        Json::Null => seq!['n', 'u', 'l', 'l'],
        Json::Array(items) => seq!['['] + render_items(items) + seq![']'],
        Json::Object(members) => seq!['{'] + render_members(members) + seq!['}'],
    }
}

/// The texts of the items of an array, with a comma between two of them.
pub open spec fn render_items(items: Seq<Json>) -> Seq<char>
    decreases items,
{
    if items.len() == 0 {
        Seq::empty()
    } else if items.len() == 1 {
        render(items[0])
    } else {
        render(items[0]) + seq![','] + render_items(items.skip(1))
    }
}

/// The text of a member: its key between quotes, a colon, its value.
pub open spec fn render_member(member: (Seq<char>, Json)) -> Seq<char>
    decreases member,
{
    quoted(member.0) + seq![':'] + render(member.1)
}

/// The texts of the members of an object, with a comma between two of them.
pub open spec fn render_members(members: Seq<(Seq<char>, Json)>) -> Seq<char>
    decreases members,
{
    if members.len() == 0 {
        Seq::empty()
    } else if members.len() == 1 {
        render_member(members[0])
    } else {
        render_member(members[0]) + seq![','] + render_members(members.skip(1))
    }
}

/// A text that can stand between quotes: every quote in it is taken along by
/// a backslash, and no backslash is its last character but one that is taken
/// along itself.
pub open spec fn is_escaped(text: Seq<char>) -> bool
    decreases text.len(),
{
    if text.len() == 0 {
        true
    } else if text[0] == '"' {
        false
    } else if text[0] == '\\' {
        text.len() >= 2 && is_escaped(text.skip(2))
    } else {
        is_escaped(text.skip(1))
    }
}

/// Whether no two members have the same key.
pub open spec fn distinct_keys(members: Seq<(Seq<char>, Json)>) -> bool {
    forall|i: int, j: int|
        0 <= i < j < members.len() ==> (#[trigger] members[i]).0 != (#[trigger] members[j]).0
}

/// A float token as the parser keeps it: it starts with a digit or a sign,
/// holds no character that ends a token, and reads as a float and not as an
/// integer.
pub open spec fn is_kept_float(token: Seq<char>) -> bool {
    &&& token.len() > 0
    &&& (is_digit(token[0]) || is_sign(token[0]))
    &&& forall|i: int| 0 <= i < token.len() ==> !ends_token(#[trigger] token[i])
    &&& classify(token) == Some(Numeral::Float(token))
}

/// The values that the parser can return: escaped strings and keys, float
/// tokens as it keeps them, and no key twice in an object.
pub open spec fn canonical(j: Json) -> bool
    decreases j,
{
    match j {
        Json::String(text) => is_escaped(text),
        Json::Number(Numeral::Int(_)) => true,
        Json::Number(Numeral::Float(token)) => is_kept_float(token),
        Json::Boolean(_) => true,
        Json::Null => true,
        Json::Array(items) => forall|i: int|
            0 <= i < items.len() ==> canonical(#[trigger] items[i]),
        Json::Object(members) => {
            &&& distinct_keys(members)
            &&& forall|i: int|
                0 <= i < members.len() ==> is_escaped((#[trigger] members[i]).0) && canonical(
                    members[i].1,
                )
        },
    }
}

/// Whether `tail` can stand behind the text of `j`: behind a number the input
/// ends or goes on with a delimiter, and behind `true`, `false` and `null`
/// something significant follows.
pub open spec fn may_follow(j: Json, tail: Seq<char>) -> bool {
    match j {
        Json::Number(_) => tail.len() > 0 ==> is_delimiter(tail[0]),
        Json::Boolean(_) => significant(tail) is Some,
        Json::Null => significant(tail) is Some,
        _ => true,
    }
}

} // verus!
