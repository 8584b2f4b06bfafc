//! The grammar of documents.
//!
//! Every function here reads the input that a cursor has not consumed yet, as
//! a sequence of characters, and says what a sub-parser makes of it.
use crate::model::{assemble, Json};
use crate::numeral::{classify, is_digit, is_sign};
use vstd::prelude::*;

verus! {

/// The characters that carry no meaning between tokens.
pub open spec fn is_blank(c: char) -> bool {
    c == ' ' || c == '\n'
}

/// The input without the blanks that it starts with.
pub open spec fn trim(s: Seq<char>) -> Seq<char>
    decreases s.len(),
{
    if s.len() > 0 && is_blank(s[0]) {
        trim(s.skip(1))
    } else {
        s
    }
}

/// The first character of the input, if there is one.
pub open spec fn head(s: Seq<char>) -> Option<char> {
    if s.len() > 0 {
        Some(s[0])
    } else {
        None
    }
}

/// The input behind its first character; an empty input stays empty.
pub open spec fn tail(s: Seq<char>) -> Seq<char> {
    if s.len() > 0 {
        s.skip(1)
    } else {
        s
    }
}

/// The next significant character of the input, if there is one.
pub open spec fn significant(s: Seq<char>) -> Option<char> {
    head(trim(s))
}

/// The input behind its next significant character.
pub open spec fn behind(s: Seq<char>) -> Seq<char> {
    tail(trim(s))
}

/// Whether `rest` is what is left of `s` behind some of its characters.
pub open spec fn is_rest_of(rest: Seq<char>, s: Seq<char>) -> bool {
    rest.len() <= s.len() && rest == s.skip(s.len() - rest.len())
}

/// Trimming removes characters and adds none.
pub proof fn lemma_trim_shrinks(s: Seq<char>)
    ensures
        trim(s).len() <= s.len(),
    decreases s.len(),
{
    if s.len() > 0 && is_blank(s[0]) {
        lemma_trim_shrinks(s.skip(1));
    }
}

/// What a sub-parser makes of its input: the value, the delimiter that ended
/// it (`None` where the input ended with the value), and the input behind that
/// delimiter.
pub struct Parsed {
    pub value: Json,
    pub delimiter: Option<char>,
    pub rest: Seq<char>,
}

/// A value, closed by the next significant character of what follows it.
pub open spec fn closed_by(value: Json, s: Seq<char>) -> Parsed {
    Parsed { value, delimiter: significant(s), rest: behind(s) }
}

/// The text of a string whose opening quote has been read, and the input
/// behind its closing quote. A backslash is kept and takes the character after
/// it along, whatever that is.
pub open spec fn string_body(s: Seq<char>) -> Option<(Seq<char>, Seq<char>)>
    decreases s.len(),
{
    if s.len() == 0 {
        None
    } else if s[0] == '"' {
        Some((Seq::empty(), s.skip(1)))
    } else if s[0] == '\\' {
        if s.len() < 2 {
            None
        } else {
            match string_body(s.skip(2)) {
                Some((text, rest)) => Some((seq![s[0], s[1]] + text, rest)),
                None => None,
            }
        }
    } else {
        match string_body(s.skip(1)) {
            Some((text, rest)) => Some((seq![s[0]] + text, rest)),
            None => None,
        }
    }
}

/// A string whose opening quote has been read.
pub open spec fn string_value(s: Seq<char>) -> Option<Parsed> {
    match string_body(s) {
        Some((text, rest)) => Some(closed_by(Json::String(text), rest)),
        None => None,
    }
}

/// The characters that may close a value inside an array or an object.
pub open spec fn is_delimiter(c: char) -> bool {
    c == ',' || c == ']' || c == '}'
}

/// The characters that end a number token.
pub open spec fn ends_token(c: char) -> bool {
    is_delimiter(c) || is_blank(c)
}

/// The number of characters before the first that ends a token.
pub open spec fn token_length(s: Seq<char>) -> nat
    decreases s.len(),
{
    if s.len() > 0 && !ends_token(s[0]) {
        1 + token_length(s.skip(1))
    } else {
        0
    }
}

/// A number whose first character `c` has been read. Behind the token the
/// input ends, or a delimiter follows, after blanks or at once.
pub open spec fn number_value(c: char, s: Seq<char>) -> Option<Parsed> {
    let n: nat = token_length(s);
    match classify(seq![c] + s.take(n as int)) {
        Some(number) => match significant(s.skip(n as int)) {
            Some(d) => if is_delimiter(d) {
                Some(closed_by(Json::Number(number), s.skip(n as int)))
            } else {
                None
            },
            None => Some(closed_by(Json::Number(number), s.skip(n as int))),
        },
        None => None,
    }
}

/// Whether the input starts with the characters of `word`.
pub open spec fn starts_with(s: Seq<char>, word: Seq<char>) -> bool {
    s.len() >= word.len() && s.take(word.len() as int) == word
}

/// A literal whose first character has been read: the rest of its spelling,
/// and behind it a significant character.
pub open spec fn word_value(s: Seq<char>, word: Seq<char>, value: Json) -> Option<Parsed> {
    if starts_with(s, word) && significant(s.skip(word.len() as int)) is Some {
        Some(closed_by(value, s.skip(word.len() as int)))
    } else {
        None
    }
}

/// `true` or `false`, whose first character `c` has been read.
pub open spec fn bool_value(c: char, s: Seq<char>) -> Option<Parsed> {
    if c == 't' {
        word_value(s, seq!['r', 'u', 'e'], Json::Boolean(true))
    } else if c == 'f' {
        word_value(s, seq!['a', 'l', 's', 'e'], Json::Boolean(false))
    } else {
        None
    }
}

/// `null`, whose first character `c` has been read.
pub open spec fn null_value(c: char, s: Seq<char>) -> Option<Parsed> {
    if c == 'n' {
        word_value(s, seq!['u', 'l', 'l'], Json::Null)
    } else {
        None
    }
}

/// The key of a member and the input behind its colon. The key is the next
/// significant thing in the input.
pub open spec fn object_key(s: Seq<char>) -> Option<(Seq<char>, Seq<char>)> {
    if significant(s) == Some('"') {
        match string_body(behind(s)) {
            Some((key, rest)) => if significant(rest) == Some(':') {
                Some((key, behind(rest)))
            } else {
                None
            },
            None => None,
        }
    } else {
        None
    }
}

/// A value whose first significant character `c` has been read.
pub open spec fn element(c: char, s: Seq<char>) -> Option<Parsed>
    decreases s.len(), 2int,
{
    if c == '"' {
        string_value(s)
    } else if is_digit(c) || is_sign(c) {
        number_value(c, s)
    } else if c == 't' || c == 'f' {
        bool_value(c, s)
    } else if c == 'n' {
        null_value(c, s)
    } else if c == '[' {
        array_value(s)
    } else if c == '{' {
        object_value(s)
    } else {
        None
    }
}

/// The items of an array whose opening bracket has been read, and the input
/// behind its closing bracket. A comma may stand before the closing bracket.
///
/// The comparison of lengths is there to show that the definition ends. It
/// holds of every input: see `lemma_array_goes_on`.
pub open spec fn array_items(s: Seq<char>) -> Option<(Seq<Json>, Seq<char>)>
    decreases s.len(), 0int,
{
    if s.len() == 0 {
        None
    } else if is_blank(s[0]) {
        array_items(s.skip(1))
    } else if s[0] == ']' {
        Some((Seq::empty(), s.skip(1)))
    } else {
        match element(s[0], s.skip(1)) {
            Some(item) => if item.delimiter == Some(']') {
                Some((seq![item.value], item.rest))
            } else if item.delimiter == Some(',') && item.rest.len() < s.len() {
                match array_items(item.rest) {
                    Some((items, rest)) => Some((seq![item.value] + items, rest)),
                    None => None,
                }
            } else {
                None
            },
            None => None,
        }
    }
}

/// An array whose opening bracket has been read.
pub open spec fn array_value(s: Seq<char>) -> Option<Parsed>
    decreases s.len(), 1int,
{
    match array_items(s) {
        Some((items, rest)) => Some(closed_by(Json::Array(items), rest)),
        None => None,
    }
}

/// The members of an object whose opening brace has been read, in the order
/// of the text, and the input behind its closing brace.
///
/// The comparisons with the length of the input are there to show that the
/// definition ends. They hold of every input: see `lemma_object_goes_on`.
pub open spec fn object_entries(s: Seq<char>) -> Option<(Seq<(Seq<char>, Json)>, Seq<char>)>
    decreases s.len(), 0int,
{
    if s.len() == 0 {
        None
    } else if is_blank(s[0]) {
        object_entries(s.skip(1))
    } else if s[0] == '}' {
        Some((Seq::empty(), s.skip(1)))
    } else {
        match object_key(s) {
            Some((key, after)) => {
                let t = trim(after);
                if 0 < t.len() < s.len() {
                    match element(t[0], t.skip(1)) {
                        Some(item) => if item.delimiter == Some('}') {
                            Some((seq![(key, item.value)], item.rest))
                        } else if item.delimiter == Some(',') && item.rest.len() < s.len() {
                            match object_entries(item.rest) {
                                Some((entries, rest)) => Some(
                                    (seq![(key, item.value)] + entries, rest),
                                ),
                                None => None,
                            }
                        } else {
                            None
                        },
                        None => None,
                    }
                } else {
                    None
                }
            },
            None => None,
        }
    }
}

/// An object whose opening brace has been read. Where a key occurs again, its
/// last value stands at the place of its first.
pub open spec fn object_value(s: Seq<char>) -> Option<Parsed>
    decreases s.len(), 1int,
{
    match object_entries(s) {
        Some((entries, rest)) => Some(closed_by(Json::Object(assemble(entries)), rest)),
        None => None,
    }
}

/// The value of a document: an object or an array, after blanks. What follows
/// the value is not looked at.
pub open spec fn document(s: Seq<char>) -> Option<Json> {
    match significant(s) {
        Some(c) => if c == '{' || c == '[' {
            match element(c, behind(s)) {
                Some(top) => Some(top.value),
                None => None,
            }
        } else {
            None
        },
        None => None,
    }
}

/// Blanks before the items of an array change nothing.
pub proof fn lemma_array_items_trim(s: Seq<char>)
    ensures
        array_items(s) == array_items(trim(s)),
    decreases s.len(),
{
    if s.len() > 0 && is_blank(s[0]) {
        lemma_array_items_trim(s.skip(1));
    }
}

/// Blanks before the members of an object change nothing.
pub proof fn lemma_object_entries_trim(s: Seq<char>)
    ensures
        object_entries(s) == object_entries(trim(s)),
    decreases s.len(),
{
    if s.len() > 0 && is_blank(s[0]) {
        lemma_object_entries_trim(s.skip(1));
    }
}

/// Trimming twice is trimming once.
pub proof fn lemma_trim_idempotent(s: Seq<char>)
    ensures
        trim(trim(s)) == trim(s),
        trim(s).len() > 0 ==> !is_blank(trim(s)[0]),
    decreases s.len(),
{
    if s.len() > 0 && is_blank(s[0]) {
        lemma_trim_idempotent(s.skip(1));
    }
}

} // verus!
