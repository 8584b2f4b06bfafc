//! A small recursive-descent reader for JSON-like text.
//!
//! The reader threads one forward-only [`util::Cursor`] through a family of
//! sub-parsers. Each sub-parser consumes its own tokens and hands back the
//! value it read together with the delimiter that ended it, so that arrays and
//! objects compose without backtracking or reading anything twice.
//!
//! Contracts are stated over [`model::Json`], the mathematical view of a
//! [`Value`], and over the grammar in [`grammar`] and [`numeral`]. What holds
//! of the grammar as a whole is proved in [`laws`]: above all, that the text
//! of a parsed value ([`render::render`]) reads as the same value again.
//!
//! Floating-point arithmetic is kept out: a number that is no 32-bit integer
//! is held as its token, whose syntax is checked. Escapes in strings are not
//! decoded: a backslash and the character behind it are kept as they are.
use vstd::prelude::*;

pub mod grammar;
pub mod laws;
pub mod model;
pub mod numeral;
pub mod parser;
pub mod render;
pub mod search;
pub mod tokenize;
pub mod util;

use crate::grammar::document;
use crate::model::{lemma_object_view, lemma_position, lookup, member_trees, Json};
use crate::parser::{parse_array, parse_object};
use crate::render::canonical;
use crate::util::{expect_token, Cursor};

verus! {

/// A number as it was read: an integer that fits 32 bits, or the text of a
/// token in floating-point syntax.
#[derive(Debug, PartialEq)]
pub enum Number {
    Int(i32),
    Float(String),
}

/// A parsed value. An object keeps its members in the order in which their
/// keys first appeared.
#[derive(Debug, PartialEq)]
pub enum Value {
    String(String),
    Number(Number),
    Boolean(bool),
    Null,
    Array(Vec<Value>),
    Object(Vec<(String, Value)>),
}

impl Value {
    /// The value that an object holds for `key`. `None` where it holds none, and
    /// for a value that is no object.
    pub fn get(&self, key: &str) -> (r: Option<&Value>)
        ensures
            match r {
                Some(value) => self@ is Object && lookup(self@->Object_0, key@) == Some(value@),
                None => self@ is Object ==> lookup(self@->Object_0, key@) is None,
            },
    {
        match self {
            Value::Object(members) => {
                proof {
                    lemma_object_view(*members);
                }
                let ghost trees = member_trees(members@);
                let wanted: String = key.to_string();
                let mut i: usize = 0;
                while i < members.len()
                    invariant
                        0 <= i <= members@.len(),
                        trees == member_trees(members@),
                        self@ == Json::Object(trees),
                        wanted@ == key@,
                        forall|j: int| 0 <= j < i ==> (#[trigger] trees[j]).0 != key@,
                    decreases members@.len() - i,
                {
                    if members[i].0 == wanted {
                        proof {
                            lemma_position(trees, key@, i as int);
                        }
                        return Some(&members[i].1);
                    }
                    i = i + 1;
                }
                proof {
                    lemma_position(trees, key@, i as int);
                }
                None
            },
            _ => None,
        }
    }
}

/// Parses a document. Its first significant character must open an object or
/// an array; the value is returned, and what follows it in the text is not
/// looked at. `None` for any malformed input.
pub fn parse(seq: String) -> (r: Option<Value>)
    ensures
        match r {
            Some(value) => document(seq@) == Some(value@) && canonical(value@) && (value is Array
                || value is Object),
            None => document(seq@) is None,
        },
{
    let mut cs: Cursor = Cursor::new(seq.as_str());
    match expect_token(&mut cs) {
        Some(c) => {
            cs.next();
            if c == '{' {
                match parse_object(&mut cs) {
                    Ok((result, _c)) => Some(result),
                    Err(_) => None,
                }
            } else if c == '[' {
                match parse_array(&mut cs) {
                    Ok((result, _c)) => Some(result),
                    Err(_) => None,
                }
            } else {
                None
            }
        },
        None => None,
    }
}

} // verus!
