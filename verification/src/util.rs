//! Lexical helpers: the cursor, classifying a number token, and finding the
//! next significant character.
use crate::grammar::{head, significant, tail, trim};
use crate::numeral::{chars_of, classify, has_float_syntax, read_int};
use crate::Number;
use vstd::prelude::*;

verus! {

/// The contract of `std::string::String::push`, taken on trust from its
/// documentation: the string afterwards is the string before with the given
/// character appended at its end. Every string that the parsers build is
/// built with it.
pub assume_specification[ std::string::String::push ](s: &mut std::string::String, ch: char)
    ensures
        final(s)@ == old(s)@.push(ch),
;

/// A forward-only position in a text. Its view is the input that has not been
/// consumed yet.
pub struct Cursor {
    chars: Vec<char>,
    pos: usize,
}

impl View for Cursor {
    type V = Seq<char>;

    closed spec fn view(&self) -> Seq<char> {
        self.chars@.skip(self.pos as int)
    }
}

impl Cursor {
    #[verifier::type_invariant]
    spec fn in_bounds(self) -> bool {
        self.pos <= self.chars@.len()
    }

    /// A cursor at the start of `text`.
    pub fn new(text: &str) -> (cs: Cursor)
        ensures
            cs@ == text@,
    {
        Cursor { chars: chars_of(text), pos: 0 }
    }

    /// The character at the cursor, which stays where it is.
    pub fn peek(&self) -> (r: Option<char>)
        ensures
            r == head(self@),
    {
        proof {
            use_type_invariant(self);
        }
        if self.pos < self.chars.len() {
            Some(self.chars[self.pos])
        } else {
            None
        }
    }

    /// The character at the cursor, which moves behind it.
    pub fn next(&mut self) -> (r: Option<char>)
        ensures
            r == head(old(self)@),
            final(self)@ == tail(old(self)@),
    {
        proof {
            use_type_invariant(&*self);
        }
        if self.pos < self.chars.len() {
            let c: char = self.chars[self.pos];
            assert(self.chars@.skip(self.pos as int).skip(1) == self.chars@.skip(self.pos + 1));
            self.pos = self.pos + 1;
            Some(c)
        } else {
            None
        }
    }
}

/// Moves the cursor to the next significant character and returns it, or
/// `None` where only blanks are left. The character itself is not consumed, so
/// a second call returns the same and moves nothing.
pub fn expect_token(cs: &mut Cursor) -> (r: Option<char>)
    ensures
        r == significant(old(cs)@),
        final(cs)@ == trim(old(cs)@),
        significant(final(cs)@) == r,
        trim(final(cs)@) == final(cs)@,
{
    loop
        invariant
            trim(cs@) == trim(old(cs)@),
        decreases cs@.len(),
    {
        match cs.peek() {
            Some(c) => {
                if c == ' ' || c == '\n' {
                    cs.next();
                } else {
                    return Some(c);
                }
            },
            None => {
                return None;
            },
        }
    }
}

/// Classifies a number token: an integer if the whole token reads as a 32-bit
/// signed integer, else a float if it has floating-point syntax.
pub fn read_number(seq: &str) -> (r: Result<Number, String>)
    ensures
        match r {
            Ok(n) => classify(seq@) == Some(n@),
            Err(e) => classify(seq@) is None && e@ == "Not number"@,
        },
{
    let chars: Vec<char> = chars_of(seq);
    match read_int(&chars) {
        Some(i) => Ok(Number::Int(i)),
        None => {
            if has_float_syntax(&chars) {
                Ok(Number::Float(seq.to_owned()))
            } else {
                Err("Not number".to_string())
            }
        },
    }
}

/// `count`, or the length of the input where that is less.
pub open spec fn at_most(count: usize, s: Seq<char>) -> int {
    if s.len() >= count {
        count as int
    } else {
        s.len() as int
    }
}

/// Reads up to `count` characters, fewer where the input ends, and returns
/// them with `c` in front.
pub fn read_word(c: char, cs: &mut Cursor, count: usize) -> (token: String)
    ensures
        token@ == seq![c] + old(cs)@.take(at_most(count, old(cs)@)),
        final(cs)@ == old(cs)@.skip(at_most(count, old(cs)@)),
{
    let mut token: String = String::new();
    token.push(c);
    let ghost start = cs@;
    let mut taken: usize = 0;
    assert(start.take(0) == Seq::<char>::empty());
    assert(start.skip(0) == start);
    while taken < count
        invariant_except_break
            0 <= taken <= count,
            taken <= start.len(),
            cs@ == start.skip(taken as int),
            token@ == seq![c] + start.take(taken as int),
        ensures
            taken == at_most(count, start),
            cs@ == start.skip(taken as int),
            token@ == seq![c] + start.take(taken as int),
        decreases count - taken,
    {
        match cs.next() {
            None => {
                break ;
            },
            Some(x) => {
                token.push(x);
                proof {
                    assert(start.skip(taken as int).skip(1) == start.skip(taken + 1));
                    assert(start.take(taken + 1) == start.take(taken as int).push(x));
                    assert(seq![c] + start.take(taken as int).push(x) == (seq![c] + start.take(
                        taken as int,
                    )).push(x));
                }
                taken = taken + 1;
            },
        }
    }
    token
}

} // verus!
