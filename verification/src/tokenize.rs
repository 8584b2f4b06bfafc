//! A flat tokenizer, and two tests on tokens.
use crate::grammar::tail;
use crate::numeral::{classify, is_digit};
use crate::util::{read_number, read_word, Cursor};
use vstd::prelude::*;

verus! {

/// Whether the token is a number: an integer of 32 bits, or a token in
/// floating-point syntax.
pub fn is_number(seq: String) -> (r: bool)
    ensures
        r == (classify(seq@) is Some),
{
    match read_number(seq.as_str()) {
        Ok(_) => true,
        Err(_) => false,
    }
}

/// Whether the token is `true` or `false`.
pub fn is_bool(seq: String) -> (r: bool)
    ensures
        r == (seq@ == seq!['t', 'r', 'u', 'e'] || seq@ == seq!['f', 'a', 'l', 's', 'e']),
{
    proof {
        reveal_strlit("true");
        reveal_strlit("false");
        assert("true"@ =~= seq!['t', 'r', 'u', 'e']);
        assert("false"@ =~= seq!['f', 'a', 'l', 's', 'e']);
    }
    seq == "true".to_string() || seq == "false".to_string()
}

/// The characters that are a token each.
pub open spec fn is_bracket(c: char) -> bool {
    c == '{' || c == '}' || c == '[' || c == ']' || c == ':'
}

/// The characters that a number token is made of.
pub open spec fn is_numeric(c: char) -> bool {
    is_digit(c) || c == '.'
}

/// The length of a quoted word behind its opening quote: up to its closing
/// quote, which counts, or to the end of the input.
pub open spec fn quoted_length(s: Seq<char>) -> nat
    decreases s.len(),
{
    if s.len() == 0 {
        0
    } else if s[0] == '"' {
        1
    } else {
        1 + quoted_length(s.skip(1))
    }
}

/// The number of numeric characters that the input starts with.
pub open spec fn numeric_run(s: Seq<char>) -> nat
    decreases s.len(),
{
    if s.len() > 0 && is_numeric(s[0]) {
        1 + numeric_run(s.skip(1))
    } else {
        0
    }
}

/// Neither length runs past the input.
pub proof fn lemma_lengths(s: Seq<char>)
    ensures
        quoted_length(s) <= s.len(),
        numeric_run(s) <= s.len(),
    decreases s.len(),
{
    if s.len() > 0 {
        lemma_lengths(s.skip(1));
    }
}

/// The token that a keyword gives: the keyword where the input spells it, else
/// nothing.
pub open spec fn keyword(s: Seq<char>, word: Seq<char>) -> Seq<Seq<char>> {
    if s.len() >= word.len() && s.take(word.len() as int) == word {
        seq![word]
    } else {
        Seq::empty()
    }
}

/// The input behind a keyword's length, or its end where it is shorter.
pub open spec fn behind_keyword(s: Seq<char>, word: Seq<char>) -> Seq<char> {
    if s.len() >= word.len() {
        s.skip(word.len() as int)
    } else {
        Seq::empty()
    }
}

/// The tokens of a text. Brackets and the colon are tokens of their own. A
/// quote starts a word that runs to the next quote. `t`, `f` and `n` start a
/// keyword of four, five and four characters, which is a token only where it
/// is spelled `true`, `false` or `null`. A digit or a point starts a number,
/// and the character that ends the number is dropped. Any other character is
/// passed over.
pub open spec fn tokens(s: Seq<char>) -> Seq<Seq<char>>
    decreases s.len(),
{
    if s.len() == 0 {
        Seq::empty()
    } else {
        let c = s[0];
        let r = s.skip(1);
        if is_bracket(c) {
            seq![seq![c]] + tokens(r)
        } else if c == '"' {
            proof {
                lemma_lengths(r);
            }
            let n: nat = quoted_length(r);
            seq![seq![c] + r.take(n as int)] + tokens(r.skip(n as int))
        } else if c == 't' {
            keyword(s, seq!['t', 'r', 'u', 'e']) + tokens(
                behind_keyword(s, seq!['t', 'r', 'u', 'e']),
            )
        } else if c == 'f' {
            keyword(s, seq!['f', 'a', 'l', 's', 'e']) + tokens(
                behind_keyword(s, seq!['f', 'a', 'l', 's', 'e']),
            )
        } else if c == 'n' {
            keyword(s, seq!['n', 'u', 'l', 'l']) + tokens(
                behind_keyword(s, seq!['n', 'u', 'l', 'l']),
            )
        } else if is_numeric(c) {
            proof {
                lemma_lengths(r);
            }
            let n: nat = numeric_run(r);
            seq![seq![c] + r.take(n as int)] + tokens(tail(r.skip(n as int)))
        } else {
            tokens(r)
        }
    }
}

/// The texts of a list of strings.
pub open spec fn texts(words: Seq<String>) -> Seq<Seq<char>> {
    Seq::new(words.len(), |i: int| words[i]@)
}

/// Reads a quoted word behind its opening quote `c`: up to the closing quote,
/// which belongs to the word, or to the end of the input.
fn read_quoted(c: char, cs: &mut Cursor) -> (word: String)
    ensures
        word@ == seq![c] + old(cs)@.take(quoted_length(old(cs)@) as int),
        final(cs)@ == old(cs)@.skip(quoted_length(old(cs)@) as int),
{
    let mut word: String = String::new();
    word.push(c);
    let ghost start = cs@;
    let ghost mut taken: int = 0;
    assert(start.take(0) == Seq::<char>::empty());
    assert(start.skip(0) == start);
    loop
        invariant_except_break
            0 <= taken <= start.len(),
            cs@ == start.skip(taken),
            word@ == seq![c] + start.take(taken),
            taken + quoted_length(cs@) == quoted_length(start),
        ensures
            0 <= taken <= start.len(),
            cs@ == start.skip(taken),
            word@ == seq![c] + start.take(taken),
            taken == quoted_length(start),
        decreases cs@.len(),
    {
        match cs.next() {
            None => {
                break ;
            },
            Some(x) => {
                word.push(x);
                proof {
                    assert(start.skip(taken).skip(1) == start.skip(taken + 1));
                    assert(start.take(taken + 1) == start.take(taken).push(x));
                    assert(seq![c] + start.take(taken).push(x) == (seq![c] + start.take(
                        taken,
                    )).push(x));
                    taken = taken + 1;
                }
                if x == '"' {
                    break ;
                }
            },
        }
    }
    word
}

/// Reads a number behind its first character `c`: the numeric characters that
/// follow. The character that ends them is consumed and dropped.
fn read_numeric(c: char, cs: &mut Cursor) -> (word: String)
    ensures
        word@ == seq![c] + old(cs)@.take(numeric_run(old(cs)@) as int),
        final(cs)@ == tail(old(cs)@.skip(numeric_run(old(cs)@) as int)),
{
    let mut word: String = String::new();
    word.push(c);
    let ghost start = cs@;
    let ghost mut taken: int = 0;
    assert(start.take(0) == Seq::<char>::empty());
    assert(start.skip(0) == start);
    loop
        invariant_except_break
            0 <= taken <= start.len(),
            cs@ == start.skip(taken),
            word@ == seq![c] + start.take(taken),
            taken + numeric_run(cs@) == numeric_run(start),
        ensures
            0 <= taken <= start.len(),
            cs@ == tail(start.skip(taken)),
            word@ == seq![c] + start.take(taken),
            taken == numeric_run(start),
        decreases cs@.len(),
    {
        match cs.next() {
            None => {
                break ;
            },
            Some(x) => {
                if !((x >= '0' && x <= '9') || x == '.') {
                    break ;
                }
                word.push(x);
                proof {
                    assert(start.skip(taken).skip(1) == start.skip(taken + 1));
                    assert(start.take(taken + 1) == start.take(taken).push(x));
                    assert(seq![c] + start.take(taken).push(x) == (seq![c] + start.take(
                        taken,
                    )).push(x));
                    taken = taken + 1;
                }
            },
        }
    }
    word
}

/// Adds a word to the tokens read so far.
fn push_token(content: &mut Vec<String>, word: String)
    ensures
        texts(final(content)@) == texts(old(content)@).push(word@),
{
    content.push(word);
    assert(texts(content@) =~= texts(old(content)@).push(word@));
}

/// Reads a keyword behind its first character `c`, which has `count` more
/// characters, and adds it to the tokens where it is spelled as `expected`.
fn read_keyword(
    c: char,
    cs: &mut Cursor,
    count: usize,
    expected: &str,
    content: &mut Vec<String>,
)
    requires
        expected@.len() == count + 1,
        expected@[0] == c,
    ensures
        texts(final(content)@) == texts(old(content)@) + keyword(
            seq![c] + old(cs)@,
            expected@,
        ),
        final(cs)@ == behind_keyword(seq![c] + old(cs)@, expected@),
{
    let ghost s = seq![c] + cs@;
    let ghost r = cs@;
    let word: String = read_word(c, cs, count);
    proof {
        if r.len() >= count {
            assert(s.take(count + 1) =~= seq![c] + r.take(count as int));
            assert(s.skip(count + 1) =~= r.skip(count as int));
        } else {
            assert(r.skip(r.len() as int) =~= Seq::<char>::empty());
        }
    }
    if word == expected.to_string() {
        push_token(content, word);
        assert(texts(old(content)@).push(expected@) =~= texts(old(content)@) + seq![expected@]);
    } else {
        assert(texts(old(content)@) + Seq::<Seq<char>>::empty() =~= texts(old(content)@));
    }
}

/// Splits a text into tokens: brackets and colons, quoted words, the three
/// keywords, and numbers. Blanks, commas and anything else are passed over.
pub fn tokenize(data: String) -> (content: Vec<String>)
    ensures
        texts(content@) == tokens(data@),
{
    let mut content: Vec<String> = Vec::new();
    let mut cs: Cursor = Cursor::new(data.as_str());
    assert(texts(content@) + tokens(cs@) =~= tokens(data@));
    loop
        invariant
            texts(content@) + tokens(cs@) == tokens(data@),
        decreases cs@.len(),
    {
        let ghost s = cs@;
        let ghost done = texts(content@);
        let c: char = match cs.next() {
            Some(c) => c,
            None => {
                assert(done + Seq::<Seq<char>>::empty() =~= done);
                return content;
            },
        };
        let ghost r = cs@;
        assert(s =~= seq![c] + r);
        proof {
            lemma_lengths(r);
            reveal_strlit("true");
            reveal_strlit("false");
            reveal_strlit("null");
            assert("true"@ =~= seq!['t', 'r', 'u', 'e']);
            assert("false"@ =~= seq!['f', 'a', 'l', 's', 'e']);
            assert("null"@ =~= seq!['n', 'u', 'l', 'l']);
        }
        if c == '{' || c == '}' || c == '[' || c == ']' || c == ':' {
            let mut word: String = String::new();
            word.push(c);
            assert(word@ =~= seq![c]);
            push_token(&mut content, word);
            assert(done.push(seq![c]) + tokens(r) =~= done + (seq![seq![c]] + tokens(r)));
        } else if c == '"' {
            let word: String = read_quoted(c, &mut cs);
            let ghost w = word@;
            push_token(&mut content, word);
            assert(done.push(w) + tokens(cs@) =~= done + (seq![w] + tokens(cs@)));
        } else if c == 't' {
            read_keyword(c, &mut cs, 3, "true", &mut content);
            assert((done + keyword(s, "true"@)) + tokens(cs@) =~= done + (keyword(s, "true"@)
                + tokens(cs@)));
        } else if c == 'f' {
            read_keyword(c, &mut cs, 4, "false", &mut content);
            assert((done + keyword(s, "false"@)) + tokens(cs@) =~= done + (keyword(s, "false"@)
                + tokens(cs@)));
        } else if c == 'n' {
            read_keyword(c, &mut cs, 3, "null", &mut content);
            assert((done + keyword(s, "null"@)) + tokens(cs@) =~= done + (keyword(s, "null"@)
                + tokens(cs@)));
        } else if (c >= '0' && c <= '9') || c == '.' {
            let word: String = read_numeric(c, &mut cs);
            let ghost w = word@;
            push_token(&mut content, word);
            assert(done.push(w) + tokens(cs@) =~= done + (seq![w] + tokens(cs@)));
        }
    }
}

} // verus!
