//! The sub-parsers. Each one reads its value from the cursor, then the
//! delimiter that follows, and leaves the cursor behind that delimiter.
use crate::grammar::{
    array_items, array_value, behind, bool_value, element, lemma_array_items_trim,
    lemma_object_entries_trim, lemma_trim_idempotent, lemma_trim_shrinks, null_value,
    number_value, object_entries, object_key, object_value, significant, starts_with,
    string_body, string_value, token_length, Parsed,
};
use crate::laws::lemma_element_canonical;
use crate::model::{
    assemble, lemma_array_view, lemma_assemble_push, lemma_object_view, lemma_position,
    member_trees, put, trees, Json,
};
use crate::render::canonical;
use crate::util::{expect_token, read_number, read_word, Cursor};
use crate::{Number, Value};
use vstd::prelude::*;

verus! {

/// Whether a sub-parser's result is what the grammar makes of the input: on
/// success the value, the delimiter and the input left behind it; else the
/// one error there is.
pub open spec fn agrees(
    r: Result<(Value, Option<char>), String>,
    rest: Seq<char>,
    expected: Option<Parsed>,
) -> bool {
    match r {
        Ok((value, delimiter)) => expected == Some(Parsed { value: value@, delimiter, rest }),
        Err(e) => expected is None && e@ == "Parse Error"@,
    }
}

/// Whether the value of a successful result is canonical: its strings and
/// keys are escaped, its float tokens are as the parser keeps them, and no
/// object has a key twice.
pub open spec fn is_canonical(r: Result<(Value, Option<char>), String>) -> bool {
    match r {
        Ok((value, _)) => canonical(value@),
        Err(_) => true,
    }
}

/// The error that every failure gives.
fn parse_error() -> (e: String)
    ensures
        e@ == "Parse Error"@,
{
    "Parse Error".to_string()
}

/// Reads the delimiter that follows a value: the next significant character,
/// which is consumed, or `None` at the end of the input.
fn take_delimiter(cs: &mut Cursor) -> (r: Option<char>)
    ensures
        r == significant(old(cs)@),
        final(cs)@ == behind(old(cs)@),
        final(cs)@.len() <= old(cs)@.len(),
{
    let r: Option<char> = expect_token(cs);
    proof {
        lemma_trim_shrinks(old(cs)@);
    }
    cs.next();
    r
}

/// Reads a string whose opening quote has been consumed. A backslash is kept
/// as it is and takes the next character with it, so an escaped quote does not
/// end the string. Fails where the input ends before the closing quote.
pub fn parse_string(cs: &mut Cursor) -> (r: Result<(Value, Option<char>), String>)
    ensures
        final(cs)@.len() <= old(cs)@.len(),
        agrees(r, final(cs)@, string_value(old(cs)@)),
{
    let mut word: String = String::new();
    loop
        invariant_except_break
            cs@.len() <= old(cs)@.len(),
            match string_body(cs@) {
                Some((text, rest)) => string_body(old(cs)@) == Some((word@ + text, rest)),
                None => string_body(old(cs)@) is None,
            },
        ensures
            cs@.len() <= old(cs)@.len(),
            string_body(old(cs)@) == Some((word@, cs@)),
        decreases cs@.len(),
    {
        let ghost before = cs@;
        let ghost read = word@;
        match cs.next() {
            None => {
                return Err(parse_error());
            },
            Some(c) => {
                if c == '"' {
                    assert(read + Seq::<char>::empty() == read);
                    break ;
                }
                word.push(c);
                if c == '\\' {
                    match cs.next() {
                        None => {
                            return Err(parse_error());
                        },
                        Some(x) => {
                            word.push(x);
                            assert(before.skip(1).skip(1) == before.skip(2));
                            assert forall|text: Seq<char>|
                                read + (seq![c, x] + text) == word@ + text by {
                                assert(read + (seq![c, x] + text) =~= word@ + text);
                            }
                        },
                    }
                } else {
                    assert forall|text: Seq<char>| read + (seq![c] + text) == word@ + text by {
                        assert(read + (seq![c] + text) =~= word@ + text);
                    }
                }
            },
        }
    }
    let delimiter: Option<char> = take_delimiter(cs);
    Ok((Value::String(word), delimiter))
}

/// Reads a number whose first character `c` has been consumed by the caller.
/// The token runs up to the first delimiter or blank. Behind the token the
/// input may end; otherwise a delimiter must follow. Fails where the token is
/// no number.
pub fn parse_number(c: char, cs: &mut Cursor) -> (r: Result<(Value, Option<char>), String>)
    ensures
        final(cs)@.len() <= old(cs)@.len(),
        agrees(r, final(cs)@, number_value(c, old(cs)@)),
{
    let mut num: String = String::new();
    num.push(c);
    let ghost start = cs@;
    let ghost mut taken: int = 0;
    assert(start.take(0) == Seq::<char>::empty());
    assert(start.skip(0) == start);
    loop
        invariant_except_break
            0 <= taken <= start.len(),
            cs@ == start.skip(taken),
            num@ == seq![c] + start.take(taken),
            taken + token_length(cs@) == token_length(start),
        ensures
            0 <= taken <= start.len(),
            cs@ == start.skip(taken),
            num@ == seq![c] + start.take(taken),
            taken == token_length(start),
        decreases cs@.len(),
    {
        match cs.peek() {
            None => {
                break ;
            },
            Some(x) => {
                if x == ',' || x == ']' || x == '}' || x == ' ' || x == '\n' {
                    break ;
                }
                cs.next();
                num.push(x);
                proof {
                    assert(start.skip(taken).skip(1) == start.skip(taken + 1));
                    assert(start.take(taken + 1) == start.take(taken).push(x));
                    assert(seq![c] + start.take(taken).push(x) == (seq![c] + start.take(
                        taken,
                    )).push(x));
                    taken = taken + 1;
                }
            },
        }
    }
    match read_number(num.as_str()) {
        Err(_) => Err(parse_error()),
        Ok(number) => {
            match take_delimiter(cs) {
                None => Ok((Value::Number(number), None)),
                Some(d) => {
                    if d == ',' || d == ']' || d == '}' {
                        Ok((Value::Number(number), Some(d)))
                    } else {
                        Err(parse_error())
                    }
                },
            }
        },
    }
}

/// Reads `true` or `false`, whose first character `c` has been consumed by the
/// caller: three more characters behind `t`, four behind `f`. The word must be
/// spelled exactly, and a significant character must follow it.
pub fn parse_bool(c: char, cs: &mut Cursor) -> (r: Result<(Value, Option<char>), String>)
    ensures
        final(cs)@.len() <= old(cs)@.len(),
        agrees(r, final(cs)@, bool_value(c, old(cs)@)),
{
    let count: usize = if c == 't' {
        3
    } else if c == 'f' {
        4
    } else {
        0
    };
    let token: String = read_word(c, cs, count);
    let is_true: bool = token == "true".to_string();
    let is_false: bool = token == "false".to_string();
    proof {
        reveal_strlit("true");
        reveal_strlit("false");
        let s = old(cs)@;
        if s.len() >= count {
            if c == 't' {
                assert(is_true ==> s.take(3) =~= seq!['r', 'u', 'e']) by {
                    if is_true {
                        assert(token@[1] == 'r' && token@[2] == 'u' && token@[3] == 'e');
                    }
                }
                assert(starts_with(s, seq!['r', 'u', 'e']) ==> token@ =~= "true"@);
                assert(token@[0] == 't');
            } else if c == 'f' {
                assert(is_false ==> s.take(4) =~= seq!['a', 'l', 's', 'e']) by {
                    if is_false {
                        assert(token@[1] == 'a' && token@[2] == 'l' && token@[3] == 's' && token@[4]
                            == 'e');
                    }
                }
                assert(starts_with(s, seq!['a', 'l', 's', 'e']) ==> token@ =~= "false"@);
                assert(token@[0] == 'f');
            } else {
                assert(token@.len() == 1);
            }
        }
    }
    if !is_true && !is_false {
        return Err(parse_error());
    }
    match take_delimiter(cs) {
        Some(d) => Ok((Value::Boolean(is_true), Some(d))),
        None => Err(parse_error()),
    }
}

/// Reads `null`, whose first character `c` has been consumed by the caller.
/// The word must be spelled exactly, and a significant character must follow
/// it.
pub fn parse_null(c: char, cs: &mut Cursor) -> (r: Result<(Value, Option<char>), String>)
    ensures
        final(cs)@.len() <= old(cs)@.len(),
        agrees(r, final(cs)@, null_value(c, old(cs)@)),
{
    let token: String = read_word(c, cs, 3);
    let is_null: bool = token == "null".to_string();
    proof {
        reveal_strlit("null");
        let s = old(cs)@;
        if s.len() >= 3 {
            assert(is_null ==> s.take(3) =~= seq!['u', 'l', 'l']) by {
                if is_null {
                    assert(token@[1] == 'u' && token@[2] == 'l' && token@[3] == 'l');
                }
            }
            assert(c == 'n' && starts_with(s, seq!['u', 'l', 'l']) ==> token@ =~= "null"@);
            assert(token@[0] == c);
        }
    }
    if !is_null {
        return Err(parse_error());
    }
    match take_delimiter(cs) {
        Some(d) => Ok((Value::Null, Some(d))),
        None => Err(parse_error()),
    }
}

/// Writes a member: where the key is there already, its value is replaced in
/// place; else the member goes to the end.
fn insert_member(members: &mut Vec<(String, Value)>, key: String, value: Value)
    ensures
        member_trees(final(members)@) == put(member_trees(old(members)@), key@, value@),
{
    let ghost before = member_trees(members@);
    let mut i: usize = 0;
    while i < members.len()
        invariant
            0 <= i <= members@.len(),
            members@ == old(members)@,
            before == member_trees(members@),
            forall|j: int| 0 <= j < i ==> (#[trigger] before[j]).0 != key@,
        decreases members@.len() - i,
    {
        if members[i].0 == key {
            proof {
                lemma_position(before, key@, i as int);
            }
            let ghost k = key@;
            let ghost v = value@;
            members.set(i, (key, value));
            assert(member_trees(members@) =~= before.update(i as int, (k, v)));
            return ;
        }
        i = i + 1;
    }
    proof {
        lemma_position(before, key@, i as int);
    }
    let ghost k = key@;
    let ghost v = value@;
    members.push((key, value));
    assert(member_trees(members@) =~= before.push((k, v)));
}

/// Reads the key of a member and the colon behind it: the next significant
/// character must open a string, and the string's delimiter must be a colon.
pub fn parse_object_key(cs: &mut Cursor) -> (r: Option<String>)
    ensures
        final(cs)@.len() <= old(cs)@.len(),
        match r {
            Some(key) => object_key(old(cs)@) == Some((key@, final(cs)@)) && final(cs)@.len()
                < old(cs)@.len(),
            None => object_key(old(cs)@) is None,
        },
{
    proof {
        lemma_trim_shrinks(old(cs)@);
    }
    match expect_token(cs) {
        Some(c) => {
            if c != '"' {
                return None;
            }
        },
        None => {
            return None;
        },
    }
    cs.next();
    match parse_string(cs) {
        Ok((result, next_c)) => {
            match next_c {
                Some(x) => {
                    if x != ':' {
                        return None;
                    }
                },
                None => {
                    return None;
                },
            }
            match result {
                Value::String(seq) => Some(seq),
                _ => None,
            }
        },
        Err(_) => None,
    }
}

/// Reads the value that starts with the significant character `c`, which the
/// caller has consumed: a quote opens a string, a digit or a sign a number,
/// `t` or `f` a boolean, `n` a null, a bracket an array and a brace an object.
/// Any other character is an error.
pub fn parse_element(c: char, cs: &mut Cursor) -> (r: Result<(Value, Option<char>), String>)
    ensures
        final(cs)@.len() <= old(cs)@.len(),
        agrees(r, final(cs)@, element(c, old(cs)@)),
        is_canonical(r),
    decreases old(cs)@.len(), 2int,
{
    proof {
        lemma_element_canonical(c, old(cs)@);
    }
    if c == '"' {
        parse_string(cs)
    } else if (c >= '0' && c <= '9') || c == '+' || c == '-' {
        parse_number(c, cs)
    } else if c == 't' || c == 'f' {
        parse_bool(c, cs)
    } else if c == 'n' {
        parse_null(c, cs)
    } else if c == '[' {
        parse_array(cs)
    } else if c == '{' {
        parse_object(cs)
    } else {
        Err(parse_error())
    }
}

/// Reads an array whose opening bracket has been consumed. Items are read
/// until a closing bracket stands where an item could start, or closes an
/// item; a comma between them asks for more. Fails where the input ends
/// before the array is closed, or where an item fails or is closed by
/// anything else.
pub fn parse_array(cs: &mut Cursor) -> (r: Result<(Value, Option<char>), String>)
    ensures
        final(cs)@.len() <= old(cs)@.len(),
        agrees(r, final(cs)@, array_value(old(cs)@)),
        is_canonical(r),
    decreases old(cs)@.len(), 1int,
{
    proof {
        lemma_element_canonical('[', old(cs)@);
    }
    let mut content: Vec<Value> = Vec::new();
    assert(trees(content@) == Seq::<Json>::empty());
    loop
        invariant_except_break
            cs@.len() <= old(cs)@.len(),
            match array_items(cs@) {
                Some((items, rest)) => array_items(old(cs)@) == Some(
                    (trees(content@) + items, rest),
                ),
                None => array_items(old(cs)@) is None,
            },
        ensures
            cs@.len() <= old(cs)@.len(),
            array_items(old(cs)@) == Some((trees(content@), cs@)),
        decreases cs@.len(),
    {
        let ghost before = cs@;
        let ghost read = trees(content@);
        proof {
            lemma_array_items_trim(before);
            lemma_trim_shrinks(before);
            lemma_trim_idempotent(before);
        }
        let c: char = match expect_token(cs) {
            Some(c) => c,
            None => {
                return Err(parse_error());
            },
        };
        let ghost s = cs@;
        cs.next();
        if c == ']' {
            assert(read + Seq::<Json>::empty() == read);
            break ;
        }
        match parse_element(c, cs) {
            Err(e) => {
                return Err(parse_error());
            },
            Ok((value, delimiter)) => {
                let ghost item = value@;
                content.push(value);
                assert(trees(content@) =~= read.push(item));
                match delimiter {
                    Some(d) => {
                        if d == ']' {
                            assert(read + seq![item] =~= read.push(item));
                            break ;
                        }
                        if d != ',' {
                            return Err(parse_error());
                        }
                        assert forall|items: Seq<Json>| read + (seq![item] + items) == read.push(
                            item,
                        ) + items by {
                            assert(read + (seq![item] + items) =~= read.push(item) + items);
                        }
                    },
                    None => {
                        return Err(parse_error());
                    },
                }
            },
        }
    }
    let delimiter: Option<char> = take_delimiter(cs);
    proof {
        lemma_array_view(content);
    }
    Ok((Value::Array(content), delimiter))
}

/// Reads an object whose opening brace has been consumed. Members are read
/// until a closing brace stands where a key could start, or closes a value; a
/// comma between them asks for more. A key that occurs again overwrites the
/// value it had. Fails where the input ends before the object is closed,
/// where a key is no string or has no colon behind it, or where a value fails
/// or is closed by anything else.
pub fn parse_object(cs: &mut Cursor) -> (r: Result<(Value, Option<char>), String>)
    ensures
        final(cs)@.len() <= old(cs)@.len(),
        agrees(r, final(cs)@, object_value(old(cs)@)),
        is_canonical(r),
    decreases old(cs)@.len(), 1int,
{
    proof {
        lemma_element_canonical('{', old(cs)@);
    }
    let mut content: Vec<(String, Value)> = Vec::new();
    let ghost mut seen: Seq<(Seq<char>, Json)> = Seq::empty();
    assert(member_trees(content@) =~= assemble(seen));
    loop
        invariant_except_break
            cs@.len() <= old(cs)@.len(),
            member_trees(content@) == assemble(seen),
            match object_entries(cs@) {
                Some((entries, rest)) => object_entries(old(cs)@) == Some((seen + entries, rest)),
                None => object_entries(old(cs)@) is None,
            },
        ensures
            cs@.len() <= old(cs)@.len(),
            member_trees(content@) == assemble(seen),
            object_entries(old(cs)@) == Some((seen, cs@)),
        decreases cs@.len(),
    {
        let ghost before = cs@;
        proof {
            lemma_object_entries_trim(before);
            lemma_trim_shrinks(before);
            lemma_trim_idempotent(before);
        }
        let c: char = match expect_token(cs) {
            Some(c) => c,
            None => {
                return Err(parse_error());
            },
        };
        let ghost s = cs@;
        if c == '}' {
            cs.next();
            assert(seen + Seq::<(Seq<char>, Json)>::empty() == seen);
            break ;
        }
        let key: String = match parse_object_key(cs) {
            Some(key) => key,
            None => {
                return Err(parse_error());
            },
        };
        let ghost after = cs@;
        proof {
            lemma_trim_shrinks(after);
        }
        let init_c: char = match expect_token(cs) {
            Some(c) => c,
            None => {
                return Err(parse_error());
            },
        };
        cs.next();
        match parse_element(init_c, cs) {
            Err(e) => {
                return Err(parse_error());
            },
            Ok((value, delimiter)) => {
                let ghost entry = (key@, value@);
                proof {
                    lemma_assemble_push(seen, key@, value@);
                }
                insert_member(&mut content, key, value);
                let ghost earlier = seen;
                proof {
                    seen = seen.push(entry);
                }
                match delimiter {
                    Some(d) => {
                        if d == '}' {
                            assert(earlier + seq![entry] =~= seen);
                            break ;
                        }
                        if d != ',' {
                            return Err(parse_error());
                        }
                        assert forall|entries: Seq<(Seq<char>, Json)>|
                            earlier + (seq![entry] + entries) == seen + entries by {
                            assert(earlier + (seq![entry] + entries) =~= seen + entries);
                        }
                    },
                    None => {
                        return Err(parse_error());
                    },
                }
            },
        }
    }
    let delimiter: Option<char> = take_delimiter(cs);
    proof {
        lemma_object_view(content);
    }
    Ok((Value::Object(content), delimiter))
}

} // verus!
