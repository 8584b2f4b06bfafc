//! What holds of the grammar as a whole.
use crate::grammar::{
    array_items, behind, closed_by, document, element, ends_token, is_blank, is_delimiter,
    is_rest_of,
    lemma_trim_shrinks, number_value, object_entries, object_key, significant, string_body,
    token_length, trim, Parsed,
};
use crate::model::{
    assemble, last_written, lemma_position, lookup, position, put, Json, Numeral,
};
use crate::numeral::{all_digits, classify, decimal, is_digit, is_sign, unsigned_part};
use crate::render::{
    canonical, digit_char, digits, distinct_keys, is_escaped, may_follow, quoted, render,
    render_int, render_items, render_member, render_members,
};
use vstd::prelude::*;

verus! {

/// A text that starts with a character that is no blank is trimmed already.
pub proof fn lemma_trim_significant(s: Seq<char>)
    requires
        s.len() > 0,
        !is_blank(s[0]),
    ensures
        trim(s) == s,
        significant(s) == Some(s[0]),
        behind(s) == s.skip(1),
{
}

/// An escaped text between quotes reads back as itself.
pub proof fn lemma_string_reads_back(text: Seq<char>, rest: Seq<char>)
    requires
        is_escaped(text),
    ensures
        string_body(text + seq!['"'] + rest) == Some((text, rest)),
    decreases text.len(),
{
    let s = text + seq!['"'] + rest;
    if text.len() == 0 {
        assert(s.skip(1) =~= rest);
        assert(text =~= Seq::<char>::empty());
    } else if text[0] == '\\' {
        assert(s[0] == text[0] && s[1] == text[1]);
        assert(s.skip(2) =~= text.skip(2) + seq!['"'] + rest);
        lemma_string_reads_back(text.skip(2), rest);
        assert(seq![s[0], s[1]] + text.skip(2) =~= text);
    } else {
        assert(s[0] == text[0]);
        assert(s.skip(1) =~= text.skip(1) + seq!['"'] + rest);
        lemma_string_reads_back(text.skip(1), rest);
        assert(seq![s[0]] + text.skip(1) =~= text);
    }
}

/// The text that a string is read as is escaped, and the input is that text,
/// a quote, and what is left.
pub proof fn lemma_string_body_escaped(s: Seq<char>)
    ensures
        match string_body(s) {
            Some((text, rest)) => is_escaped(text) && s == text + seq!['"'] + rest,
            None => true,
        },
    decreases s.len(),
{
    if s.len() == 0 {
    } else if s[0] == '"' {
        assert(s =~= Seq::<char>::empty() + seq!['"'] + s.skip(1));
    } else if s[0] == '\\' {
        if s.len() >= 2 {
            lemma_string_body_escaped(s.skip(2));
            match string_body(s.skip(2)) {
                Some((text, rest)) => {
                    let whole = seq![s[0], s[1]] + text;
                    assert(whole.skip(2) =~= text);
                    assert(s =~= seq![s[0], s[1]] + s.skip(2));
                    assert(seq![s[0], s[1]] + (text + seq!['"'] + rest) =~= whole + seq!['"']
                        + rest);
                },
                None => {},
            }
        }
    } else {
        lemma_string_body_escaped(s.skip(1));
        match string_body(s.skip(1)) {
            Some((text, rest)) => {
                let whole = seq![s[0]] + text;
                assert(whole.skip(1) =~= text);
                assert(s =~= seq![s[0]] + s.skip(1));
                assert(seq![s[0]] + (text + seq!['"'] + rest) =~= whole + seq!['"'] + rest);
            },
            None => {},
        }
    }
}

/// The digits of a number are digits, and denote that number.
pub proof fn lemma_digits(n: nat)
    ensures
        digits(n).len() > 0,
        all_digits(digits(n)),
        decimal(digits(n)) == n,
    decreases n,
{
    if n < 10 {
        assert(digits(n).drop_last() =~= Seq::<char>::empty());
        assert(decimal(Seq::<char>::empty()) == 0);
    } else {
        lemma_digits(n / 10);
        let front = digits(n / 10);
        let d = digit_char(n % 10);
        assert(front.push(d).drop_last() =~= front);
        assert forall|i: int| 0 <= i < front.push(d).len() implies is_digit(
            #[trigger] front.push(d)[i],
        ) by {
            if i < front.len() {
                assert(front.push(d)[i] == front[i]);
            }
        }
    }
}

/// The text of an integer of 32 bits reads as that integer.
pub proof fn lemma_render_int(i: i32)
    ensures
        render_int(i as int).len() > 0,
        is_digit(render_int(i as int)[0]) || render_int(i as int)[0] == '-',
        forall|k: int|
            0 <= k < render_int(i as int).len() ==> !ends_token(#[trigger] render_int(i as int)[k]),
        classify(render_int(i as int)) == Some(Numeral::Int(i)),
{
    let t = render_int(i as int);
    if i < 0 {
        let n = (-i) as nat;
        lemma_digits(n);
        assert(t.skip(1) =~= digits(n));
        assert(unsigned_part(t) == digits(n));
        assert forall|k: int| 0 <= k < t.len() implies !ends_token(#[trigger] t[k]) by {
            if k > 0 {
                assert(t[k] == digits(n)[k - 1]);
                assert(is_digit(digits(n)[k - 1]));
            }
        }
    } else {
        let n = i as nat;
        lemma_digits(n);
        assert(is_digit(t[0]));
        assert(unsigned_part(t) == t);
        assert forall|k: int| 0 <= k < t.len() implies !ends_token(#[trigger] t[k]) by {
            assert(is_digit(t[k]));
        }
    }
}

/// A token runs as far as its characters end no token, where the input ends
/// behind them or goes on with one that does.
pub proof fn lemma_token_length(token: Seq<char>, tail: Seq<char>)
    requires
        forall|i: int| 0 <= i < token.len() ==> !ends_token(#[trigger] token[i]),
        tail.len() > 0 ==> ends_token(tail[0]),
    ensures
        token_length(token + tail) == token.len(),
    decreases token.len(),
{
    let s = token + tail;
    if token.len() == 0 {
        assert(s =~= tail);
    } else {
        assert(s[0] == token[0]);
        assert(s.skip(1) =~= token.skip(1) + tail);
        assert forall|i: int| 0 <= i < token.skip(1).len() implies !ends_token(
            #[trigger] token.skip(1)[i],
        ) by {
            assert(token.skip(1)[i] == token[i + 1]);
        }
        lemma_token_length(token.skip(1), tail);
    }
}

/// A number token reads back as the number it is classified as, where the
/// input ends behind it or goes on with a delimiter.
pub proof fn lemma_number_reads_back(token: Seq<char>, tail: Seq<char>, number: Numeral)
    requires
        token.len() > 0,
        forall|i: int| 0 <= i < token.len() ==> !ends_token(#[trigger] token[i]),
        classify(token) == Some(number),
        tail.len() > 0 ==> is_delimiter(tail[0]),
    ensures
        number_value(token[0], token.skip(1) + tail) == Some(
            closed_by(Json::Number(number), tail),
        ),
{
    let s = token.skip(1) + tail;
    assert forall|i: int| 0 <= i < token.skip(1).len() implies !ends_token(
        #[trigger] token.skip(1)[i],
    ) by {
        assert(token.skip(1)[i] == token[i + 1]);
    }
    lemma_token_length(token.skip(1), tail);
    let n = token.len() - 1;
    assert(s.take(n) =~= token.skip(1));
    assert(seq![token[0]] + token.skip(1) =~= token);
    assert(s.skip(n) =~= tail);
    if tail.len() > 0 {
        lemma_trim_significant(tail);
    }
}

/// The position of a key is the first index that holds it.
pub proof fn lemma_position_first(members: Seq<(Seq<char>, Json)>, key: Seq<char>)
    ensures
        position(members, key) <= members.len(),
        position(members, key) < members.len() ==> members[position(members, key) as int].0
            == key,
        forall|j: int| 0 <= j < position(members, key) ==> (#[trigger] members[j]).0 != key,
    decreases members.len(),
{
    if members.len() == 0 || members[0].0 == key {
    } else {
        let rest = members.skip(1);
        lemma_position_first(rest, key);
        assert forall|j: int| 0 <= j < position(members, key) implies (#[trigger] members[j]).0
            != key by {
            if j > 0 {
                assert(members[j] == rest[j - 1]);
            }
        }
    }
}

/// A write keeps the keys distinct.
pub proof fn lemma_put_distinct(members: Seq<(Seq<char>, Json)>, key: Seq<char>, value: Json)
    requires
        distinct_keys(members),
    ensures
        distinct_keys(put(members, key, value)),
{
    lemma_position_first(members, key);
    let after = put(members, key, value);
    let at = position(members, key) as int;
    assert forall|i: int, j: int| 0 <= i < j < after.len() implies (#[trigger] after[i]).0 != (
    #[trigger] after[j]).0 by {
        if at < members.len() {
            assert(after[i].0 == members[i].0);
            assert(after[j].0 == members[j].0);
        } else {
            if j < members.len() {
                assert(after[i] == members[i]);
                assert(after[j] == members[j]);
            } else {
                assert(after[i] == members[i]);
                assert(members[i].0 != key);
            }
        }
    }
}

/// After a write the key has the value written, whatever it had before, and
/// every other key has what it had.
pub proof fn lemma_last_write_wins(
    members: Seq<(Seq<char>, Json)>,
    key: Seq<char>,
    value: Json,
    other: Seq<char>,
)
    ensures
        lookup(put(members, key, value), key) == Some(value),
        other != key ==> lookup(put(members, key, value), other) == lookup(members, other),
{
    lemma_position_first(members, key);
    lemma_position_first(members, other);
    let after = put(members, key, value);
    let at = position(members, key) as int;
    assert forall|j: int| 0 <= j < at implies (#[trigger] after[j]).0 != key by {
        assert(after[j] == members[j]);
    }
    lemma_position(after, key, at);
    if other != key {
        let there = position(members, other) as int;
        if there < members.len() {
            assert forall|j: int| 0 <= j < there implies (#[trigger] after[j]).0 != other by {
                assert(after[j].0 == members[j].0);
            }
            assert(after[there] == members[there]);
            lemma_position(after, other, there);
        } else {
            assert forall|j: int| 0 <= j < after.len() implies (#[trigger] after[j]).0
                != other by {
                if j < members.len() {
                    assert(after[j].0 == members[j].0);
                }
            }
            lemma_position(after, other, after.len() as int);
        }
    }
}

/// The members that a list of writes leaves hold for each key the value of
/// the last write to it.
pub proof fn lemma_assemble_lookup(entries: Seq<(Seq<char>, Json)>, key: Seq<char>)
    ensures
        lookup(assemble(entries), key) == last_written(entries, key),
    decreases entries.len(),
{
    if entries.len() > 0 {
        let before = entries.drop_last();
        lemma_assemble_lookup(before, key);
        lemma_last_write_wins(assemble(before), entries.last().0, entries.last().1, key);
    }
}

/// Whatever was written, the members that are left have distinct keys, and
/// each of them was written.
pub proof fn lemma_assemble_members(entries: Seq<(Seq<char>, Json)>)
    ensures
        distinct_keys(assemble(entries)),
        forall|i: int|
            0 <= i < assemble(entries).len() ==> entries.contains(#[trigger] assemble(entries)[i]),
    decreases entries.len(),
{
    if entries.len() > 0 {
        let before = entries.drop_last();
        let last = entries.last();
        lemma_assemble_members(before);
        lemma_put_distinct(assemble(before), last.0, last.1);
        lemma_position_first(assemble(before), last.0);
        let after = assemble(entries);
        assert forall|i: int| 0 <= i < after.len() implies entries.contains(
            #[trigger] after[i],
        ) by {
            if after[i] == last {
                assert(entries[entries.len() - 1] == last);
            } else {
                assert(after[i] == assemble(before)[i]);
                let j = choose|j: int| 0 <= j < before.len() && before[j] == assemble(before)[i];
                assert(entries[j] == before[j]);
            }
        }
    }
}

/// Members with distinct keys are what their writes in order leave.
pub proof fn lemma_assemble_distinct(members: Seq<(Seq<char>, Json)>)
    requires
        distinct_keys(members),
    ensures
        assemble(members) == members,
    decreases members.len(),
{
    if members.len() > 0 {
        let before = members.drop_last();
        let last = members.last();
        lemma_assemble_distinct(before);
        assert forall|j: int| 0 <= j < before.len() implies (#[trigger] before[j]).0
            != last.0 by {
            assert(before[j] == members[j]);
            assert(members[members.len() - 1] == last);
        }
        lemma_position(before, last.0, before.len() as int);
        assert(before.push(last) =~= members);
    }
}

/// The character that the text of a canonical value starts with opens a value:
/// it is no blank and closes nothing.
pub proof fn lemma_render_opens(j: Json)
    requires
        canonical(j),
    ensures
        render(j).len() > 0,
        !is_blank(render(j)[0]),
        render(j)[0] != ']',
        render(j)[0] != '}',
{
    match j {
        Json::Number(Numeral::Int(i)) => {
            lemma_render_int(i);
        },
        _ => {},
    }
}

/// The text of a canonical value reads back as that value, whatever input
/// stands behind it that may follow it.
pub proof fn lemma_element_reads_back(j: Json, tail: Seq<char>)
    requires
        canonical(j),
        may_follow(j, tail),
    ensures
        render(j).len() > 0,
        element(render(j)[0], render(j).skip(1) + tail) == Some(closed_by(j, tail)),
    decreases j,
{
    let text = render(j);
    let s = text.skip(1) + tail;
    match j {
        Json::String(t) => {
            assert(s =~= t + seq!['"'] + tail);
            lemma_string_reads_back(t, tail);
        },
        Json::Number(Numeral::Int(i)) => {
            lemma_render_int(i);
            lemma_number_reads_back(text, tail, Numeral::Int(i));
        },
        Json::Number(Numeral::Float(token)) => {
            lemma_number_reads_back(token, tail, Numeral::Float(token));
        },
        Json::Boolean(b) => {
            if b {
                let word = seq!['r', 'u', 'e'];
                assert(s.take(3) =~= word);
                assert(s.skip(3) =~= tail);
            } else {
                let word = seq!['a', 'l', 's', 'e'];
                assert(s.take(4) =~= word);
                assert(s.skip(4) =~= tail);
            }
        },
        Json::Null => {
            let word = seq!['u', 'l', 'l'];
            assert(s.take(3) =~= word);
            assert(s.skip(3) =~= tail);
        },
        Json::Array(items) => {
            assert(s =~= render_items(items) + seq![']'] + tail);
            lemma_items_read_back(items, tail);
        },
        Json::Object(members) => {
            assert(s =~= render_members(members) + seq!['}'] + tail);
            lemma_members_read_back(members, tail);
            lemma_assemble_distinct(members);
        },
    }
}

/// The texts of canonical items, closed by a bracket, read back as the items.
pub proof fn lemma_items_read_back(items: Seq<Json>, tail: Seq<char>)
    requires
        forall|i: int| 0 <= i < items.len() ==> canonical(#[trigger] items[i]),
    ensures
        array_items(render_items(items) + seq![']'] + tail) == Some((items, tail)),
    decreases items,
{
    let s = render_items(items) + seq![']'] + tail;
    if items.len() == 0 {
        assert(s.skip(1) =~= tail);
        assert(items =~= Seq::<Json>::empty());
    } else {
        let first = items[0];
        let more = items.skip(1);
        let behind_first = if items.len() == 1 {
            seq![']'] + tail
        } else {
            seq![','] + (render_items(more) + seq![']'] + tail)
        };
        lemma_render_opens(first);
        assert(s =~= render(first) + behind_first);
        assert(s.skip(1) =~= render(first).skip(1) + behind_first);
        lemma_trim_significant(behind_first);
        lemma_element_reads_back(first, behind_first);
        if items.len() == 1 {
            assert(behind_first.skip(1) =~= tail);
            assert(seq![first] =~= items);
        } else {
            assert(behind_first.skip(1) =~= render_items(more) + seq![']'] + tail);
            assert forall|i: int| 0 <= i < more.len() implies canonical(#[trigger] more[i]) by {
                assert(more[i] == items[i + 1]);
            }
            lemma_items_read_back(more, tail);
            assert(seq![first] + more =~= items);
        }
    }
}

/// An escaped key between quotes, with a colon behind it, reads back as that
/// key.
pub proof fn lemma_key_reads_back(key: Seq<char>, after: Seq<char>)
    requires
        is_escaped(key),
    ensures
        object_key(quoted(key) + seq![':'] + after) == Some((key, after)),
{
    let s = quoted(key) + seq![':'] + after;
    let behind_key = seq![':'] + after;
    assert(s[0] == '"');
    lemma_trim_significant(s);
    assert(s.skip(1) =~= key + seq!['"'] + behind_key);
    lemma_string_reads_back(key, behind_key);
    lemma_trim_significant(behind_key);
    assert(behind_key.skip(1) =~= after);
}

/// The text of a member with what stands behind it: the text of the members
/// from it on, closed by a brace.
pub proof fn lemma_render_members_split(members: Seq<(Seq<char>, Json)>, tail: Seq<char>)
    requires
        members.len() > 0,
    ensures
        render_members(members) + seq!['}'] + tail == quoted(members[0].0) + seq![':'] + (render(
            members[0].1,
        ) + behind_member(members, tail)),
{
    let head = render_member(members[0]);
    assert(head == quoted(members[0].0) + seq![':'] + render(members[0].1));
    let s = render_members(members) + seq!['}'] + tail;
    if members.len() == 1 {
        assert(render_members(members) == head);
    } else {
        assert(render_members(members) == head + seq![','] + render_members(members.skip(1)));
    }
    assert(s =~= head + behind_member(members, tail));
    assert(head + behind_member(members, tail) =~= quoted(members[0].0) + seq![':'] + (render(
        members[0].1,
    ) + behind_member(members, tail)));
}

/// What stands behind the first member: the brace, or a comma and the other
/// members.
pub open spec fn behind_member(members: Seq<(Seq<char>, Json)>, tail: Seq<char>) -> Seq<char> {
    if members.len() == 1 {
        seq!['}'] + tail
    } else {
        seq![','] + (render_members(members.skip(1)) + seq!['}'] + tail)
    }
}

/// The texts of canonical members, closed by a brace, read back as the
/// members.
pub proof fn lemma_members_read_back(members: Seq<(Seq<char>, Json)>, tail: Seq<char>)
    requires
        forall|i: int|
            0 <= i < members.len() ==> is_escaped((#[trigger] members[i]).0) && canonical(
                members[i].1,
            ),
    ensures
        object_entries(render_members(members) + seq!['}'] + tail) == Some((members, tail)),
    decreases members,
{
    let s = render_members(members) + seq!['}'] + tail;
    if members.len() == 0 {
        assert(s.skip(1) =~= tail);
        assert(members =~= Seq::<(Seq<char>, Json)>::empty());
    } else {
        let key = members[0].0;
        let value = members[0].1;
        let more = members.skip(1);
        let behind_first = behind_member(members, tail);
        let after = render(value) + behind_first;
        lemma_render_opens(value);
        lemma_render_members_split(members, tail);
        lemma_key_reads_back(key, after);
        assert(s[0] == '"');
        assert(object_key(s) == Some((key, after)));
        assert(after[0] == render(value)[0]);
        lemma_trim_significant(after);
        assert(after.skip(1) =~= render(value).skip(1) + behind_first);
        lemma_trim_significant(behind_first);
        lemma_element_reads_back(value, behind_first);
        let item = closed_by(value, behind_first);
        assert(element(after[0], after.skip(1)) == Some(item));
        assert(0 < after.len() < s.len());
        if members.len() == 1 {
            assert(behind_first.skip(1) =~= tail);
            assert(seq![(key, value)] =~= members);
            assert(item.delimiter == Some('}'));
        } else {
            assert(behind_first.skip(1) =~= render_members(more) + seq!['}'] + tail);
            assert forall|i: int| 0 <= i < more.len() implies is_escaped(
                (#[trigger] more[i]).0,
            ) && canonical(more[i].1) by {
                assert(more[i] == members[i + 1]);
            }
            lemma_members_read_back(more, tail);
            assert(seq![(key, value)] + more =~= members);
            assert(item.delimiter == Some(','));
            assert(item.rest.len() < s.len());
        }
    }
}

/// Reading the text of a canonical array or object gives that value back.
pub proof fn lemma_render_then_parse(j: Json)
    requires
        canonical(j),
        j is Array || j is Object,
    ensures
        document(render(j)) == Some(j),
{
    let text = render(j);
    lemma_element_reads_back(j, Seq::empty());
    assert(text.skip(1) + Seq::<char>::empty() =~= text.skip(1));
    lemma_trim_significant(text);
}

/// The characters that a token runs over end no token.
pub proof fn lemma_token_chars(s: Seq<char>)
    ensures
        token_length(s) <= s.len(),
        forall|i: int| 0 <= i < token_length(s) ==> !ends_token(#[trigger] s[i]),
    decreases s.len(),
{
    if s.len() > 0 && !ends_token(s[0]) {
        lemma_token_chars(s.skip(1));
        assert forall|i: int| 0 <= i < token_length(s) implies !ends_token(#[trigger] s[i]) by {
            if i > 0 {
                assert(s[i] == s.skip(1)[i - 1]);
            }
        }
    }
}

/// What is left behind a delimiter is no longer than what the delimiter was
/// looked for in.
pub proof fn lemma_behind_shrinks(s: Seq<char>)
    ensures
        behind(s).len() <= s.len(),
        significant(s) is Some ==> behind(s).len() < s.len(),
{
    lemma_trim_shrinks(s);
}

/// A value that is read is canonical, and reading it adds nothing to the
/// input.
pub proof fn lemma_element_canonical(c: char, s: Seq<char>)
    ensures
        match element(c, s) {
            Some(item) => canonical(item.value) && item.rest.len() <= s.len(),
            None => true,
        },
    decreases s.len(), 2int,
{
    if c == '"' {
        lemma_string_body_escaped(s);
        match string_body(s) {
            Some((text, rest)) => {
                lemma_behind_shrinks(rest);
            },
            None => {},
        }
    } else if is_digit(c) || is_sign(c) {
        lemma_token_chars(s);
        let n = token_length(s) as int;
        let token = seq![c] + s.take(n);
        lemma_behind_shrinks(s.skip(n));
        assert forall|i: int| 0 <= i < token.len() implies !ends_token(#[trigger] token[i]) by {
            if i > 0 {
                assert(token[i] == s[i - 1]);
            }
        }
    } else if c == 't' {
        lemma_behind_shrinks(s.skip(3));
    } else if c == 'f' {
        lemma_behind_shrinks(s.skip(4));
    } else if c == 'n' {
        lemma_behind_shrinks(s.skip(3));
    } else if c == '[' {
        lemma_array_items_canonical(s);
        match array_items(s) {
            Some((items, rest)) => {
                lemma_behind_shrinks(rest);
            },
            None => {},
        }
    } else if c == '{' {
        lemma_object_entries_canonical(s);
        match object_entries(s) {
            Some((entries, rest)) => {
                lemma_behind_shrinks(rest);
                lemma_assemble_members(entries);
                let members = assemble(entries);
                assert forall|i: int| 0 <= i < members.len() implies is_escaped(
                    (#[trigger] members[i]).0,
                ) && canonical(members[i].1) by {
                    let j = choose|j: int| 0 <= j < entries.len() && entries[j] == members[i];
                    assert(is_escaped(entries[j].0));
                }
            },
            None => {},
        }
    }
}

/// The items that are read are canonical, and the input behind the array is
/// shorter than the input it was read from.
pub proof fn lemma_array_items_canonical(s: Seq<char>)
    ensures
        match array_items(s) {
            Some((items, rest)) => rest.len() < s.len() && forall|i: int|
                0 <= i < items.len() ==> canonical(#[trigger] items[i]),
            None => true,
        },
    decreases s.len(), 0int,
{
    if s.len() == 0 {
    } else if is_blank(s[0]) {
        lemma_array_items_canonical(s.skip(1));
    } else if s[0] == ']' {
    } else {
        lemma_element_canonical(s[0], s.skip(1));
        match element(s[0], s.skip(1)) {
            Some(item) => {
                if item.delimiter == Some(']') {
                } else if item.delimiter == Some(',') {
                    lemma_array_items_canonical(item.rest);
                    match array_items(item.rest) {
                        Some((items, rest)) => {
                            let all = seq![item.value] + items;
                            assert forall|i: int| 0 <= i < all.len() implies canonical(
                                #[trigger] all[i],
                            ) by {
                                if i > 0 {
                                    assert(all[i] == items[i - 1]);
                                }
                            }
                        },
                        None => {},
                    }
                }
            },
            None => {},
        }
    }
}

/// The key that is read is escaped, and the input behind its colon is shorter
/// than the input it was read from.
pub proof fn lemma_object_key_escaped(s: Seq<char>)
    ensures
        match object_key(s) {
            Some((key, rest)) => is_escaped(key) && rest.len() < s.len(),
            None => true,
        },
{
    lemma_behind_shrinks(s);
    lemma_string_body_escaped(behind(s));
    match string_body(behind(s)) {
        Some((key, rest)) => {
            lemma_behind_shrinks(rest);
        },
        None => {},
    }
}

/// The members that are read have escaped keys and canonical values, and the
/// input behind the object is shorter than the input it was read from.
pub proof fn lemma_object_entries_canonical(s: Seq<char>)
    ensures
        match object_entries(s) {
            Some((entries, rest)) => rest.len() < s.len() && forall|i: int|
                0 <= i < entries.len() ==> is_escaped((#[trigger] entries[i]).0) && canonical(
                    entries[i].1,
                ),
            None => true,
        },
    decreases s.len(), 0int,
{
    if s.len() == 0 {
    } else if is_blank(s[0]) {
        lemma_object_entries_canonical(s.skip(1));
    } else if s[0] == '}' {
    } else {
        lemma_object_key_escaped(s);
        match object_key(s) {
            Some((key, after)) => {
                let t = trim(after);
                lemma_trim_shrinks(after);
                if 0 < t.len() < s.len() {
                    lemma_element_canonical(t[0], t.skip(1));
                    match element(t[0], t.skip(1)) {
                        Some(item) => {
                            if item.delimiter == Some('}') {
                            } else if item.delimiter == Some(',') {
                                lemma_object_entries_canonical(item.rest);
                                match object_entries(item.rest) {
                                    Some((entries, rest)) => {
                                        let all = seq![(key, item.value)] + entries;
                                        assert forall|i: int| 0 <= i < all.len() implies is_escaped(
                                            (#[trigger] all[i]).0,
                                        ) && canonical(all[i].1) by {
                                            if i > 0 {
                                                assert(all[i] == entries[i - 1]);
                                            }
                                        }
                                    },
                                    None => {},
                                }
                            }
                        },
                        None => {},
                    }
                }
            },
            None => {},
        }
    }
}

/// What is left of what is left is left.
pub proof fn lemma_rest_of_rest(a: Seq<char>, b: Seq<char>, c: Seq<char>)
    requires
        is_rest_of(a, b),
        is_rest_of(b, c),
    ensures
        is_rest_of(a, c),
{
    assert(a =~= c.skip(c.len() - a.len()));
}

/// Skipping characters leaves a rest.
pub proof fn lemma_skip_rest(s: Seq<char>, k: int)
    requires
        0 <= k <= s.len(),
    ensures
        is_rest_of(s.skip(k), s),
{
}

/// Trimming leaves a rest, and so does taking the delimiter.
pub proof fn lemma_behind_rest(s: Seq<char>)
    ensures
        is_rest_of(trim(s), s),
        is_rest_of(behind(s), s),
    decreases s.len(),
{
    if s.len() > 0 && is_blank(s[0]) {
        lemma_behind_rest(s.skip(1));
        lemma_skip_rest(s, 1);
        lemma_rest_of_rest(trim(s), s.skip(1), s);
        lemma_rest_of_rest(behind(s), s.skip(1), s);
    } else {
        assert(s.skip(0) =~= s);
    }
}

/// The cursor only moves forward: what a value leaves behind is a rest of the
/// input it was read from.
pub proof fn lemma_element_rest(c: char, s: Seq<char>)
    ensures
        match element(c, s) {
            Some(item) => is_rest_of(item.rest, s),
            None => true,
        },
    decreases s.len(), 2int,
{
    if c == '"' {
        lemma_string_body_escaped(s);
        match string_body(s) {
            Some((text, rest)) => {
                assert(rest =~= s.skip(s.len() - rest.len()));
                lemma_behind_rest(rest);
                lemma_rest_of_rest(behind(rest), rest, s);
            },
            None => {},
        }
    } else if is_digit(c) || is_sign(c) {
        lemma_token_chars(s);
        let n = token_length(s) as int;
        lemma_behind_rest(s.skip(n));
        lemma_rest_of_rest(behind(s.skip(n)), s.skip(n), s);
    } else if c == 't' || c == 'n' {
        if s.len() >= 3 {
            lemma_behind_rest(s.skip(3));
            lemma_rest_of_rest(behind(s.skip(3)), s.skip(3), s);
        }
    } else if c == 'f' {
        if s.len() >= 4 {
            lemma_behind_rest(s.skip(4));
            lemma_rest_of_rest(behind(s.skip(4)), s.skip(4), s);
        }
    } else if c == '[' {
        lemma_array_items_rest(s);
        match array_items(s) {
            Some((items, rest)) => {
                lemma_behind_rest(rest);
                lemma_rest_of_rest(behind(rest), rest, s);
            },
            None => {},
        }
    } else if c == '{' {
        lemma_object_entries_rest(s);
        match object_entries(s) {
            Some((entries, rest)) => {
                lemma_behind_rest(rest);
                lemma_rest_of_rest(behind(rest), rest, s);
            },
            None => {},
        }
    }
}

/// What the items of an array leave behind is a rest of the input.
pub proof fn lemma_array_items_rest(s: Seq<char>)
    ensures
        match array_items(s) {
            Some((items, rest)) => is_rest_of(rest, s),
            None => true,
        },
    decreases s.len(), 0int,
{
    if s.len() == 0 {
    } else if is_blank(s[0]) {
        lemma_array_items_rest(s.skip(1));
        match array_items(s.skip(1)) {
            Some((items, rest)) => {
                lemma_rest_of_rest(rest, s.skip(1), s);
            },
            None => {},
        }
    } else if s[0] == ']' {
    } else {
        lemma_element_rest(s[0], s.skip(1));
        match element(s[0], s.skip(1)) {
            Some(item) => {
                lemma_rest_of_rest(item.rest, s.skip(1), s);
                if item.delimiter == Some(']') {
                } else if item.delimiter == Some(',') {
                    lemma_array_items_rest(item.rest);
                    match array_items(item.rest) {
                        Some((items, rest)) => {
                            lemma_rest_of_rest(rest, item.rest, s);
                        },
                        None => {},
                    }
                }
            },
            None => {},
        }
    }
}

/// What a key and its colon leave behind is a rest of the input.
pub proof fn lemma_object_key_rest(s: Seq<char>)
    ensures
        match object_key(s) {
            Some((key, rest)) => is_rest_of(rest, s),
            None => true,
        },
{
    lemma_behind_rest(s);
    lemma_string_body_escaped(behind(s));
    match string_body(behind(s)) {
        Some((key, rest)) => {
            assert(rest =~= behind(s).skip(behind(s).len() - rest.len()));
            lemma_behind_rest(rest);
            lemma_rest_of_rest(behind(rest), rest, behind(s));
            lemma_rest_of_rest(behind(rest), behind(s), s);
        },
        None => {},
    }
}

/// What the members of an object leave behind is a rest of the input.
pub proof fn lemma_object_entries_rest(s: Seq<char>)
    ensures
        match object_entries(s) {
            Some((entries, rest)) => is_rest_of(rest, s),
            None => true,
        },
    decreases s.len(), 0int,
{
    if s.len() == 0 {
    } else if is_blank(s[0]) {
        lemma_object_entries_rest(s.skip(1));
        match object_entries(s.skip(1)) {
            Some((entries, rest)) => {
                lemma_rest_of_rest(rest, s.skip(1), s);
            },
            None => {},
        }
    } else if s[0] == '}' {
    } else {
        lemma_object_key_rest(s);
        match object_key(s) {
            Some((key, after)) => {
                let t = trim(after);
                lemma_behind_rest(after);
                lemma_rest_of_rest(t, after, s);
                if 0 < t.len() < s.len() {
                    lemma_element_rest(t[0], t.skip(1));
                    match element(t[0], t.skip(1)) {
                        Some(item) => {
                            lemma_rest_of_rest(item.rest, t.skip(1), t);
                            lemma_rest_of_rest(item.rest, t, s);
                            if item.delimiter == Some('}') {
                            } else if item.delimiter == Some(',') && item.rest.len() < s.len() {
                                lemma_object_entries_rest(item.rest);
                                match object_entries(item.rest) {
                                    Some((entries, rest)) => {
                                        lemma_rest_of_rest(rest, item.rest, s);
                                    },
                                    None => {},
                                }
                            }
                        },
                        None => {},
                    }
                }
            },
            None => {},
        }
    }
}

/// Behind an item and its comma the array goes on with the items that follow:
/// the input left behind an item is always shorter than the input the item
/// was read from.
pub proof fn lemma_array_goes_on(s: Seq<char>, item: Parsed)
    requires
        s.len() > 0,
        !is_blank(s[0]),
        s[0] != ']',
        element(s[0], s.skip(1)) == Some(item),
        item.delimiter == Some(','),
    ensures
        array_items(s) == match array_items(item.rest) {
            Some((items, rest)) => Some((seq![item.value] + items, rest)),
            None => None,
        },
{
    lemma_element_canonical(s[0], s.skip(1));
}

/// Behind a key the object goes on with the value, and behind a member and its
/// comma with the members that follow: the input left behind a key or a value
/// is always shorter than the input it was read from.
pub proof fn lemma_object_goes_on(s: Seq<char>, key: Seq<char>, after: Seq<char>)
    requires
        s.len() > 0,
        !is_blank(s[0]),
        s[0] != '}',
        object_key(s) == Some((key, after)),
        trim(after).len() > 0,
    ensures
        object_entries(s) == match element(trim(after)[0], trim(after).skip(1)) {
            Some(item) => if item.delimiter == Some('}') {
                Some((seq![(key, item.value)], item.rest))
            } else if item.delimiter == Some(',') {
                match object_entries(item.rest) {
                    Some((entries, rest)) => Some((seq![(key, item.value)] + entries, rest)),
                    None => None,
                }
            } else {
                None
            },
            None => None,
        },
{
    let t = trim(after);
    lemma_object_key_escaped(s);
    lemma_trim_shrinks(after);
    lemma_element_canonical(t[0], t.skip(1));
}

/// The value of a document is a canonical array or object, and the text of
/// that value reads as the same value again.
pub proof fn lemma_parse_render_parse(text: Seq<char>)
    requires
        document(text) is Some,
    ensures
        canonical(document(text)->0),
        document(text)->0 is Array || document(text)->0 is Object,
        document(render(document(text)->0)) == document(text),
{
    let c = significant(text)->0;
    lemma_element_canonical(c, behind(text));
    lemma_render_then_parse(document(text)->0);
}

} // verus!
