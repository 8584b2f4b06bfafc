//! The syntax of number tokens.
//!
//! A token is an integer when it is an optional sign followed by decimal
//! digits whose value fits 32 bits. Otherwise it is a float when it has the
//! syntax of a decimal floating-point literal, or names an infinity or a
//! not-a-number, in any letter case.
use crate::model::Numeral;
use vstd::prelude::*;

verus! {

pub open spec fn is_digit(c: char) -> bool {
    '0' <= c <= '9'
}

pub open spec fn is_sign(c: char) -> bool {
    c == '+' || c == '-'
}

/// The value of a decimal digit.
pub open spec fn digit_value(c: char) -> int {
    c as int - '0' as int
}

pub open spec fn all_digits(s: Seq<char>) -> bool {
    forall|i: int| 0 <= i < s.len() ==> is_digit(#[trigger] s[i])
}

/// The number that a sequence of decimal digits denotes.
pub open spec fn decimal(s: Seq<char>) -> nat
    decreases s.len(),
{
    if s.len() == 0 {
        0
    } else {
        (10 * decimal(s.drop_last()) + digit_value(s.last())) as nat
    }
}

/// The token without its sign, if it has one.
pub open spec fn unsigned_part(s: Seq<char>) -> Seq<char> {
    if s.len() > 0 && is_sign(s[0]) {
        s.skip(1)
    } else {
        s
    }
}

/// The integer that a token denotes, of any size.
pub open spec fn int_reading(s: Seq<char>) -> Option<int> {
    let d = unsigned_part(s);
    if d.len() > 0 && all_digits(d) {
        Some(
            if s[0] == '-' {
                -(decimal(d) as int)
            } else {
                decimal(d) as int
            },
        )
    } else {
        None
    }
}

/// The 32-bit integer that a token denotes.
pub open spec fn int_token(s: Seq<char>) -> Option<i32> {
    match int_reading(s) {
        Some(n) => if i32::MIN <= n <= i32::MAX {
            Some(n as i32)
        } else {
            None
        },
        None => None,
    }
}

/// The number of digits that a sequence starts with.
pub open spec fn digit_run(s: Seq<char>) -> nat
    decreases s.len(),
{
    if s.len() > 0 && is_digit(s[0]) {
        1 + digit_run(s.skip(1))
    } else {
        0
    }
}

/// Whether `s` spells a word, each letter in either case.
pub open spec fn spells(s: Seq<char>, lower: Seq<char>, upper: Seq<char>) -> bool {
    &&& s.len() == lower.len()
    &&& forall|i: int| 0 <= i < s.len() ==> (#[trigger] s[i] == lower[i] || s[i] == upper[i])
}

/// The names of the values that are no decimal numbers.
pub open spec fn is_special(s: Seq<char>) -> bool {
    ||| spells(s, seq!['i', 'n', 'f'], seq!['I', 'N', 'F'])
    ||| spells(s, seq!['n', 'a', 'n'], seq!['N', 'A', 'N'])
    ||| spells(
        s,
        seq!['i', 'n', 'f', 'i', 'n', 'i', 't', 'y'],
        seq!['I', 'N', 'F', 'I', 'N', 'I', 'T', 'Y'],
    )
}

/// An exponent: `e` or `E`, an optional sign, and at least one digit.
pub open spec fn is_exponent(s: Seq<char>) -> bool {
    &&& s.len() > 0
    &&& (s[0] == 'e' || s[0] == 'E')
    &&& unsigned_part(s.skip(1)).len() > 0
    &&& all_digits(unsigned_part(s.skip(1)))
}

/// What may follow the digits of a decimal: nothing, or an exponent.
pub open spec fn is_decimal_end(s: Seq<char>) -> bool {
    s.len() == 0 || is_exponent(s)
}

/// A decimal: digits with at most one point among them and at least one digit
/// on one side of it, then an optional exponent.
pub open spec fn is_decimal(s: Seq<char>) -> bool {
    let a: nat = digit_run(s);
    let t = s.skip(a as int);
    if t.len() > 0 && t[0] == '.' {
        let b: nat = digit_run(t.skip(1));
        a + b > 0 && is_decimal_end(t.skip(b as int + 1))
    } else {
        a > 0 && is_decimal_end(t)
    }
}

/// Whether a token has floating-point syntax.
pub open spec fn is_float_token(s: Seq<char>) -> bool {
    is_special(unsigned_part(s)) || is_decimal(unsigned_part(s))
}

/// The number that a token is read as: an integer where it is one, else a
/// float where it has that syntax.
pub open spec fn classify(s: Seq<char>) -> Option<Numeral> {
    match int_token(s) {
        Some(i) => Some(Numeral::Int(i)),
        None => if is_float_token(s) {
            Some(Numeral::Float(s))
        } else {
            None
        },
    }
}

/// The characters of a string, in order.
pub fn chars_of(s: &str) -> (v: Vec<char>)
    ensures
        v@ == s@,
{
    broadcast use vstd::string::group_string_axioms;

    let mut v: Vec<char> = Vec::new();
    for c in it: s.chars()
        invariant
            v@ == s@.take(it.index() as int),
            it.seq() == s@,
    {
        v.push(c);
        assert(s@.take(it.index() + 1) == s@.take(it.index() as int).push(c));
    }
    v
}

/// A digit run that covers a sequence makes it all digits, and conversely.
pub proof fn lemma_digit_run(s: Seq<char>)
    ensures
        digit_run(s) <= s.len(),
        all_digits(s.take(digit_run(s) as int)),
        digit_run(s) < s.len() ==> !is_digit(s[digit_run(s) as int]),
        all_digits(s) <==> digit_run(s) == s.len(),
    decreases s.len(),
{
    if s.len() > 0 && is_digit(s[0]) {
        let t = s.skip(1);
        lemma_digit_run(t);
        let k: int = digit_run(t) as int;
        assert forall|i: int| 0 <= i < k + 1 implies is_digit(#[trigger] s.take(k + 1)[i]) by {
            if i > 0 {
                assert(s.take(k + 1)[i] == t.take(k)[i - 1]);
            }
        }
        if all_digits(s) {
            assert forall|i: int| 0 <= i < t.len() implies is_digit(#[trigger] t[i]) by {
                assert(t[i] == s[i + 1]);
            }
        }
        if digit_run(s) == s.len() {
            assert(s.take(s.len() as int) == s);
        }
    } else {
        if s.len() > 0 {
            assert(!is_digit(s[0]));
        }
    }
}

/// Appending a digit to a run of digits multiplies by ten and adds.
pub proof fn lemma_decimal_push(s: Seq<char>, c: char)
    requires
        is_digit(c),
    ensures
        decimal(s.push(c)) == 10 * decimal(s) + digit_value(c),
{
    assert(s.push(c).drop_last() == s);
}

/// The 32-bit integer that the characters denote, if they denote one.
pub fn read_int(v: &Vec<char>) -> (r: Option<i32>)
    ensures
        r == int_token(v@),
{
    let n: usize = v.len();
    let start: usize = if n > 0 && (v[0] == '+' || v[0] == '-') {
        1
    } else {
        0
    };
    if start == n {
        return None;
    }
    let negative: bool = v[0] == '-';
    let ghost d = unsigned_part(v@);
    let mut acc: i64 = 0;
    let mut huge: bool = false;
    let mut i: usize = start;
    assert(d.take(0) == Seq::<char>::empty());
    while i < n
        invariant
            start <= i <= n,
            n == v@.len(),
            d == v@.skip(start as int),
            d == unsigned_part(v@),
            all_digits(d.take(i - start)),
            0 <= acc <= 0x8000_0000,
            !huge ==> acc == decimal(d.take(i - start)),
            huge ==> decimal(d.take(i - start)) > 0x8000_0000,
        decreases n - i,
    {
        let c: char = v[i];
        let ghost seen = d.take(i - start);
        assert(d[i - start] == c);
        if !(c >= '0' && c <= '9') {
            assert(!is_digit(d[i - start]));
            return None;
        }
        let digit: i64 = (c as u32 - '0' as u32) as i64;
        proof {
            assert(d.take(i + 1 - start) == seen.push(c));
            lemma_decimal_push(seen, c);
            assert forall|j: int| 0 <= j < seen.push(c).len() implies is_digit(
                #[trigger] seen.push(c)[j],
            ) by {
                if j < seen.len() {
                    assert(seen.push(c)[j] == seen[j]);
                }
            }
        }
        if !huge {
            acc = acc * 10 + digit;
            if acc > 0x8000_0000 {
                huge = true;
                acc = 0;
            }
        }
        i = i + 1;
    }
    assert(d.take(n - start) == d);
    if huge {
        None
    } else if negative {
        Some((-acc) as i32)
    } else if acc <= 0x7fff_ffff {
        Some(acc as i32)
    } else {
        None
    }
}

/// The index behind the digits that start at `from`.
fn skip_digits(v: &Vec<char>, from: usize) -> (to: usize)
    requires
        from <= v@.len(),
    ensures
        to == from + digit_run(v@.skip(from as int)),
        to <= v@.len(),
{
    let mut i: usize = from;
    while i < v.len() && v[i] >= '0' && v[i] <= '9'
        invariant
            from <= i <= v@.len(),
            i + digit_run(v@.skip(i as int)) == from + digit_run(v@.skip(from as int)),
        decreases v@.len() - i,
    {
        assert(v@.skip(i as int).skip(1) == v@.skip(i + 1));
        i = i + 1;
    }
    i
}

/// Whether an exponent starts at `from` and runs to the end.
fn is_exponent_at(v: &Vec<char>, from: usize) -> (r: bool)
    requires
        from <= v@.len(),
    ensures
        r == is_exponent(v@.skip(from as int)),
{
    let n: usize = v.len();
    if from >= n {
        return false;
    }
    if v[from] != 'e' && v[from] != 'E' {
        return false;
    }
    let mut j: usize = from + 1;
    let ghost t = v@.skip(from as int).skip(1);
    assert(t == v@.skip(from + 1));
    if j < n && (v[j] == '+' || v[j] == '-') {
        j = j + 1;
        assert(t.skip(1) == v@.skip(j as int));
    }
    assert(unsigned_part(t) == v@.skip(j as int));
    if j == n {
        return false;
    }
    let end: usize = skip_digits(v, j);
    proof {
        lemma_digit_run(v@.skip(j as int));
    }
    end == n
}

/// Whether what starts at `from` is nothing or an exponent.
fn is_decimal_end_at(v: &Vec<char>, from: usize) -> (r: bool)
    requires
        from <= v@.len(),
    ensures
        r == is_decimal_end(v@.skip(from as int)),
{
    from == v.len() || is_exponent_at(v, from)
}

/// Whether a decimal starts at `from` and runs to the end.
fn is_decimal_at(v: &Vec<char>, from: usize) -> (r: bool)
    requires
        from <= v@.len(),
    ensures
        r == is_decimal(v@.skip(from as int)),
{
    let ghost s = v@.skip(from as int);
    let point: usize = skip_digits(v, from);
    assert(s.skip(point - from) == v@.skip(point as int));
    if point < v.len() && v[point] == '.' {
        let end: usize = skip_digits(v, point + 1);
        assert(v@.skip(point as int).skip(1) == v@.skip(point + 1));
        assert(v@.skip(point as int).skip(end - point) == v@.skip(end as int));
        end - from > 1 && is_decimal_end_at(v, end)
    } else {
        point > from && is_decimal_end_at(v, point)
    }
}

/// Whether `c` is one of two characters.
fn either(c: char, lower: char, upper: char) -> (r: bool)
    ensures
        r == (c == lower || c == upper),
{
    c == lower || c == upper
}

/// Whether one of the special names starts at `from` and runs to the end.
fn is_special_at(v: &Vec<char>, from: usize) -> (r: bool)
    requires
        from <= v@.len(),
    ensures
        r == is_special(v@.skip(from as int)),
{
    let ghost s = v@.skip(from as int);
    let n: usize = v.len() - from;
    if n == 3 {
        assert(s[0] == v@[from as int] && s[1] == v@[from + 1] && s[2] == v@[from + 2]);
        let inf: bool = either(v[from], 'i', 'I') && either(v[from + 1], 'n', 'N') && either(
            v[from + 2],
            'f',
            'F',
        );
        let nan: bool = either(v[from], 'n', 'N') && either(v[from + 1], 'a', 'A') && either(
            v[from + 2],
            'n',
            'N',
        );
        inf || nan
    } else if n == 8 {
        assert(s[0] == v@[from as int] && s[1] == v@[from + 1] && s[2] == v@[from + 2] && s[3]
            == v@[from + 3]);
        assert(s[4] == v@[from + 4] && s[5] == v@[from + 5] && s[6] == v@[from + 6] && s[7]
            == v@[from + 7]);
        either(v[from], 'i', 'I') && either(v[from + 1], 'n', 'N') && either(v[from + 2], 'f', 'F')
            && either(v[from + 3], 'i', 'I') && either(v[from + 4], 'n', 'N') && either(
            v[from + 5],
            'i',
            'I',
        ) && either(v[from + 6], 't', 'T') && either(v[from + 7], 'y', 'Y')
    } else {
        false
    }
}

/// Whether the characters have floating-point syntax.
pub fn has_float_syntax(v: &Vec<char>) -> (r: bool)
    ensures
        r == is_float_token(v@),
{
    let from: usize = if v.len() > 0 && (v[0] == '+' || v[0] == '-') {
        1
    } else {
        0
    };
    assert(unsigned_part(v@) == v@.skip(from as int));
    is_special_at(v, from) || is_decimal_at(v, from)
}

} // verus!
