use mahana::parser::{
    parse_array, parse_bool, parse_null, parse_number, parse_object, parse_object_key,
    parse_string,
};
use mahana::util::Cursor;
use mahana::{Number, Value};

fn float_of(value: &Value) -> f64 {
    match value {
        Value::Number(Number::Float(text)) => text.parse::<f64>().unwrap(),
        other => panic!("no float: {:?}", other),
    }
}

#[test]
fn parser_test_parse_number() {
    // a delimiter right behind the token
    let c1 = '1';
    let mut cs1 = Cursor::new(".23,");
    let (v1, d1) = parse_number(c1, &mut cs1).unwrap();
    assert_eq!(float_of(&v1), 1.23);
    assert_eq!(
        (v1, d1),
        (Value::Number(Number::Float("1.23".to_string())), Some(','))
    );
    assert_eq!(cs1.next(), None);

    // blanks between the token and its delimiter
    let c2 = '3';
    let mut cs2 = Cursor::new(".14 ], ");
    let (v2, d2) = parse_number(c2, &mut cs2).unwrap();
    assert_eq!(float_of(&v2), 3.14);
    assert_eq!(
        (v2, d2),
        (Value::Number(Number::Float("3.14".to_string())), Some(']'))
    );
    assert_eq!(cs2.next(), Some(','));

    // a token of one character
    let c3 = '4';
    let mut cs3 = Cursor::new("}  ,");
    assert_eq!(
        parse_number(c3, &mut cs3).unwrap(),
        (Value::Number(Number::Int(4)), Some('}'))
    );
    assert_eq!(cs3.next(), Some(' '));

    // a second token where a delimiter is due
    let c4 = '4';
    let mut cs4 = Cursor::new(" 3,");
    assert!(parse_number(c4, &mut cs4).is_err());
}

#[test]
fn test_parse_string() {
    // a delimiter right behind the closing quote
    let mut cs1 = Cursor::new("hoge\",");
    assert_eq!(
        parse_string(&mut cs1).unwrap(),
        (Value::String("hoge".to_string()), Some(','))
    );

    // blanks inside and behind the string
    let mut cs2 = Cursor::new("   \"    ]");
    assert_eq!(
        parse_string(&mut cs2).unwrap(),
        (Value::String("   ".to_string()), Some(']'))
    );

    // no closing quote
    let mut cs3 = Cursor::new(",");
    assert!(parse_string(&mut cs3).is_err());
}

#[test]
fn test_parse_null() {
    // the word and a delimiter
    let c1 = 'n';
    let mut cs1 = Cursor::new("ull, ");
    assert_eq!(parse_null(c1, &mut cs1).unwrap(), (Value::Null, Some(',')));

    // another word
    let c2 = 'n';
    let mut cs2 = Cursor::new("hoge    ]");
    assert!(parse_null(c2, &mut cs2).is_err());
}

#[test]
fn test_parse_bool() {
    // true
    let c1 = 't';
    let mut cs1 = Cursor::new("rue,");
    assert_eq!(
        parse_bool(c1, &mut cs1).unwrap(),
        (Value::Boolean(true), Some(','))
    );

    // false, with blanks behind it
    let c2 = 'f';
    let mut cs2 = Cursor::new("alse    }");
    assert_eq!(
        parse_bool(c2, &mut cs2).unwrap(),
        (Value::Boolean(false), Some('}'))
    );

    // another word
    let c3 = 't';
    let mut cs3 = Cursor::new("hoge   \"]");
    assert!(parse_bool(c3, &mut cs3).is_err());
}

#[test]
fn test_parse_array() {
    // a comma before the closing bracket
    let mut cs1 = Cursor::new("10, 30,]}");
    assert_eq!(
        parse_array(&mut cs1).unwrap(),
        (
            Value::Array(vec![
                Value::Number(Number::Int(10)),
                Value::Number(Number::Int(30))
            ]),
            Some('}')
        )
    );

    // items of several kinds, and blanks
    let mut cs2 = Cursor::new("null, false, \"hello\"     ,      ]        ,");
    assert_eq!(
        parse_array(&mut cs2).unwrap(),
        (
            Value::Array(vec![
                Value::Null,
                Value::Boolean(false),
                Value::String("hello".to_string())
            ]),
            Some(',')
        )
    );

    // no items
    let mut cs3 = Cursor::new("]]");
    assert_eq!(
        parse_array(&mut cs3).unwrap(),
        (Value::Array(vec![]), Some(']'))
    );

    // an empty object as the only item
    let mut cs4 = Cursor::new("{}]  ,");
    assert!(parse_array(&mut cs4).is_ok());

    // an object as an item
    let mut cs5 = Cursor::new("{\"hello\": 10}, ] , ");
    assert!(parse_array(&mut cs5).is_ok());
}

#[test]
fn test_parse_object() {
    // the input ends behind the closing brace
    let mut cs1 = Cursor::new("}");
    assert_eq!(parse_object(&mut cs1).unwrap().1, None);

    // blanks around the closing brace
    let mut cs2 = Cursor::new("   }   , ");
    assert_eq!(parse_object(&mut cs2).unwrap().1, Some(','));

    // one member
    let mut cs3 = Cursor::new("\"hello\": 10}, ] , ");
    assert_eq!(parse_object(&mut cs3).unwrap().1, Some(','));
}

#[test]
fn empty_object_body_ends_the_input() {
    let mut cs = Cursor::new("}");
    assert_eq!(
        parse_object(&mut cs).unwrap(),
        (Value::Object(vec![]), None)
    );
}

#[test]
fn object_body_yields_its_members() {
    let mut cs = Cursor::new("\"hello\": 10}, ");
    assert_eq!(
        parse_object(&mut cs).unwrap(),
        (
            Value::Object(vec![("hello".to_string(), Value::Number(Number::Int(10)))]),
            Some(',')
        )
    );
    assert_eq!(cs.next(), Some(' '));
}

#[test]
fn repeated_key_keeps_its_place_and_takes_the_last_value() {
    let mut cs = Cursor::new("\"a\": 1, \"b\": 2, \"a\": 3}");
    assert_eq!(
        parse_object(&mut cs).unwrap(),
        (
            Value::Object(vec![
                ("a".to_string(), Value::Number(Number::Int(3))),
                ("b".to_string(), Value::Number(Number::Int(2))),
            ]),
            None
        )
    );
}

#[test]
fn object_rejects_what_is_no_member() {
    for text in [
        "",
        "   ",
        "\"a\" 1}",
        "\"a\": }",
        "\"a\": 1 \"b\": 2}",
        "\"a\": 1]",
        "\"a\": 1",
        "a: 1}",
        "\"a\": x}",
        "\"age\": 3,8}",
    ] {
        let mut cs = Cursor::new(text);
        assert_eq!(
            parse_object(&mut cs),
            Err("Parse Error".to_string()),
            "{:?}",
            text
        );
    }
}

#[test]
fn array_rejects_what_is_no_item() {
    for text in ["", "  ", "1", "1 2]", "1}", "x]", "1,", "tru]", "nul]", "\"a]"] {
        let mut cs = Cursor::new(text);
        assert_eq!(
            parse_array(&mut cs),
            Err("Parse Error".to_string()),
            "{:?}",
            text
        );
    }
}

#[test]
fn array_at_the_end_of_the_input_reports_no_delimiter() {
    let mut cs = Cursor::new("[1], [ ] ]");
    assert_eq!(
        parse_array(&mut cs).unwrap(),
        (
            Value::Array(vec![
                Value::Array(vec![Value::Number(Number::Int(1))]),
                Value::Array(vec![]),
            ]),
            None
        )
    );
}

#[test]
fn nested_values_hand_their_delimiters_up() {
    let mut cs = Cursor::new("{\"k\": [true, {\"n\": null}]}, -7 ]x");
    assert_eq!(
        parse_array(&mut cs).unwrap(),
        (
            Value::Array(vec![
                Value::Object(vec![(
                    "k".to_string(),
                    Value::Array(vec![
                        Value::Boolean(true),
                        Value::Object(vec![("n".to_string(), Value::Null)]),
                    ])
                )]),
                Value::Number(Number::Int(-7)),
            ]),
            Some('x')
        )
    );
    assert_eq!(cs.next(), None);
}

#[test]
fn string_keeps_escapes_as_they_are() {
    let mut cs = Cursor::new("a\\\"b\\n\\\\\" :");
    assert_eq!(
        parse_string(&mut cs).unwrap(),
        (Value::String("a\\\"b\\n\\\\".to_string()), Some(':'))
    );
    let mut open = Cursor::new("abc\\\"");
    assert!(parse_string(&mut open).is_err());
    let mut cut = Cursor::new("abc\\");
    assert!(parse_string(&mut cut).is_err());
}

#[test]
fn string_and_number_may_end_the_input() {
    let mut cs = Cursor::new("hoge\"  ");
    assert_eq!(
        parse_string(&mut cs).unwrap(),
        (Value::String("hoge".to_string()), None)
    );
    let mut cs = Cursor::new("2 \n");
    assert_eq!(
        parse_number('4', &mut cs).unwrap(),
        (Value::Number(Number::Int(42)), None)
    );
}

#[test]
fn literals_need_a_character_behind_them() {
    let mut cs = Cursor::new("rue");
    assert!(parse_bool('t', &mut cs).is_err());
    let mut cs = Cursor::new("alse  ");
    assert!(parse_bool('f', &mut cs).is_err());
    let mut cs = Cursor::new("ull");
    assert!(parse_null('n', &mut cs).is_err());
    let mut cs = Cursor::new("ull:");
    assert_eq!(parse_null('n', &mut cs).unwrap(), (Value::Null, Some(':')));
}

#[test]
fn literals_are_spelled_exactly() {
    let mut cs = Cursor::new("RUE,");
    assert!(parse_bool('t', &mut cs).is_err());
    let mut cs = Cursor::new("alse,");
    assert!(parse_bool('t', &mut cs).is_err());
    let mut cs = Cursor::new("rue,");
    assert!(parse_bool('f', &mut cs).is_err());
    let mut cs = Cursor::new("rue,");
    assert!(parse_bool('x', &mut cs).is_err());
    let mut cs = Cursor::new("ull,");
    assert!(parse_null('x', &mut cs).is_err());
    let mut cs = Cursor::new("false }");
    cs.next();
    assert_eq!(
        parse_bool('f', &mut cs).unwrap(),
        (Value::Boolean(false), Some('}'))
    );
}

#[test]
fn number_token_ends_at_delimiter_or_blank() {
    let mut cs = Cursor::new("2\n]");
    assert_eq!(
        parse_number('1', &mut cs).unwrap(),
        (Value::Number(Number::Int(12)), Some(']'))
    );
    let mut cs = Cursor::new("2:");
    assert!(parse_number('1', &mut cs).is_err());
    let mut cs = Cursor::new(" :");
    assert!(parse_number('1', &mut cs).is_err());
    let mut cs = Cursor::new("999999999,");
    let (big, d) = parse_number('9', &mut cs).unwrap();
    assert_eq!(float_of(&big), 9999999999.0);
    assert_eq!(d, Some(','));
    let mut cs = Cursor::new("inf}");
    assert_eq!(
        parse_number('-', &mut cs).unwrap(),
        (Value::Number(Number::Float("-inf".to_string())), Some('}'))
    );
}

#[test]
fn object_key_is_a_string_and_a_colon() {
    let mut cs = Cursor::new("  \"key\"  : 1");
    assert_eq!(parse_object_key(&mut cs), Some("key".to_string()));
    assert_eq!(cs.next(), Some(' '));
    let mut cs = Cursor::new("\"key\", 1");
    assert_eq!(parse_object_key(&mut cs), None);
    let mut cs = Cursor::new("key: 1");
    assert_eq!(parse_object_key(&mut cs), None);
    let mut cs = Cursor::new("\"key\"");
    assert_eq!(parse_object_key(&mut cs), None);
    let mut cs = Cursor::new("");
    assert_eq!(parse_object_key(&mut cs), None);
}
