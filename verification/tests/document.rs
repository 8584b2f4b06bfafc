use mahana::{parse, Number, Value};

#[test]
fn test_parse() {
    let seq = "[\n  {\"title\": \"first\", \"tags\": [\"a\", \"b\"], \"rank\": 1},\n  {\"title\": \"second\", \"tags\": [], \"rank\": 2.5}\n]\n"
        .to_string();
    let result = parse(seq);
    assert!(result.is_some());
    if let Value::Array(x) = result.unwrap() {
        println!("{:?}", x[0]);
        assert_eq!(x.len(), 2);
    } else {
        panic!("no array");
    }
}

#[test]
fn parse_dispatches_on_the_first_significant_character() {
    assert_eq!(parse("{}".to_string()), Some(Value::Object(vec![])));
    assert_eq!(parse("  \n []".to_string()), Some(Value::Array(vec![])));
    assert_eq!(
        parse("[1, 2]".to_string()),
        Some(Value::Array(vec![
            Value::Number(Number::Int(1)),
            Value::Number(Number::Int(2)),
        ]))
    );
    assert_eq!(parse("".to_string()), None);
    assert_eq!(parse("   ".to_string()), None);
    assert_eq!(parse("1".to_string()), None);
    assert_eq!(parse("\"a\"".to_string()), None);
    assert_eq!(parse("true".to_string()), None);
    assert_eq!(parse("]".to_string()), None);
}

#[test]
fn malformed_object_is_no_partial_object() {
    assert_eq!(parse("{\"age\": 3,8}".to_string()), None);
}

#[test]
fn what_follows_the_document_is_not_looked_at() {
    assert_eq!(
        parse("{\"a\": null} trailing".to_string()),
        Some(Value::Object(vec![("a".to_string(), Value::Null)]))
    );
}

#[test]
fn trailing_comma_is_tolerated() {
    assert_eq!(
        parse("[10, 30,]".to_string()),
        Some(Value::Array(vec![
            Value::Number(Number::Int(10)),
            Value::Number(Number::Int(30)),
        ]))
    );
    assert_eq!(
        parse("{\"a\": 1,}".to_string()),
        Some(Value::Object(vec![(
            "a".to_string(),
            Value::Number(Number::Int(1))
        )]))
    );
}

#[test]
fn unclosed_documents_fail() {
    for text in ["[", "{", "[1", "[1,", "{\"a\"", "{\"a\":", "{\"a\":1", "[[1]", "[{]"] {
        assert_eq!(parse(text.to_string()), None, "{:?}", text);
    }
}

#[test]
fn the_text_of_a_parsed_value_reads_as_the_same_value() {
    let loose = " { \"name\" : \"Tanaka\" ,\n \"age\": 26.3, \"n\": +7, \"low\": -007,\n \"tags\": [ \"a\\\"b\" , null , true, [], {},], \"name\": \"Sato\" } ";
    let tight = "{\"name\":\"Sato\",\"age\":26.3,\"n\":7,\"low\":-7,\"tags\":[\"a\\\"b\",null,true,[],{}]}";
    let expected = Value::Object(vec![
        ("name".to_string(), Value::String("Sato".to_string())),
        (
            "age".to_string(),
            Value::Number(Number::Float("26.3".to_string())),
        ),
        ("n".to_string(), Value::Number(Number::Int(7))),
        ("low".to_string(), Value::Number(Number::Int(-7))),
        (
            "tags".to_string(),
            Value::Array(vec![
                Value::String("a\\\"b".to_string()),
                Value::Null,
                Value::Boolean(true),
                Value::Array(vec![]),
                Value::Object(vec![]),
            ]),
        ),
    ]);
    assert_eq!(parse(loose.to_string()), Some(expected));
    assert_eq!(parse(tight.to_string()), parse(loose.to_string()));

    let list = "[2147483647,-2147483648,1e3,\"\"]";
    assert_eq!(
        parse(list.to_string()),
        Some(Value::Array(vec![
            Value::Number(Number::Int(2147483647)),
            Value::Number(Number::Int(-2147483648)),
            Value::Number(Number::Float("1e3".to_string())),
            Value::String("".to_string()),
        ]))
    );
}

#[test]
fn get_finds_the_value_of_a_key() {
    let object = parse("{\"a\": 1, \"b\": [true], \"a\": 2, \"\": null}".to_string()).unwrap();
    assert_eq!(object.get("a"), Some(&Value::Number(Number::Int(2))));
    assert_eq!(
        object.get("b"),
        Some(&Value::Array(vec![Value::Boolean(true)]))
    );
    assert_eq!(object.get(""), Some(&Value::Null));
    assert_eq!(object.get("c"), None);
    assert_eq!(object.get("A"), None);
    let list = parse("[{\"a\": 1}]".to_string()).unwrap();
    assert_eq!(list.get("a"), None);
    assert_eq!(Value::Null.get("a"), None);
    assert_eq!(Value::Object(vec![]).get("a"), None);
}

#[test]
fn parsed_floats_denote_their_numbers() {
    let value = parse("[26.3, -1.5e2, 4]".to_string()).unwrap();
    let numbers: Vec<f64> = match value {
        Value::Array(items) => items
            .iter()
            .map(|item| match item {
                Value::Number(Number::Float(token)) => token.parse::<f64>().unwrap(),
                Value::Number(Number::Int(i)) => f64::from(*i),
                other => panic!("no number: {:?}", other),
            })
            .collect(),
        other => panic!("no array: {:?}", other),
    };
    assert_eq!(numbers, vec![26.3, -150.0, 4.0]);
}
