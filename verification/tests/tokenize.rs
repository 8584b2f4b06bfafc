use mahana::tokenize::{is_bool, is_number, tokenize};

#[test]
fn test_is_number() {
    assert!(is_number("3.2".to_string()));
    assert!(is_number("-20".to_string()));
    assert!(!is_number("10.9.8".to_string()));
    assert!(!is_number("hello".to_string()))
}

#[test]
fn test_is_bool() {
    assert!(is_bool("true".to_string()));
    assert!(is_bool("false".to_string()));
    assert!(!is_bool("hello".to_string()));
    assert!(!is_bool("114514".to_string()));
}

fn words(tokens: &[&str]) -> Vec<String> {
    tokens.iter().map(|item| item.to_string()).collect()
}

#[test]
fn tokenize_small_document() {
    let data = "{\n  \"name\": \"Tanaka\",\n  \"age\": 26.3,\n  \"animal\": true,\n  \"color_list\": [\"red\", \"green\", \"blue\"]\n}\n";
    let answer = words(&[
        "{",
        "\"name\"",
        ":",
        "\"Tanaka\"",
        "\"age\"",
        ":",
        "26.3",
        "\"animal\"",
        ":",
        "true",
        "\"color_list\"",
        ":",
        "[",
        "\"red\"",
        "\"green\"",
        "\"blue\"",
        "]",
        "}",
    ]);
    assert_eq!(tokenize(data.to_string()), answer);
}

#[test]
fn tokenize_drops_the_character_behind_a_number() {
    assert_eq!(tokenize("[1]".to_string()), words(&["[", "1"]));
    assert_eq!(tokenize("1 ]".to_string()), words(&["1", "]"]));
    assert_eq!(tokenize("12.5".to_string()), words(&["12.5"]));
    assert_eq!(tokenize("1.2.3:".to_string()), words(&["1.2.3"]));
    assert_eq!(tokenize(".".to_string()), words(&["."]));
}

#[test]
fn tokenize_keywords_only_where_spelled() {
    assert_eq!(
        tokenize("true false null".to_string()),
        words(&["true", "false", "null"])
    );
    assert_eq!(tokenize("trux{".to_string()), words(&["{"]));
    assert_eq!(tokenize("tru".to_string()), words(&[]));
    assert_eq!(tokenize("fals".to_string()), words(&[]));
    assert_eq!(tokenize("nul".to_string()), words(&[]));
    assert_eq!(tokenize("nu:l:".to_string()), words(&[":"]));
    assert_eq!(tokenize("f[1]:{".to_string()), words(&["{"]));
}

#[test]
fn tokenize_quoted_words() {
    assert_eq!(tokenize("\"a b\"".to_string()), words(&["\"a b\""]));
    assert_eq!(tokenize("\"open".to_string()), words(&["\"open"]));
    assert_eq!(tokenize("\"\"\"".to_string()), words(&["\"\"", "\""]));
    assert_eq!(tokenize("".to_string()), words(&[]));
    assert_eq!(tokenize("xyz, -".to_string()), words(&[]));
}

#[test]
fn is_number_and_is_bool_edges() {
    assert!(is_number("+inf".to_string()));
    assert!(is_number("1e9".to_string()));
    assert!(!is_number("".to_string()));
    assert!(!is_number("1 ".to_string()));
    assert!(!is_bool("True".to_string()));
    assert!(!is_bool("true ".to_string()));
    assert!(!is_bool("".to_string()));
}
