use mahana::util::{expect_token, read_number, Cursor};
use mahana::Number;

fn as_float(number: &Number) -> f64 {
    match number {
        Number::Float(text) => text.parse::<f64>().unwrap(),
        Number::Int(i) => panic!("an integer: {}", i),
    }
}

#[test]
fn util_test_parse_number() {
    let test_num1 = "32";
    let test_num2 = "1.23";
    let test_num3 = "hello";
    let test_num4 = "";
    assert_eq!(read_number(test_num1).unwrap(), Number::Int(32));
    assert_eq!(as_float(&read_number(test_num2).unwrap()), 1.23);
    assert!(read_number(test_num3).is_err());
    assert!(read_number(test_num4).is_err());
}

#[test]
fn test_expect_token() {
    // blanks before a character
    let mut cs1 = Cursor::new("   ,");
    assert_eq!(expect_token(&mut cs1).unwrap(), ',');

    // no input
    let mut cs2 = Cursor::new("");
    assert!(expect_token(&mut cs2).is_none());

    // blanks only
    let mut cs3 = Cursor::new("     ");
    assert!(expect_token(&mut cs3).is_none());
}

#[test]
fn expect_token_consumes_blanks_only() {
    let mut cs = Cursor::new(" \n  x y");
    assert_eq!(expect_token(&mut cs), Some('x'));
    assert_eq!(expect_token(&mut cs), Some('x'));
    assert_eq!(cs.peek(), Some('x'));
    assert_eq!(cs.next(), Some('x'));
    assert_eq!(expect_token(&mut cs), Some('y'));
    assert_eq!(cs.next(), Some('y'));
    assert_eq!(expect_token(&mut cs), None);
    assert_eq!(cs.next(), None);
}

#[test]
fn expect_token_passes_no_tab() {
    let mut cs = Cursor::new("\t,");
    assert_eq!(expect_token(&mut cs), Some('\t'));
}

#[test]
fn classify_number_examples() {
    assert_eq!(as_float(&read_number("26.3").unwrap()), 26.3);
    assert_eq!(read_number("26.3").unwrap(), Number::Float("26.3".to_string()));
    assert_eq!(read_number("4").unwrap(), Number::Int(4));
    assert_eq!(read_number("10.9.8"), Err("Not number".to_string()));
}

#[test]
fn integers_of_32_bits() {
    assert_eq!(read_number("2147483647").unwrap(), Number::Int(2147483647));
    assert_eq!(read_number("-2147483648").unwrap(), Number::Int(-2147483648));
    assert_eq!(read_number("+17").unwrap(), Number::Int(17));
    assert_eq!(read_number("-0").unwrap(), Number::Int(0));
    assert_eq!(read_number("0007").unwrap(), Number::Int(7));
    assert_eq!(
        read_number("00000000000000000000000000012").unwrap(),
        Number::Int(12)
    );
    assert_eq!(
        read_number("2147483648").unwrap(),
        Number::Float("2147483648".to_string())
    );
    assert_eq!(
        read_number("-2147483649").unwrap(),
        Number::Float("-2147483649".to_string())
    );
    assert_eq!(
        read_number("99999999999999999999999999").unwrap(),
        Number::Float("99999999999999999999999999".to_string())
    );
}

#[test]
fn float_syntax_agrees_with_the_standard_reading() {
    let tokens = [
        "0.5", ".5", "5.", "1e5", "1E5", "1e+5", "1.5e-3", "+1.0", "-.5e1", "inf", "-inf", "+INF",
        "Infinity", "nan", "NaN", "-nan", "0e0", "1_0", "", "+", "-", ".", "e5", "1e", "1e+",
        "1.e", "1..2", "1.2.3", "--1", "+-1", "1 ", " 1", "0x10", "infinit", "infinityy", "na",
        "1e5.0", "1f", "١٢", "1e1e1", ".e1", "+.", "5.e2", "00.00", "1,5",
    ];
    for token in tokens {
        assert_eq!(
            read_number(token).is_ok(),
            token.parse::<f64>().is_ok(),
            "{:?}",
            token
        );
        assert_eq!(
            matches!(read_number(token), Ok(Number::Int(_))),
            token.parse::<i32>().is_ok(),
            "{:?}",
            token
        );
    }
}

#[test]
fn cursor_walks_the_characters() {
    let mut cs = Cursor::new("aé\n");
    assert_eq!(cs.peek(), Some('a'));
    assert_eq!(cs.next(), Some('a'));
    assert_eq!(cs.next(), Some('é'));
    assert_eq!(cs.next(), Some('\n'));
    assert_eq!(cs.peek(), None);
    assert_eq!(cs.next(), None);
    assert_eq!(cs.next(), None);
}
