use m3u8_parser::numbers::{is_float, parse_u32, parse_u8, push_decimal, NumberError};

#[test]
fn parse_u8_reads_decimal_digits() {
    assert_eq!(parse_u8("0"), Ok(0));
    assert_eq!(parse_u8("6"), Ok(6));
    assert_eq!(parse_u8("255"), Ok(255));
    assert_eq!(parse_u8("+255"), Ok(255));
    assert_eq!(parse_u8("000000000000000000000000000000000255"), Ok(255));
    assert_eq!(parse_u8("256"), Err(NumberError::TooLarge));
    assert_eq!(parse_u8("99999999999999999999999999999"), Err(NumberError::TooLarge));
    assert_eq!(parse_u8(""), Err(NumberError::Empty));
    assert_eq!(parse_u8("+"), Err(NumberError::InvalidDigit));
    assert_eq!(parse_u8("-"), Err(NumberError::InvalidDigit));
    assert_eq!(parse_u8("-0"), Err(NumberError::InvalidDigit));
    assert_eq!(parse_u8("++1"), Err(NumberError::InvalidDigit));
    assert_eq!(parse_u8("1+"), Err(NumberError::InvalidDigit));
    assert_eq!(parse_u8(" 1"), Err(NumberError::InvalidDigit));
    assert_eq!(parse_u8("1 "), Err(NumberError::InvalidDigit));
    assert_eq!(parse_u8("1_0"), Err(NumberError::InvalidDigit));
    assert_eq!(parse_u8("0x10"), Err(NumberError::InvalidDigit));
    assert_eq!(parse_u8("٣"), Err(NumberError::InvalidDigit));
    assert_eq!(parse_u8("1é"), Err(NumberError::InvalidDigit));
    assert_eq!(parse_u8("25x5"), Err(NumberError::InvalidDigit));
    assert_eq!(parse_u8("255x"), Err(NumberError::InvalidDigit));
    assert_eq!(parse_u8("x999"), Err(NumberError::InvalidDigit));
    assert_eq!(parse_u8("/"), Err(NumberError::InvalidDigit));
    assert_eq!(parse_u8(":"), Err(NumberError::InvalidDigit));
}

#[test]
fn parse_u8_agrees_with_std_on_what_is_a_number() {
    for text in [
        "0", "7", "42", "255", "256", "+1", "+", "", "-1", "1a", "a1", "00", "0255", "2550", " 1",
        "1 ", "1.0", "1e2", "٣", "٣1", "+0", "+256", "300", "25 5",
    ] {
        assert_eq!(parse_u8(text).ok(), text.parse::<u8>().ok(), "{:?}", text);
        assert_eq!(parse_u32(text).ok(), text.parse::<u32>().ok(), "{:?}", text);
    }
}

#[test]
fn the_first_failure_from_the_left_decides() {
    assert_eq!(parse_u8("999x"), Err(NumberError::TooLarge));
    assert_eq!(parse_u8("256x"), Err(NumberError::TooLarge));
    assert_eq!(parse_u8("+999é"), Err(NumberError::TooLarge));
    assert_eq!(parse_u8("0000300 "), Err(NumberError::TooLarge));
    assert_eq!(parse_u8("9x99"), Err(NumberError::InvalidDigit));
    assert_eq!(parse_u8("é999"), Err(NumberError::InvalidDigit));
    assert_eq!(parse_u8("+x999"), Err(NumberError::InvalidDigit));
}

#[test]
fn parse_agrees_with_std_on_the_sentence() {
    let pieces = ["", "+", "-", "0", "9", "25", "255", "256", "4294967295", "x", "é", " "];
    for a in pieces {
        for b in pieces {
            for c in pieces {
                let text = format!("{}{}{}", a, b, c);
                assert_eq!(
                    parse_u8(&text).map_err(|error| error.message().to_owned()),
                    text.parse::<u8>().map_err(|error| error.to_string()),
                    "{:?}",
                    text
                );
                assert_eq!(
                    parse_u32(&text).map_err(|error| error.message().to_owned()),
                    text.parse::<u32>().map_err(|error| error.to_string()),
                    "{:?}",
                    text
                );
            }
        }
    }
}

#[test]
fn parse_u32_reads_decimal_digits() {
    assert_eq!(parse_u32("4508"), Ok(4508));
    assert_eq!(parse_u32("4294967295"), Ok(4294967295));
    assert_eq!(parse_u32("4294967296"), Err(NumberError::TooLarge));
    assert_eq!(parse_u32("42949672950"), Err(NumberError::TooLarge));
    assert_eq!(parse_u32("18446744073709551616"), Err(NumberError::TooLarge));
    assert_eq!(parse_u32("18446744073709551616x"), Err(NumberError::TooLarge));
    assert_eq!(parse_u32("4294967295x"), Err(NumberError::InvalidDigit));
    assert_eq!(parse_u32(""), Err(NumberError::Empty));
}

#[test]
fn messages_of_number_errors() {
    assert_eq!(
        NumberError::Empty.message(),
        "cannot parse integer from empty string"
    );
    assert_eq!(
        NumberError::InvalidDigit.message(),
        "invalid digit found in string"
    );
    assert_eq!(
        NumberError::TooLarge.message(),
        "number too large to fit in target type"
    );
}

#[test]
fn is_float_knows_the_literals() {
    for text in [
        "2.000", "2", "2.", ".5", "0.5", "+2.5", "-2.5", "1e3", "1E3", "1e+3", "1e-3", "1.5e10",
        "1.e5", ".5e5", "inf", "+inf", "-inf", "INF", "Infinity", "iNfInItY", "nan", "NaN",
        "+nan", "-NAN", "00012.34500", "9999999999999999999999999999999999999999", "1e999",
    ] {
        assert!(is_float(text), "{:?}", text);
    }
    for text in [
        "", "+", "-", ".", "+.", "e5", ".e5", "1e", "1e+", "1e5.0", "1.2.3", "2.0 ", " 2.0",
        "2,0", "two", "in", "infinit", "infinityy", "na", "nann", "++1", "+-1", "1_0", "0x10",
        "1f", "2.0f64", "٣", "1é", "NaN1", "inf.", "--inf", "1e5e5", "1 e5",
    ] {
        assert!(!is_float(text), "{:?}", text);
    }
}

#[test]
fn is_float_agrees_with_std_on_what_is_a_float() {
    let pieces = ["", "+", "-", "1", "23", ".", "e", "E", "inf", "nan", "infinity", "x", " "];
    for a in pieces {
        for b in pieces {
            for c in pieces {
                for d in pieces {
                    let text = format!("{}{}{}{}", a, b, c, d);
                    assert_eq!(is_float(&text), text.parse::<f64>().is_ok(), "{:?}", text);
                }
            }
        }
    }
}

#[test]
fn push_decimal_appends_the_digits() {
    let mut text = String::from("n=");
    push_decimal(&mut text, 0);
    assert_eq!(text, "n=0");
    push_decimal(&mut text, 7);
    push_decimal(&mut text, 10);
    push_decimal(&mut text, 4508);
    push_decimal(&mut text, 4294967295);
    assert_eq!(text, "n=071045084294967295");
    for n in [0u32, 9, 10, 99, 100, 255, 1000, 65535, 4294967295] {
        let mut digits = String::new();
        push_decimal(&mut digits, n);
        assert_eq!(digits, n.to_string());
        assert_eq!(parse_u32(&digits), Ok(n));
    }
}
