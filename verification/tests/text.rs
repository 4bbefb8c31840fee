use jjp::text::{
    holds, parse_number, push_decimal, push_digit, push_run, push_two_places, range_value,
    tail_after, NumberError,
};

#[test]
fn numbers_are_read() {
    assert_eq!(parse_number("0"), Ok(0));
    assert_eq!(parse_number("007"), Ok(7));
    assert_eq!(parse_number("+12"), Ok(12));
    assert_eq!(parse_number("18446744073709551615"), Ok(usize::MAX));
    assert_eq!(parse_number("18446744073709551616"), Err(NumberError::TooLarge));
    assert_eq!(parse_number(""), Err(NumberError::Empty));
    assert_eq!(parse_number("+"), Err(NumberError::InvalidDigit));
    assert_eq!(parse_number("-1"), Err(NumberError::InvalidDigit));
    assert_eq!(parse_number("++1"), Err(NumberError::InvalidDigit));
    assert_eq!(parse_number("1 "), Err(NumberError::InvalidDigit));
    assert_eq!(parse_number("*"), Err(NumberError::InvalidDigit));
    assert_eq!(parse_number("1\u{663}"), Err(NumberError::InvalidDigit));
}

#[test]
fn numbers_are_read_as_the_standard_library_reads_them() {
    for text in [
        "", "+", "-", "+0", "-0", "1", "12a", "a12", "99999999999999999999", "18446744073709551615",
        "18446744073709551616", "184467440737095516159x", "184467440737095516150x", "0x10", "\t1",
        "1_000", "00000000000000000000000000000001", "+18446744073709551615",
    ] {
        assert_eq!(parse_number(text).ok(), text.parse::<usize>().ok(), "{}", text);
        let kind = match text.parse::<usize>() {
            Ok(_) => None,
            Err(e) => Some(format!("{:?}", e.kind())),
        };
        let own = match parse_number(text) {
            Ok(_) => None,
            Err(NumberError::Empty) => Some("Empty".to_string()),
            Err(NumberError::InvalidDigit) => Some("InvalidDigit".to_string()),
            Err(NumberError::TooLarge) => Some("PosOverflow".to_string()),
        };
        assert_eq!(own, kind, "{}", text);
    }
}

#[test]
fn numbers_are_read_back() {
    for n in [0, 1, 9, 10, 99, 100, 12345, usize::MAX - 1, usize::MAX] {
        let mut s = String::new();
        push_decimal(&mut s, n as u128);
        assert_eq!(s, n.to_string());
        assert_eq!(parse_number(&s), Ok(n));
    }
    let mut s = String::new();
    push_decimal(&mut s, usize::MAX as u128 + 1);
    assert_eq!(parse_number(&s), Err(NumberError::TooLarge));
    let mut s = "n=".to_string();
    push_decimal(&mut s, u128::MAX);
    assert_eq!(s, format!("n={}", u128::MAX));
}

#[test]
fn hundredths_are_written() {
    for (n, text) in [(0, "0.00"), (5, "0.05"), (10, "0.10"), (100, "1.00"), (123456, "1234.56")] {
        let mut s = String::new();
        push_two_places(&mut s, n);
        assert_eq!(s, text);
    }
    let mut s = "x".to_string();
    push_digit(&mut s, 7);
    assert_eq!(s, "x7");
}

#[test]
fn runs_are_written() {
    let mut s = "a".to_string();
    push_run(&mut s, '>', 3);
    push_run(&mut s, 'ü', 2);
    push_run(&mut s, ' ', 0);
    assert_eq!(s, "a>>>üü");
}

#[test]
fn tail_is_what_follows_the_last_separator() {
    assert_eq!(tail_after("http://host/dir/file.bin", '/'), "file.bin");
    assert_eq!(tail_after("http://host/dir/", '/'), "");
    assert_eq!(tail_after("file.bin", '/'), "file.bin");
    assert_eq!(tail_after("", '/'), "");
    assert_eq!(tail_after("a/b/ü", '/'), "ü");
    assert!(holds("a/b", '/'));
    assert!(!holds("ab", '/'));
    assert!(!holds("", '/'));
}

#[test]
fn ranges_are_written() {
    assert_eq!(range_value(0, 0), "bytes=0-0");
    assert_eq!(range_value(1024, 2047), "bytes=1024-2047");
}
