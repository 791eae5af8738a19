use auto_claw::numeral::{parse_i32, push_i32, push_u8};
use auto_claw::text::{chars_of, slice_chars};

fn chars(s: &str) -> Vec<char> {
    s.chars().collect()
}

#[test]
fn parses_like_str_parse() {
    for s in ["0", "42", "-42", "+7", "2147483647", "-2147483648", "007"] {
        assert_eq!(parse_i32(&chars(s)), s.parse::<i32>().ok());
    }
}

#[test]
fn refuses_what_str_parse_refuses() {
    for s in ["", "-", "+", "2147483648", "-2147483649", "1a", " 1", "--1", "1-"] {
        assert_eq!(parse_i32(&chars(s)), None);
        assert!(s.parse::<i32>().is_err());
    }
}

#[test]
fn writes_decimal() {
    let mut out = String::from("x=");
    push_i32(&mut out, -2147483648);
    assert_eq!(out, "x=-2147483648");
    let mut out = String::new();
    push_i32(&mut out, 0);
    push_u8(&mut out, 255);
    assert_eq!(out, "0255");
}

#[test]
fn slices_by_byte_index() {
    assert_eq!(slice_chars("héllo", 0, 1), Some(String::from("h")));
    assert_eq!(slice_chars("héllo", 1, 3), Some(String::from("é")));
    assert_eq!(slice_chars("héllo", 1, 2), None);
    assert_eq!(slice_chars("abc", 2, 1), None);
    assert_eq!(slice_chars("abc", 1, 4), None);
    assert_eq!(chars_of("hé"), vec!['h', 'é']);
}
