use sfw_tools::error::{NoneErrorRich, SfwResError};
use sfw_tools::iter_extra::IterExtra;
use sfw_tools::util::{
    is_newline, is_tab, is_tab_or_newline, opt_as_empty_str, usize_to_string, write_u8,
};

#[test]
fn test_byte_predicates() {
    assert!(is_newline(b'\n'));
    assert!(!is_newline(b'a'));
    assert!(is_tab(b'\t'));
    assert!(!is_tab(b' '));
    assert!(is_tab_or_newline(b'\t'));
    assert!(is_tab_or_newline(b'\n'));
    assert!(!is_tab_or_newline(b'x'));
}

#[test]
fn test_write_u8() {
    let mut out = vec![1u8, 2];
    write_u8(&mut out, 3);
    assert_eq!(out, vec![1, 2, 3]);
}

#[test]
fn test_usize_to_string() {
    assert_eq!(usize_to_string(0), "0");
    assert_eq!(usize_to_string(7), "7");
    assert_eq!(usize_to_string(10), "10");
    assert_eq!(usize_to_string(90210), "90210");
}

#[test]
fn test_opt_as_empty_str() {
    assert_eq!(opt_as_empty_str(Some(42)), "42");
    assert_eq!(opt_as_empty_str(None), "");
}

#[test]
fn test_none_error_rich_message() {
    let err = NoneErrorRich("Can't unwrap None");
    assert_eq!(err.message(), "Can't unwrap None");
}

#[test]
fn test_sfw_err_on_option() {
    let some: Option<u32> = Some(5);
    assert_eq!(some.sfw_err("context"), Ok(5));
    let none: Option<u32> = None;
    match none.sfw_err("Couldn't read repeat character") {
        Ok(_) => panic!("expected an error"),
        Err(e) => assert_eq!(e.message, "Couldn't read repeat character"),
    }
}

#[test]
fn test_safe_take() {
    let v = vec![10u8, 20, 30];
    assert_eq!(v.safe_take(2), Ok(vec![10u8, 20]));
    let v = vec![10u8, 20, 30];
    assert_eq!(v.safe_take(3), Ok(vec![10u8, 20, 30]));
    let v = vec![10u8, 20, 30];
    assert!(v.safe_take(4).is_err());
}
