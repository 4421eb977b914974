use simplan::text::{decimal_string, push_decimal, push_signed_decimal};

#[test]
fn decimal_of_numbers() {
    assert_eq!(decimal_string(0), "0");
    assert_eq!(decimal_string(7), "7");
    assert_eq!(decimal_string(1234), "1234");
    assert_eq!(decimal_string(u64::MAX), u64::MAX.to_string());
}

#[test]
fn push_appends() {
    let mut s = String::from("z=");
    push_decimal(&mut s, 12);
    s.push('/');
    push_signed_decimal(&mut s, -45);
    s.push('/');
    push_signed_decimal(&mut s, 6);
    assert_eq!(s, "z=12/-45/6");
}

#[test]
fn signed_extremes() {
    let mut s = String::new();
    push_signed_decimal(&mut s, i64::MIN);
    assert_eq!(s, i64::MIN.to_string());
    let mut s = String::new();
    push_signed_decimal(&mut s, 0);
    assert_eq!(s, "0");
}
