use raytracer::decimal::append_decimal;

fn text_of(n: u64) -> String {
    let mut s = String::new();
    append_decimal(&mut s, n);
    s
}

#[test]
fn decimal_text() {
    assert_eq!(text_of(0), "0");
    assert_eq!(text_of(7), "7");
    assert_eq!(text_of(10), "10");
    assert_eq!(text_of(255), "255");
    assert_eq!(text_of(1000), "1000");
    assert_eq!(text_of(u64::MAX), "18446744073709551615");
}

#[test]
fn decimal_appends() {
    let mut s = String::from("ab");
    append_decimal(&mut s, 305);
    assert_eq!(s, "ab305");
}
