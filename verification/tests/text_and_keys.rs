use breviewer::keys::ascii_lower;
use breviewer::text::push_decimal;

#[test]
fn decimal_numbers() {
    let mut s = String::from("n=");
    push_decimal(&mut s, 0);
    assert_eq!(s, "n=0");
    let mut s = String::new();
    push_decimal(&mut s, 7);
    assert_eq!(s, "7");
    let mut s = String::new();
    push_decimal(&mut s, 10);
    assert_eq!(s, "10");
    let mut s = String::new();
    push_decimal(&mut s, 1234509);
    assert_eq!(s, "1234509");
    let mut s = String::new();
    push_decimal(&mut s, usize::MAX);
    assert_eq!(s, usize::MAX.to_string());
}

#[test]
fn ascii_lower_case() {
    assert_eq!(ascii_lower('A'), 'a' as u32);
    assert_eq!(ascii_lower('Z'), 'z' as u32);
    assert_eq!(ascii_lower('q'), 'q' as u32);
    assert_eq!(ascii_lower('@'), '@' as u32);
    assert_eq!(ascii_lower('['), '[' as u32);
    assert_eq!(ascii_lower('É'), 'É' as u32);
}
