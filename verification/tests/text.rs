use happy_wakey::text::{
    chars_of, clean_lines, clean_text, contains, push_decimal_i64, push_decimal_u64, string_of,
    trim, utf8_length,
};

#[test]
fn clean_text_trims_filters_and_caps() {
    assert_eq!(clean_text("  a\u{0}b\tc  ", 10), "abc");
    assert_eq!(clean_text(" hello world ", 5), "hello");
    assert_eq!(clean_lines(" a\nb\r ", 10), "a\nb");
    assert_eq!(clean_text("", 3), "");
}

#[test]
fn trim_uses_unicode_white_space() {
    let t = trim(&chars_of("\u{3000} x y\u{2003}\n"));
    assert_eq!(string_of(&t), "x y");
}

#[test]
fn decimals_and_lengths() {
    let mut out = Vec::new();
    push_decimal_u64(&mut out, 0);
    out.push(' ');
    push_decimal_i64(&mut out, i64::MIN);
    out.push(' ');
    push_decimal_u64(&mut out, u64::MAX);
    assert_eq!(string_of(&out), format!("0 {} {}", i64::MIN, u64::MAX));
    assert_eq!(utf8_length(&chars_of("aé€😀")), "aé€😀".len() as u128);
    assert!(contains(&chars_of("hello"), &chars_of("ll")));
    assert!(!contains(&chars_of("hello"), &chars_of("lo!")));
    assert!(contains(&chars_of("x"), &Vec::new()));
}
