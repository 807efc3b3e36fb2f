use flip::text::{
    chars_of, concat3, decimal_text, is_white_space, same_text, signed_decimal_text, string_of,
    to_ascii_lower,
};

#[test]
fn white_space_is_that_of_unicode() {
    for n in 0..=0x10FFFFu32 {
        if let Some(c) = char::from_u32(n) {
            assert_eq!(is_white_space(c), c.is_whitespace(), "{n:x}");
        }
    }
}

#[test]
fn numerals() {
    for n in [0u64, 7, 10, 99, 12345, u64::MAX] {
        assert_eq!(decimal_text(n), n.to_string());
    }
    for n in [0i64, -1, 42, i64::MIN, i64::MAX] {
        assert_eq!(signed_decimal_text(n), n.to_string());
    }
}

#[test]
fn letters_and_parts() {
    assert_eq!(to_ascii_lower("GpTq É1"), "gptq É1");
    assert_eq!(concat3("a", "", "é"), "aé");
    assert!(same_text("é", "é"));
    assert!(!same_text("é", "e"));
    let chars = chars_of("aéb");
    assert_eq!(string_of(&chars, 1, 3), "éb");
}
