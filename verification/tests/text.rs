use excelgrag::text::{
    alphanumeric, ascii_lower, ascii_upper, digit, letter, same_text, same_text_but_for_case, trim,
    white_space,
};

#[test]
fn character_classes_agree_with_the_standard_library() {
    for n in 0..=0x10ffffu32 {
        if let Some(c) = char::from_u32(n) {
            assert_eq!(white_space(c), c.is_whitespace(), "{n:x}");
            assert_eq!(alphanumeric(c), c.is_alphanumeric(), "{n:x}");
            assert_eq!(digit(c), c.is_ascii_digit(), "{n:x}");
            assert_eq!(letter(c), c.is_ascii_alphabetic(), "{n:x}");
            assert_eq!(ascii_lower(c), c.to_ascii_lowercase(), "{n:x}");
            assert_eq!(ascii_upper(c), c.to_ascii_uppercase(), "{n:x}");
        }
    }
}

#[test]
fn trimming_takes_white_space_from_both_ends() {
    let chars: Vec<char> = "\u{3000}\t a b \u{2029}".chars().collect();
    let kept: String = trim(&chars).iter().collect();
    assert_eq!(kept, "a b");
    assert!(trim(&[' ', ' ']).is_empty());
}

#[test]
fn texts_are_compared_by_their_characters() {
    assert!(same_text("Café", "Café"));
    assert!(!same_text("Café", "Cafe"));
    assert!(same_text_but_for_case("Q3 Sales", "q3 SALES"));
    assert!(!same_text_but_for_case("É", "é"));
}
