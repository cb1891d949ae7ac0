use functional_from_zero::text::{decimal_text, same_text, slice_text};

#[test]
fn numbers_in_decimal_digits() {
    assert_eq!(decimal_text(0), "0");
    assert_eq!(decimal_text(7), "7");
    assert_eq!(decimal_text(10), "10");
    assert_eq!(decimal_text(1234567890), "1234567890");
    assert_eq!(decimal_text(usize::MAX), usize::MAX.to_string());
}

#[test]
fn texts_are_compared_by_their_characters() {
    assert!(same_text("", ""));
    assert!(same_text("__builtin_g", "__builtin_g"));
    assert!(!same_text("__builtin_g", "__builtin_p"));
    assert!(!same_text("a", "ab"));
    assert!(!same_text("ab", "a"));
    assert!(same_text("\u{e9}\u{4e2d}", "\u{e9}\u{4e2d}"));
    assert!(!same_text("\u{e9}", "e"));
}

#[test]
fn a_piece_of_text_between_two_offsets() {
    let code = "a\u{e9}b (c)";
    assert_eq!(slice_text(code, 0, 0), "");
    assert_eq!(slice_text(code, 0, 1), "a");
    assert_eq!(slice_text(code, 1, 3), "\u{e9}");
    assert_eq!(slice_text(code, 3, 8), "b (c)");
    assert_eq!(slice_text(code, 0, 8), code);
    assert_eq!(slice_text(code, 8, 8), "");
}
