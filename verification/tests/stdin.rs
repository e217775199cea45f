//! The input reader on ASCII and multi-byte input.

use piet_programming_language::stdin::Stdin;


#[test]
fn test_ascii() {
    let mut stdin = Stdin::new_with_string(" he llo abc abc -100 15 a20   ");
    assert_eq!(Some('h'), stdin.read_char());
    assert_eq!(Some('e'), stdin.read_char());
    assert_eq!(Some('l'), stdin.read_char());
    assert_eq!(Some('l'), stdin.read_char());
    assert_eq!(Some('o'), stdin.read_char());
    assert_eq!(Some("abc".to_string()), stdin.read_word());
    assert_eq!(None, stdin.read_integer());
    assert_eq!(Some(-100), stdin.read_integer());
    assert_eq!(Some(15), stdin.read_integer());
    assert_eq!(Some('a'), stdin.read_char());
    assert_eq!(Some(20), stdin.read_integer());
    assert_eq!(None, stdin.read_char());
    assert_eq!(None, stdin.read_word());
}

#[test]
fn test_unicode() {
    let mut stdin = Stdin::new_with_string(" こん にちは 🌙🌱🌸   🌷🍄  -100 15 a20  あa aあ");
    assert_eq!(Some('こ'), stdin.read_char());
    assert_eq!(Some('ん'), stdin.read_char());
    assert_eq!(Some('に'), stdin.read_char());
    assert_eq!(Some('ち'), stdin.read_char());
    assert_eq!(Some('は'), stdin.read_char());
    assert_eq!(Some("🌙🌱🌸".to_string()), stdin.read_word());
    assert_eq!(None, stdin.read_integer());
    assert_eq!(Some(-100), stdin.read_integer());
    assert_eq!(Some(15), stdin.read_integer());
    assert_eq!(Some('a'), stdin.read_char());
    assert_eq!(Some(20), stdin.read_integer());
    assert_eq!(Some('あ'), stdin.read_char());
    assert_eq!(Some('a'), stdin.read_char());
    assert_eq!(Some('a'), stdin.read_char());
    assert_eq!(Some("あ".to_owned()), stdin.read_word());
    assert_eq!(None, stdin.read_char());
    assert_eq!(None, stdin.read_word());
}
