use nixui_core::text::{chars_of, key_less, same_ignoring_ascii_case, to_ascii_lower};

#[test]
fn keys_are_ordered_by_their_bytes() {
    assert!(key_less("a", "b"));
    assert!(!key_less("b", "a"));
    assert!(key_less("a", "ab"));
    assert!(!key_less("ab", "a"));
    assert!(key_less("", "a"));
    assert!(!key_less("", ""));
    assert!(!key_less("same", "same"));
    assert!(key_less("Z", "a"));
    assert!(key_less("a.b", "a.c"));
    assert!(key_less("z", "\u{e9}"));
}

#[test]
fn key_order_agrees_with_the_order_of_strings() {
    let keys = ["", "a", "A", "ab", "b", "boot.loader", "boot", "\u{e9}", "z", "zz", "\u{4e2d}"];
    for a in keys.iter() {
        for b in keys.iter() {
            assert_eq!(key_less(a, b), a < b);
        }
    }
}

#[test]
fn case_of_ascii_letters_is_ignored() {
    assert!(same_ignoring_ascii_case("true", "TRUE"));
    assert!(same_ignoring_ascii_case("True", "tRuE"));
    assert!(same_ignoring_ascii_case("", ""));
    assert!(!same_ignoring_ascii_case("true", "false"));
    assert!(!same_ignoring_ascii_case("true", "true "));
    assert!(!same_ignoring_ascii_case("tru", "true"));
}

#[test]
fn only_ascii_letters_are_folded() {
    assert!(!same_ignoring_ascii_case("\u{e9}", "\u{c9}"));
    assert!(same_ignoring_ascii_case("\u{e9}A", "\u{e9}a"));
    assert!(!same_ignoring_ascii_case("@", "`"));
    assert!(!same_ignoring_ascii_case("[", "{"));
}

#[test]
fn lower_case_of_a_character() {
    assert_eq!(to_ascii_lower('A'), 'a');
    assert_eq!(to_ascii_lower('Z'), 'z');
    assert_eq!(to_ascii_lower('m'), 'm');
    assert_eq!(to_ascii_lower('@'), '@');
    assert_eq!(to_ascii_lower('['), '[');
    assert_eq!(to_ascii_lower('\u{c9}'), '\u{c9}');
    for c in ['a', 'Q', '0', ' ', '\u{e9}', '\u{4e2d}'] {
        assert_eq!(to_ascii_lower(c), c.to_ascii_lowercase());
    }
}

#[test]
fn characters_of_a_text() {
    assert_eq!(chars_of("a\u{e9}b"), vec!['a', '\u{e9}', 'b']);
    assert_eq!(chars_of(""), Vec::<char>::new());
}
