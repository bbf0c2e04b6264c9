use regex_engine::ast::{ClassItem, ShorthandKind};
use regex_engine::classes::{
    char_class_matches, is_digit_char, is_space_char, is_word_boundary, is_word_char,
    shorthand_matches,
};
use regex_engine::error::ParseError;
use regex_engine::text::chars_of;

#[test]
fn digits() {
    for c in '0'..='9' {
        assert!(is_digit_char(c));
    }
    assert!(!is_digit_char('/'));
    assert!(!is_digit_char(':'));
    assert!(!is_digit_char('a'));
}

#[test]
fn word_characters() {
    for c in "azAZ09_".chars() {
        assert!(is_word_char(c));
    }
    for c in "`{@[/:- é".chars() {
        assert!(!is_word_char(c));
    }
}

#[test]
fn whitespace_includes_vertical_tab_and_form_feed() {
    for c in [' ', '\t', '\n', '\r', '\u{b}', '\u{c}'] {
        assert!(is_space_char(c));
    }
    for c in ['a', '\u{a0}', '\u{85}', '\u{1f}', '\0'] {
        assert!(!is_space_char(c));
    }
}

#[test]
fn negated_shorthands_are_complements() {
    for c in ['a', '5', '_', ' ', '\u{b}', 'é', '-'] {
        assert_eq!(
            shorthand_matches(c, ShorthandKind::NonDigit),
            !shorthand_matches(c, ShorthandKind::Digit)
        );
        assert_eq!(
            shorthand_matches(c, ShorthandKind::NonWord),
            !shorthand_matches(c, ShorthandKind::Word)
        );
        assert_eq!(
            shorthand_matches(c, ShorthandKind::NonSpace),
            !shorthand_matches(c, ShorthandKind::Space)
        );
    }
}

#[test]
fn class_ranges_include_both_ends() {
    let items = [ClassItem::Range('b', 'd')];
    assert!(!char_class_matches('a', &items, false));
    assert!(char_class_matches('b', &items, false));
    assert!(char_class_matches('c', &items, false));
    assert!(char_class_matches('d', &items, false));
    assert!(!char_class_matches('e', &items, false));
}

#[test]
fn class_negation_flips_the_verdict() {
    let items = [ClassItem::Literal('x'), ClassItem::Shorthand(ShorthandKind::Digit)];
    for c in ['x', '7', 'y', ' '] {
        assert_eq!(char_class_matches(c, &items, true), !char_class_matches(c, &items, false));
    }
    assert!(char_class_matches('7', &items, false));
    assert!(!char_class_matches('y', &items, false));
}

#[test]
fn empty_class_holds_nothing() {
    assert!(!char_class_matches('a', &[], false));
    assert!(char_class_matches('a', &[], true));
}

#[test]
fn word_boundary_at_the_ends_and_inside() {
    let chars: Vec<char> = "ab cd".chars().collect();
    let expected = [true, false, true, true, false, true];
    for (pos, want) in expected.iter().enumerate() {
        assert_eq!(is_word_boundary(&chars, pos), *want);
    }
    assert!(!is_word_boundary(&[], 0));
    assert!(!is_word_boundary(&chars, 9));
}

#[test]
fn chars_of_gives_code_points() {
    assert_eq!(chars_of("aé𝄞"), vec!['a', 'é', '𝄞']);
    assert_eq!(chars_of(""), Vec::<char>::new());
}

#[test]
fn diagnostics() {
    assert_eq!(
        ParseError::UnexpectedEnd { position: 0 }.message(),
        "Unexpected end of pattern at position 0"
    );
    assert_eq!(
        ParseError::DanglingEscape { position: 2 }.message(),
        "Unexpected end of pattern after '\\' at position 2"
    );
    assert_eq!(
        ParseError::Expected { expected: '}', found: Some('x'), position: 7 }.message(),
        "Expected '}', got 'x' at position 7"
    );
    assert_eq!(
        ParseError::Expected { expected: ')', found: None, position: 12 }.message(),
        "Expected ')', got end of pattern at position 12"
    );
    assert_eq!(
        ParseError::InvalidGroup { position: 2 }.message(),
        "Invalid group syntax after '(?' at position 2"
    );
    assert_eq!(
        ParseError::InvalidLookbehind { position: 3 }.message(),
        "Invalid lookbehind syntax at position 3"
    );
    assert_eq!(
        ParseError::UnterminatedClass { position: 4 }.message(),
        "Unterminated character class at position 4"
    );
    assert_eq!(
        ParseError::ClassEscapeAtEnd { position: 3 }.message(),
        "Unexpected end in character class escape at position 3"
    );
    assert_eq!(
        ParseError::RangeAtEnd { position: 4 }.message(),
        "Unexpected end in range at position 4"
    );
    assert_eq!(
        ParseError::Trailing { found: ')', position: 0 }.message(),
        "Unexpected character ')' at position 0"
    );
    assert_eq!(
        ParseError::Trailing { found: 'é', position: 1234567890 }.message(),
        "Unexpected character 'é' at position 1234567890"
    );
    assert_eq!(
        ParseError::Trailing { found: 'x', position: usize::MAX }.message(),
        format!("Unexpected character 'x' at position {}", usize::MAX)
    );
}

#[test]
fn diagnostics_know_their_position() {
    assert_eq!(ParseError::UnterminatedClass { position: 4 }.position(), 4);
    assert_eq!(ParseError::Trailing { found: ')', position: 9 }.position(), 9);
    assert_eq!(ParseError::Expected { expected: ')', found: None, position: 1 }.position(), 1);
}
