//! Character tests shared by the compiler's instructions and the matcher's assertions.
//!
//! All classes follow their ASCII definitions.

use crate::ast::{ClassItem, ShorthandKind};
use vstd::prelude::*;

verus! {

/// `c` is one of `0` to `9`.
pub open spec fn is_digit(c: char) -> bool {
    '0' <= c <= '9'
}

/// `c` is a decimal digit, an ASCII letter or `_`.
pub open spec fn is_word(c: char) -> bool {
    is_digit(c) || 'A' <= c <= 'Z' || 'a' <= c <= 'z' || c == '_'
}

/// `c` is space, tab, newline, carriage return, vertical tab or form feed.
pub open spec fn is_space(c: char) -> bool {
    c == ' ' || c == '\t' || c == '\n' || c == '\r' || c == '\x0b' || c == '\x0c'
}

/// Whether the shorthand class `kind` holds `c`.
pub open spec fn shorthand_accepts(kind: ShorthandKind, c: char) -> bool {
    match kind {
        ShorthandKind::Digit => is_digit(c),
        ShorthandKind::NonDigit => !is_digit(c),
        ShorthandKind::Word => is_word(c),
        ShorthandKind::NonWord => !is_word(c),
        ShorthandKind::Space => is_space(c),
        ShorthandKind::NonSpace => !is_space(c),
    }
}

/// Whether one item of a class holds `c`. A range holds its two ends and whatever lies
/// between them by code point.
pub open spec fn item_accepts(item: ClassItem, c: char) -> bool {
    match item {
        ClassItem::Literal(l) => c == l,
        ClassItem::Range(lo, hi) => lo <= c <= hi,
        ClassItem::Shorthand(kind) => shorthand_accepts(kind, c),
    }
}

/// Whether some item of `items` holds `c`.
pub open spec fn any_item_accepts(items: Seq<ClassItem>, c: char) -> bool {
    exists|i: int| 0 <= i < items.len() && item_accepts(#[trigger] items[i], c)
}

/// Whether the class made of `items` accepts `c`: some item holds it, or none does where
/// the class is negated.
pub open spec fn class_accepts(items: Seq<ClassItem>, negated: bool, c: char) -> bool {
    any_item_accepts(items, c) != negated
}

/// Whether `pos` is at a word boundary of `text`: exactly one of the characters before and
/// after it is a word character. Beyond either end of the text there is no word character.
pub open spec fn word_boundary(text: Seq<char>, pos: int) -> bool {
    let before = 0 < pos <= text.len() && is_word(text[pos - 1]);
    let after = 0 <= pos < text.len() && is_word(text[pos]);
    before != after
}

/// Tests whether `ch` is a decimal digit.
pub fn is_digit_char(ch: char) -> (r: bool)
    ensures
        r == is_digit(ch),
{
    '0' <= ch && ch <= '9'
}

/// Tests whether `ch` is a word character.
pub fn is_word_char(ch: char) -> (r: bool)
    ensures
        r == is_word(ch),
{
    is_digit_char(ch) || ('A' <= ch && ch <= 'Z') || ('a' <= ch && ch <= 'z') || ch == '_'
}

/// Tests whether `ch` is whitespace.
pub fn is_space_char(ch: char) -> (r: bool)
    ensures
        r == is_space(ch),
{
    ch == ' ' || ch == '\t' || ch == '\n' || ch == '\r' || ch == '\x0b' || ch == '\x0c'
}

/// Tests `ch` against a shorthand class.
pub fn shorthand_matches(ch: char, kind: ShorthandKind) -> (r: bool)
    ensures
        r == shorthand_accepts(kind, ch),
{
    match kind {
        ShorthandKind::Digit => is_digit_char(ch),
        ShorthandKind::NonDigit => !is_digit_char(ch),
        ShorthandKind::Word => is_word_char(ch),
        ShorthandKind::NonWord => !is_word_char(ch),
        ShorthandKind::Space => is_space_char(ch),
        ShorthandKind::NonSpace => !is_space_char(ch),
    }
}

/// Tests `ch` against a character class. The items are tried in order and the first that
/// holds `ch` settles the matter.
pub fn char_class_matches(ch: char, items: &[ClassItem], negated: bool) -> (r: bool)
    ensures
        r == class_accepts(items@, negated, ch),
{
    let mut matched = false;
    let mut i: usize = 0;
    while i < items.len() && !matched
        invariant
            i <= items.len(),
            matched ==> any_item_accepts(items@, ch),
            !matched ==> forall|j: int| 0 <= j < i ==> !item_accepts(#[trigger] items@[j], ch),
        decreases items.len() - i + if matched { 0int } else { 1int },
    {
        let hit = match items[i] {
            ClassItem::Literal(c) => ch == c,
            ClassItem::Range(lo, hi) => lo <= ch && ch <= hi,
            ClassItem::Shorthand(kind) => shorthand_matches(ch, kind),
        };
        if hit {
            matched = true;
        } else {
            i += 1;
        }
    }
    if negated {
        !matched
    } else {
        matched
    }
}

/// Tests whether `pos` is at a word boundary of `chars`.
pub fn is_word_boundary(chars: &[char], pos: usize) -> (r: bool)
    ensures
        r == word_boundary(chars@, pos as int),
{
    let before = if 0 < pos && pos <= chars.len() {
        is_word_char(chars[pos - 1])
    } else {
        false
    };
    let after = if pos < chars.len() {
        is_word_char(chars[pos])
    } else {
        false
    };
    before != after
}

} // verus!
