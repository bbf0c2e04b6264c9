//! The grammar of patterns, as functions on sequences of code points.
//!
//! Each production is a function from the pattern, a position in it and the number of
//! capturing groups opened so far to the tree it reads, the position after it and the new
//! number of groups, or to the error it stops on and the number of groups opened by then. Precedence runs from alternation through
//! concatenation and quantified atoms down to atoms.
//!
//! A production that reads one part after another goes on only where the part before has
//! left the cursor further on and within the pattern. Every part does: see
//! [`crate::numbering`]. The test makes it plain that each production comes to an end.

use crate::ast::{AnchorKind, Ast, ClassItem, Repeat, ShorthandKind};
use crate::classes::is_digit;
use crate::error::ParseError;
use vstd::prelude::*;

verus! {

/// What a production read: the value, the position after it and the number of groups
/// opened so far.
pub struct Step<T> {
    pub value: T,
    pub pos: int,
    pub groups: nat,
}

/// Where a production stopped: the error, and the number of groups opened by then.
pub struct Failure {
    pub error: ParseError,
    pub groups: nat,
}

/// The outcome of a production.
pub type Parsed<T> = Result<Step<T>, Failure>;

/// The failure of a production that stops at `pos` with `groups` groups opened, where the
/// pattern holds nothing that it could read.
pub open spec fn stuck(pos: int, groups: nat) -> Failure {
    Failure { error: ParseError::UnexpectedEnd { position: pos as usize }, groups }
}

/// The character at `pos`, if the pattern has one there.
pub open spec fn at(s: Seq<char>, pos: int) -> Option<char> {
    if 0 <= pos < s.len() {
        Some(s[pos])
    } else {
        None
    }
}

/// The value of a decimal digit.
pub open spec fn digit_value(c: char) -> nat {
    (c as nat - '0' as nat) as nat
}

/// The number that a sequence of decimal digits denotes.
pub open spec fn decimal_value(digits: Seq<char>) -> nat
    decreases digits.len(),
{
    if digits.len() == 0 {
        0
    } else {
        10 * decimal_value(digits.drop_last()) + digit_value(digits.last())
    }
}

/// The first position from `pos` on that holds no decimal digit.
pub open spec fn digits_end(s: Seq<char>, pos: int) -> int
    decreases s.len() - pos,
{
    if 0 <= pos < s.len() && is_digit(s[pos]) {
        digits_end(s, pos + 1)
    } else {
        pos
    }
}

/// A non-negative decimal integer at `pos`: its value and the position after it. There is
/// none where no digit stands at `pos`, or where the value does not fit a `usize`.
pub open spec fn number(s: Seq<char>, pos: int) -> Option<(nat, int)> {
    let end = digits_end(s, pos);
    if end <= pos {
        None
    } else {
        let value = decimal_value(s.subrange(pos, end));
        if value > usize::MAX {
            None
        } else {
            Some((value, end))
        }
    }
}

/// The two bounds of a brace quantifier, read from just after `{`: `n`, `n,` or `n,m`.
pub open spec fn bounds(s: Seq<char>, pos: int) -> Option<(Repeat, int)> {
    match number(s, pos) {
        None => None,
        Some((n, p)) => {
            if at(s, p) == Some(',') {
                if at(s, p + 1) == Some('}') {
                    Some((Repeat::AtLeast(n), p + 1))
                } else {
                    match number(s, p + 1) {
                        Some((m, q)) => Some((Repeat::Range(n, m), q)),
                        None => None,
                    }
                }
            } else {
                Some((Repeat::Exact(n), p))
            }
        },
    }
}

/// A brace quantifier, read from just after `{`: its bounds, the closing `}` and an
/// optional `?` that makes it lazy. The result holds the kind, whether it is greedy, and
/// the position after it.
pub open spec fn brace(s: Seq<char>, pos: int) -> Option<(Repeat, bool, int)> {
    match bounds(s, pos) {
        None => None,
        Some((kind, p)) => {
            if at(s, p) == Some('}') {
                if at(s, p + 1) == Some('?') {
                    Some((kind, false, p + 2))
                } else {
                    Some((kind, true, p + 1))
                }
            } else {
                None
            }
        },
    }
}

/// The node that `\c` stands for outside a character class.
pub open spec fn escaped(c: char) -> Ast {
    if c == 'd' {
        Ast::Shorthand(ShorthandKind::Digit)
    } else if c == 'D' {
        Ast::Shorthand(ShorthandKind::NonDigit)
    } else if c == 'w' {
        Ast::Shorthand(ShorthandKind::Word)
    } else if c == 'W' {
        Ast::Shorthand(ShorthandKind::NonWord)
    } else if c == 's' {
        Ast::Shorthand(ShorthandKind::Space)
    } else if c == 'S' {
        Ast::Shorthand(ShorthandKind::NonSpace)
    } else if c == 'b' {
        Ast::Anchor(AnchorKind::WordBoundary)
    } else if c == 'B' {
        Ast::Anchor(AnchorKind::NonWordBoundary)
    } else if '1' <= c <= '9' {
        Ast::Backreference(digit_value(c))
    } else if c == 'n' {
        Ast::Literal('\n')
    } else if c == 'r' {
        Ast::Literal('\r')
    } else if c == 't' {
        Ast::Literal('\t')
    } else {
        Ast::Literal(c)
    }
}

/// The class item that `\c` stands for inside a character class.
pub open spec fn class_escaped(c: char) -> ClassItem {
    if c == 'd' {
        ClassItem::Shorthand(ShorthandKind::Digit)
    } else if c == 'D' {
        ClassItem::Shorthand(ShorthandKind::NonDigit)
    } else if c == 'w' {
        ClassItem::Shorthand(ShorthandKind::Word)
    } else if c == 'W' {
        ClassItem::Shorthand(ShorthandKind::NonWord)
    } else if c == 's' {
        ClassItem::Shorthand(ShorthandKind::Space)
    } else if c == 'S' {
        ClassItem::Shorthand(ShorthandKind::NonSpace)
    } else if c == 'n' {
        ClassItem::Literal('\n')
    } else if c == 'r' {
        ClassItem::Literal('\r')
    } else if c == 't' {
        ClassItem::Literal('\t')
    } else {
        ClassItem::Literal(c)
    }
}

/// The items of a character class from `pos` up to the closing `]`, added to `items`;
/// the position in the result is that of the `]`.
///
/// An item is an escape, a range `c-d` or a single character. A `-` makes a range only
/// where a character other than `]` follows it; the upper end of a range may be escaped,
/// and then stands for itself.
pub open spec fn class_items(s: Seq<char>, pos: int, items: Seq<ClassItem>) -> Result<
    (Seq<ClassItem>, int),
    ParseError,
>
    decreases s.len() - pos,
{
    match at(s, pos) {
        None => Err(ParseError::UnterminatedClass { position: pos as usize }),
        Some(c) => {
            if c == ']' {
                Ok((items, pos))
            } else if c == '\\' {
                match at(s, pos + 1) {
                    None => Err(ParseError::ClassEscapeAtEnd { position: (pos + 1) as usize }),
                    Some(e) => class_items(s, pos + 2, items.push(class_escaped(e))),
                }
            } else if at(s, pos + 1) == Some('-') && pos + 2 < s.len() && s[pos + 2] != ']' {
                if s[pos + 2] == '\\' {
                    match at(s, pos + 3) {
                        None => Err(ParseError::RangeAtEnd { position: (pos + 3) as usize }),
                        Some(e) => class_items(s, pos + 4, items.push(ClassItem::Range(c, e))),
                    }
                } else {
                    class_items(s, pos + 3, items.push(ClassItem::Range(c, s[pos + 2])))
                }
            } else {
                class_items(s, pos + 1, items.push(ClassItem::Literal(c)))
            }
        },
    }
}

/// A character class, read from its `[`. A `^` right after the `[` negates the class, and
/// a `]` that comes first of all is an item, not the end.
pub open spec fn class(s: Seq<char>, pos: int, groups: nat) -> Parsed<Ast> {
    let negated = at(s, pos + 1) == Some('^');
    let p = if negated {
        pos + 2
    } else {
        pos + 1
    };
    let leading = at(s, p) == Some(']');
    let first = if leading {
        seq![ClassItem::Literal(']')]
    } else {
        Seq::empty()
    };
    match class_items(
        s,
        if leading {
            p + 1
        } else {
            p
        },
        first,
    ) {
        Ok((items, end)) => Ok(
            Step { value: Ast::CharClass { items, negated }, pos: end + 1, groups },
        ),
        Err(error) => Err(Failure { error, groups }),
    }
}

/// An escape, read from its backslash.
pub open spec fn escape(s: Seq<char>, pos: int, groups: nat) -> Parsed<Ast> {
    match at(s, pos + 1) {
        None => Err(
            Failure { error: ParseError::DanglingEscape { position: (pos + 1) as usize }, groups },
        ),
        Some(c) => Ok(Step { value: escaped(c), pos: pos + 2, groups }),
    }
}

/// What the opening of a group says the group is.
pub enum GroupKind {
    /// `(`: a capturing group with this index.
    Capturing(nat),
    /// `(?:`
    NonCapturing,
    /// `(?=` where positive, `(?!` where not.
    Lookahead(bool),
    /// `(?<=` where positive, `(?<!` where not.
    Lookbehind(bool),
}

/// The node for a group of the kind `kind` around `node`.
pub open spec fn wrapped(kind: GroupKind, node: Ast) -> Ast {
    match kind {
        GroupKind::Capturing(index) => Ast::Group { index, node: Box::new(node) },
        GroupKind::NonCapturing => Ast::NonCapturing { node: Box::new(node) },
        GroupKind::Lookahead(positive) => Ast::Lookahead { node: Box::new(node), positive },
        GroupKind::Lookbehind(positive) => Ast::Lookbehind { node: Box::new(node), positive },
    }
}

/// The opening of a group, read from its `(`: the kind of the group and the position where
/// its body starts. After `(?` the next characters tell what the group is: `:` a
/// non-capturing group, `=` and `!` a lookahead, `<=` and `<!` a lookbehind. Any other `(`
/// opens a capturing group, whose index is the number of capturing groups opened up to
/// and including it.
pub open spec fn opening(s: Seq<char>, pos: int, groups: nat) -> Result<(GroupKind, int), ParseError> {
    if at(s, pos + 1) == Some('?') {
        let kind = at(s, pos + 2);
        if kind == Some(':') {
            Ok((GroupKind::NonCapturing, pos + 3))
        } else if kind == Some('=') {
            Ok((GroupKind::Lookahead(true), pos + 3))
        } else if kind == Some('!') {
            Ok((GroupKind::Lookahead(false), pos + 3))
        } else if kind == Some('<') {
            let side = at(s, pos + 3);
            if side == Some('=') {
                Ok((GroupKind::Lookbehind(true), pos + 4))
            } else if side == Some('!') {
                Ok((GroupKind::Lookbehind(false), pos + 4))
            } else {
                Err(ParseError::InvalidLookbehind { position: (pos + 3) as usize })
            }
        } else {
            Err(ParseError::InvalidGroup { position: (pos + 2) as usize })
        }
    } else {
        Ok((GroupKind::Capturing(groups + 1), pos + 1))
    }
}

/// An alternation: one or more concatenations separated by `|`. A single branch stands
/// for itself.
pub open spec fn alternation(s: Seq<char>, pos: int, groups: nat) -> Parsed<Ast>
    decreases s.len() - pos, 6nat,
{
    match concat(s, pos, groups) {
        Ok(first) => {
            if pos <= first.pos <= s.len() {
                match branches(s, first.pos, first.groups, seq![first.value]) {
                    Ok(all) => Ok(
                        Step {
                            value: if all.value.len() == 1 {
                                all.value[0]
                            } else {
                                Ast::Alternation(all.value)
                            },
                            pos: all.pos,
                            groups: all.groups,
                        },
                    ),
                    Err(error) => Err(error),
                }
            } else {
                Err(stuck(pos, groups))
            }
        },
        Err(error) => Err(error),
    }
}

/// The further branches of an alternation, from where a `|` may stand, added to `found`.
pub open spec fn branches(s: Seq<char>, pos: int, groups: nat, found: Seq<Ast>) -> Parsed<
    Seq<Ast>,
>
    decreases s.len() - pos, 5nat,
{
    if at(s, pos) == Some('|') {
        match concat(s, pos + 1, groups) {
            Ok(next) => {
                if pos < next.pos <= s.len() {
                    branches(s, next.pos, next.groups, found.push(next.value))
                } else {
                    Err(stuck(pos, groups))
                }
            },
            Err(error) => Err(error),
        }
    } else {
        Ok(Step { value: found, pos, groups })
    }
}

/// A concatenation: quantified atoms up to `)`, `|` or the end of the pattern. A single
/// atom stands for itself.
pub open spec fn concat(s: Seq<char>, pos: int, groups: nat) -> Parsed<Ast>
    decreases s.len() - pos, 4nat,
{
    match sequence(s, pos, groups, Seq::empty()) {
        Ok(all) => Ok(
            Step {
                value: if all.value.len() == 1 {
                    all.value[0]
                } else {
                    Ast::Concat(all.value)
                },
                pos: all.pos,
                groups: all.groups,
            },
        ),
        Err(error) => Err(error),
    }
}

/// The quantified atoms from `pos` up to `)`, `|` or the end of the pattern, added to
/// `found`.
pub open spec fn sequence(s: Seq<char>, pos: int, groups: nat, found: Seq<Ast>) -> Parsed<
    Seq<Ast>,
>
    decreases s.len() - pos, 3nat,
{
    match at(s, pos) {
        None => Ok(Step { value: found, pos, groups }),
        Some(c) => {
            if c == ')' || c == '|' {
                Ok(Step { value: found, pos, groups })
            } else {
                match quantified(s, pos, groups) {
                    Ok(next) => {
                        if pos < next.pos <= s.len() {
                            sequence(s, next.pos, next.groups, found.push(next.value))
                        } else {
                            Err(stuck(pos, groups))
                        }
                    },
                    Err(error) => Err(error),
                }
            }
        },
    }
}

/// An atom and the quantifier that may follow it: `*`, `+` or `?`, or a brace quantifier,
/// each lazy where a `?` follows. A `{` that opens no brace quantifier is left where it
/// is, to be read as a literal.
pub open spec fn quantified(s: Seq<char>, pos: int, groups: nat) -> Parsed<Ast>
    decreases s.len() - pos, 2nat,
{
    match atom(s, pos, groups) {
        Ok(step) => {
            let next = at(s, step.pos);
            if next == Some('*') || next == Some('+') || next == Some('?') {
                let kind = if next == Some('*') {
                    Repeat::Star
                } else if next == Some('+') {
                    Repeat::Plus
                } else {
                    Repeat::Question
                };
                let lazy = at(s, step.pos + 1) == Some('?');
                Ok(
                    Step {
                        value: Ast::Quantifier {
                            node: Box::new(step.value),
                            kind,
                            greedy: !lazy,
                        },
                        pos: if lazy {
                            step.pos + 2
                        } else {
                            step.pos + 1
                        },
                        groups: step.groups,
                    },
                )
            } else if next == Some('{') {
                match brace(s, step.pos + 1) {
                    Some((kind, greedy, end)) => Ok(
                        Step {
                            value: Ast::Quantifier { node: Box::new(step.value), kind, greedy },
                            pos: end,
                            groups: step.groups,
                        },
                    ),
                    None => Ok(step),
                }
            } else {
                Ok(step)
            }
        },
        Err(error) => Err(error),
    }
}

/// An atom: a group, a character class, `.`, `^`, `$`, an escape, or a literal character.
pub open spec fn atom(s: Seq<char>, pos: int, groups: nat) -> Parsed<Ast>
    decreases s.len() - pos, 1nat,
{
    match at(s, pos) {
        None => Err(stuck(pos, groups)),
        Some(c) => {
            if c == '(' {
                group(s, pos, groups)
            } else if c == '[' {
                class(s, pos, groups)
            } else if c == '.' {
                Ok(Step { value: Ast::Dot, pos: pos + 1, groups })
            } else if c == '^' {
                Ok(Step { value: Ast::Anchor(AnchorKind::Start), pos: pos + 1, groups })
            } else if c == '$' {
                Ok(Step { value: Ast::Anchor(AnchorKind::End), pos: pos + 1, groups })
            } else if c == '\\' {
                escape(s, pos, groups)
            } else {
                Ok(Step { value: Ast::Literal(c), pos: pos + 1, groups })
            }
        },
    }
}

/// A group, read from its `(`: the opening, an alternation as the body, and the `)` that
/// closes it.
pub open spec fn group(s: Seq<char>, pos: int, groups: nat) -> Parsed<Ast>
    decreases s.len() - pos, 0nat,
{
    if pos < 0 || pos >= s.len() {
        Err(stuck(pos, groups))
    } else {
        match opening(s, pos, groups) {
            Ok((kind, start)) => {
                let inner = if kind is Capturing {
                    groups + 1
                } else {
                    groups
                };
                match alternation(s, start, inner) {
                    Ok(body) => {
                        if at(s, body.pos) == Some(')') {
                            Ok(
                                Step {
                                    value: wrapped(kind, body.value),
                                    pos: body.pos + 1,
                                    groups: body.groups,
                                },
                            )
                        } else {
                            Err(
                                Failure {
                                    error: ParseError::Expected {
                                        expected: ')',
                                        found: at(s, body.pos),
                                        position: body.pos as usize,
                                    },
                                    groups: body.groups,
                                },
                            )
                        }
                    },
                    Err(failure) => Err(failure),
                }
            },
            Err(error) => Err(Failure { error, groups }),
        }
    }
}

/// A whole pattern, read from `pos`: an alternation, and nothing after it.
pub open spec fn pattern_from(s: Seq<char>, pos: int, groups: nat) -> Parsed<Ast> {
    match alternation(s, pos, groups) {
        Ok(step) => {
            if 0 <= step.pos < s.len() {
                Err(
                    Failure {
                        error: ParseError::Trailing {
                            found: s[step.pos],
                            position: step.pos as usize,
                        },
                        groups: step.groups,
                    },
                )
            } else {
                Ok(step)
            }
        },
        Err(error) => Err(error),
    }
}

/// The tree of the pattern `s` and the number of its capturing groups.
pub open spec fn pattern(s: Seq<char>) -> Result<(Ast, nat), ParseError> {
    match pattern_from(s, 0, 0) {
        Ok(step) => Ok((step.value, step.groups)),
        Err(failure) => Err(failure.error),
    }
}

} // verus!
