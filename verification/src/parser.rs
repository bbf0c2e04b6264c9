//! The parser: recursive descent over the code points of a pattern.
//!
//! Every method reads one production of the grammar in [`crate::grammar`] from the cursor
//! on, and returns exactly what the production's function says.

use crate::ast::{
    lemma_model_all, lemma_numbered_widens, model_all, AnchorKind, Ast, AstNode, ClassItem,
    QuantifierKind, ShorthandKind,
};
use crate::classes::is_digit_char;
use crate::error::ParseError;
use crate::grammar::{
    alternation, at, atom, brace, branches, class, class_escaped, class_items, concat,
    decimal_value, digit_value, digits_end, escape, escaped, group, number, opening, pattern_from,
    quantified, sequence, Failure, GroupKind, Step,
};
use crate::numbering::lemma_alternation;
use crate::text::{chars_of, is_scalar, lemma_char_is_scalar};
use vstd::prelude::*;

verus! {

/// A parser over one pattern: the pattern's code points, a cursor, and the number of
/// capturing groups opened so far.
pub struct Parser {
    chars: Vec<char>,
    pos: usize,
    group_count: usize,
}

/// What the opening of a group says the group is.
enum Opening {
    Capturing(usize),
    NonCapturing,
    Lookahead(bool),
    Lookbehind(bool),
}

/// The kind of group that an opening stands for.
spec fn kind_of(opening: Opening) -> GroupKind {
    match opening {
        Opening::Capturing(index) => GroupKind::Capturing(index as nat),
        Opening::NonCapturing => GroupKind::NonCapturing,
        Opening::Lookahead(positive) => GroupKind::Lookahead(positive),
        Opening::Lookbehind(positive) => GroupKind::Lookbehind(positive),
    }
}

/// Where the digits end is the same from any digit among them.
proof fn lemma_digits_end_from(s: Seq<char>, start: int, pos: int)
    requires
        0 <= start <= pos <= s.len(),
        forall|i: int| start <= i < pos ==> is_digit_at(s, i),
    ensures
        digits_end(s, start) == digits_end(s, pos),
        pos <= digits_end(s, pos) <= s.len(),
    decreases s.len() - start,
{
    if start < pos {
        assert(is_digit_at(s, start));
        lemma_digits_end_from(s, start + 1, pos);
    } else {
        lemma_digits_end_bounds(s, pos);
    }
}

/// The digits end at or after where they are looked for, within the pattern.
proof fn lemma_digits_end_bounds(s: Seq<char>, pos: int)
    requires
        0 <= pos <= s.len(),
    ensures
        pos <= digits_end(s, pos) <= s.len(),
    decreases s.len() - pos,
{
    if pos < s.len() && crate::classes::is_digit(s[pos]) {
        lemma_digits_end_bounds(s, pos + 1);
    }
}

/// The node for `\c` outside a character class.
fn escape_node(ch: char) -> (node: AstNode)
    ensures
        node@ == escaped(ch),
{
    proof {
        lemma_digit_values();
    }
    if ch == 'd' {
        AstNode::ShorthandClass(ShorthandKind::Digit)
    } else if ch == 'D' {
        AstNode::ShorthandClass(ShorthandKind::NonDigit)
    } else if ch == 'w' {
        AstNode::ShorthandClass(ShorthandKind::Word)
    } else if ch == 'W' {
        AstNode::ShorthandClass(ShorthandKind::NonWord)
    } else if ch == 's' {
        AstNode::ShorthandClass(ShorthandKind::Space)
    } else if ch == 'S' {
        AstNode::ShorthandClass(ShorthandKind::NonSpace)
    } else if ch == 'b' {
        AstNode::Anchor(AnchorKind::WordBoundary)
    } else if ch == 'B' {
        AstNode::Anchor(AnchorKind::NonWordBoundary)
    } else if ch == '1' {
        AstNode::Backreference(1)
    } else if ch == '2' {
        AstNode::Backreference(2)
    } else if ch == '3' {
        AstNode::Backreference(3)
    } else if ch == '4' {
        AstNode::Backreference(4)
    } else if ch == '5' {
        AstNode::Backreference(5)
    } else if ch == '6' {
        AstNode::Backreference(6)
    } else if ch == '7' {
        AstNode::Backreference(7)
    } else if ch == '8' {
        AstNode::Backreference(8)
    } else if ch == '9' {
        AstNode::Backreference(9)
    } else if ch == 'n' {
        AstNode::Literal('\n')
    } else if ch == 'r' {
        AstNode::Literal('\r')
    } else if ch == 't' {
        AstNode::Literal('\t')
    } else {
        AstNode::Literal(ch)
    }
}

/// The class item for `\c` inside a character class.
fn escape_item(ch: char) -> (item: ClassItem)
    ensures
        item == class_escaped(ch),
{
    if ch == 'd' {
        ClassItem::Shorthand(ShorthandKind::Digit)
    } else if ch == 'D' {
        ClassItem::Shorthand(ShorthandKind::NonDigit)
    } else if ch == 'w' {
        ClassItem::Shorthand(ShorthandKind::Word)
    } else if ch == 'W' {
        ClassItem::Shorthand(ShorthandKind::NonWord)
    } else if ch == 's' {
        ClassItem::Shorthand(ShorthandKind::Space)
    } else if ch == 'S' {
        ClassItem::Shorthand(ShorthandKind::NonSpace)
    } else if ch == 'n' {
        ClassItem::Literal('\n')
    } else if ch == 'r' {
        ClassItem::Literal('\r')
    } else if ch == 't' {
        ClassItem::Literal('\t')
    } else {
        ClassItem::Literal(ch)
    }
}

/// The values of the decimal digits.
proof fn lemma_digit_values()
    ensures
        digit_value('0') == 0,
        digit_value('1') == 1,
        digit_value('2') == 2,
        digit_value('3') == 3,
        digit_value('4') == 4,
        digit_value('5') == 5,
        digit_value('6') == 6,
        digit_value('7') == 7,
        digit_value('8') == 8,
        digit_value('9') == 9,
{
}

/// Whether a decimal digit stands at `i`.
spec fn is_digit_at(s: Seq<char>, i: int) -> bool {
    0 <= i < s.len() && crate::classes::is_digit(s[i])
}

impl Parser {
    /// The pattern being parsed.
    pub closed spec fn pattern(&self) -> Seq<char> {
        self.chars@
    }

    /// The cursor: the position of the next character to read.
    pub closed spec fn position(&self) -> int {
        self.pos as int
    }

    /// The number of capturing groups opened so far.
    pub closed spec fn groups(&self) -> nat {
        self.group_count as nat
    }

    /// The cursor lies within the pattern, and no more groups were opened than characters
    /// were read.
    pub closed spec fn wf(&self) -> bool {
        self.group_count <= self.pos <= self.chars.len()
    }

    /// The parser has moved on from `before` to the end of `step`.
    pub open spec fn stands_at<T>(&self, before: &Parser, step: Step<T>) -> bool {
        &&& self.wf()
        &&& self.pattern() == before.pattern()
        &&& self.position() == step.pos
        &&& self.groups() == step.groups
        &&& before.position() <= step.pos
        &&& before.groups() <= step.groups
    }

    /// The parser has not left the pattern of `before`, and has not gone back.
    pub open spec fn follows(&self, before: &Parser) -> bool {
        &&& self.wf()
        &&& self.pattern() == before.pattern()
        &&& before.position() <= self.position()
        &&& before.groups() <= self.groups()
    }

    /// A parser has opened no more groups than it has read characters, and has read none
    /// beyond the end of its pattern.
    pub proof fn lemma_within(&self)
        requires
            self.wf(),
        ensures
            self.groups() <= self.position() <= self.pattern().len(),
    {
    }

    /// A parser at the start of `pattern`.
    pub fn new(pattern: &str) -> (parser: Parser)
        ensures
            parser.wf(),
            parser.pattern() == pattern@,
            parser.position() == 0,
            parser.groups() == 0,
    {
        Parser { chars: chars_of(pattern), pos: 0, group_count: 0 }
    }

    /// Returns the number of capturing groups opened so far.
    pub fn group_count(&self) -> (count: usize)
        ensures
            count == self.groups(),
    {
        self.group_count
    }

    /// The character at the cursor, if the pattern has not ended.
    fn peek(&self) -> (next: Option<char>)
        requires
            self.wf(),
        ensures
            next == at(self.pattern(), self.position()),
            next matches Some(c) ==> is_scalar(c),
    {
        if self.pos < self.chars.len() {
            let ch = self.chars[self.pos];
            proof {
                lemma_char_is_scalar(ch);
            }
            Some(ch)
        } else {
            None
        }
    }

    /// The character `ahead` places after the cursor.
    fn look(&self, ahead: usize) -> (next: Option<char>)
        requires
            self.wf(),
        ensures
            next == at(self.pattern(), self.position() + ahead),
            next matches Some(c) ==> is_scalar(c),
    {
        if ahead < self.chars.len() - self.pos {
            let ch = self.chars[self.pos + ahead];
            proof {
                lemma_char_is_scalar(ch);
            }
            Some(ch)
        } else {
            None
        }
    }

    /// Reads the character at the cursor, and moves the cursor past it.
    fn advance(&mut self) -> (next: Option<char>)
        requires
            old(self).wf(),
        ensures
            final(self).wf(),
            final(self).pattern() == old(self).pattern(),
            final(self).groups() == old(self).groups(),
            next == at(old(self).pattern(), old(self).position()),
            next matches Some(c) ==> is_scalar(c),
            final(self).position() == old(self).position() + if next is Some {
                1int
            } else {
                0int
            },
    {
        if self.pos < self.chars.len() {
            let ch = self.chars[self.pos];
            proof {
                lemma_char_is_scalar(ch);
            }
            self.pos += 1;
            Some(ch)
        } else {
            None
        }
    }

    /// Reads the character at the cursor, which has to be `expected`.
    fn expect(&mut self, expected: char) -> (r: Result<(), ParseError>)
        requires
            old(self).wf(),
        ensures
            final(self).follows(old(self)),
            final(self).groups() == old(self).groups(),
            at(old(self).pattern(), old(self).position()) == Some(expected) ==> r is Ok
                && final(self).position() == old(self).position() + 1,
            at(old(self).pattern(), old(self).position()) != Some(expected) ==> r == Err::<
                (),
                ParseError,
            >(
                ParseError::Expected {
                    expected,
                    found: at(old(self).pattern(), old(self).position()),
                    position: old(self).position() as usize,
                },
            ),
    {
        let position = self.pos;
        match self.advance() {
            Some(c) => {
                if c == expected {
                    Ok(())
                } else {
                    Err(ParseError::Expected { expected, found: Some(c), position })
                }
            },
            None => Err(ParseError::Expected { expected, found: None, position }),
        }
    }

    /// Reads a non-negative decimal integer.
    fn parse_number(&mut self) -> (value: Option<usize>)
        requires
            old(self).wf(),
        ensures
            final(self).follows(old(self)),
            final(self).groups() == old(self).groups(),
            match number(old(self).pattern(), old(self).position()) {
                Some((n, end)) => value == Some(n as usize) && final(self).position() == end,
                None => value is None,
            },
    {
        let ghost s = self.chars@;
        let start = self.pos;
        let mut value: usize = 0;
        let mut overflow = false;
        while self.pos < self.chars.len() && is_digit_char(self.chars[self.pos])
            invariant
                self.wf(),
                self.chars@ == s,
                self.group_count == old(self).group_count,
                start == old(self).pos,
                start <= self.pos <= self.chars.len(),
                forall|i: int| start <= i < self.pos ==> is_digit_at(s, i),
                !overflow ==> value == decimal_value(s.subrange(start as int, self.pos as int)),
                overflow ==> decimal_value(s.subrange(start as int, self.pos as int)) > usize::MAX,
            decreases self.chars.len() - self.pos,
        {
            let ch = self.chars[self.pos];
            let d: usize = if ch == '0' {
                0
            } else if ch == '1' {
                1
            } else if ch == '2' {
                2
            } else if ch == '3' {
                3
            } else if ch == '4' {
                4
            } else if ch == '5' {
                5
            } else if ch == '6' {
                6
            } else if ch == '7' {
                7
            } else if ch == '8' {
                8
            } else {
                9
            };
            proof {
                let upto = s.subrange(start as int, self.pos as int);
                let next = s.subrange(start as int, self.pos + 1);
                assert(next.drop_last() == upto);
            }
            if !overflow {
                if value > (usize::MAX - d) / 10 {
                    overflow = true;
                } else {
                    value = value * 10 + d;
                }
            }
            self.pos += 1;
        }
        proof {
            lemma_digits_end_from(s, start as int, self.pos as int);
        }
        if self.pos == start || overflow {
            None
        } else {
            Some(value)
        }
    }

    /// Reads what stands between the braces of a quantifier, the closing brace, and the
    /// `?` that may follow it.
    fn try_parse_brace_contents(&mut self) -> (r: Option<(QuantifierKind, bool)>)
        requires
            old(self).wf(),
        ensures
            final(self).follows(old(self)),
            final(self).groups() == old(self).groups(),
            match brace(old(self).pattern(), old(self).position()) {
                Some((kind, greedy, end)) => r matches Some(found) && found.0@ == kind && found.1
                    == greedy && final(self).position() == end,
                None => r is None,
            },
    {
        let ghost s = self.chars@;
        let ghost start = self.pos as int;
        let n = match self.parse_number() {
            Some(n) => n,
            None => {
                return None;
            },
        };
        let kind = if self.peek() == Some(',') {
            self.advance();
            if self.peek() == Some('}') {
                QuantifierKind::AtLeast(n)
            } else {
                match self.parse_number() {
                    Some(m) => QuantifierKind::Range(n, m),
                    None => {
                        return None;
                    },
                }
            }
        } else {
            QuantifierKind::Exact(n)
        };
        match self.expect('}') {
            Ok(_) => {},
            Err(_) => {
                return None;
            },
        }
        let greedy = if self.peek() == Some('?') {
            self.advance();
            false
        } else {
            true
        };
        Some((kind, greedy))
    }

    /// Reads an escape outside a character class.
    fn parse_escape(&mut self) -> (r: Result<AstNode, ParseError>)
        requires
            old(self).wf(),
            at(old(self).pattern(), old(self).position()) == Some('\\'),
        ensures
            final(self).follows(old(self)),
            match escape(old(self).pattern(), old(self).position(), old(self).groups()) {
                Ok(step) => r matches Ok(node) && node@ == step.value && final(self).stands_at(
                    old(self),
                    step,
                ) && step.pos > old(self).position(),
                Err(failure) => r == Err::<AstNode, ParseError>(failure.error) && final(self).groups()
                    == failure.groups,
            },
    {
        self.advance();
        let ch = match self.advance() {
            None => {
                return Err(ParseError::DanglingEscape { position: self.pos });
            },
            Some(ch) => ch,
        };
        let node = escape_node(ch);
        Ok(node)
    }

    /// Reads a character class.
    fn parse_char_class(&mut self) -> (r: Result<AstNode, ParseError>)
        requires
            old(self).wf(),
            at(old(self).pattern(), old(self).position()) == Some('['),
        ensures
            final(self).follows(old(self)),
            match class(old(self).pattern(), old(self).position(), old(self).groups()) {
                Ok(step) => r matches Ok(node) && node@ == step.value && final(self).stands_at(
                    old(self),
                    step,
                ) && step.pos > old(self).position(),
                Err(failure) => r == Err::<AstNode, ParseError>(failure.error) && final(self).groups()
                    == failure.groups,
            },
    {
        let ghost s = self.chars@;
        let ghost start = self.pos as int;
        self.advance();
        let negated = if self.peek() == Some('^') {
            self.advance();
            true
        } else {
            false
        };
        let mut items: Vec<ClassItem> = Vec::new();
        let leading = self.peek() == Some(']');
        if leading {
            self.advance();
            items.push(ClassItem::Literal(']'));
        }
        let ghost goal = class_items(s, self.pos as int, items@);
        loop
            invariant
                self.wf(),
                self.chars@ == s,
                s == old(self).chars@,
                self.group_count == old(self).group_count,
                start < self.pos,
                start == old(self).pos,
                class_items(s, self.pos as int, items@) == goal,
                goal == class_items(
                    s,
                    start + if negated {
                        2int
                    } else {
                        1int
                    } + if leading {
                        1int
                    } else {
                        0int
                    },
                    if leading {
                        seq![ClassItem::Literal(']')]
                    } else {
                        Seq::empty()
                    },
                ),
                negated == (at(s, start + 1) == Some('^')),
                leading == (at(
                    s,
                    start + if negated {
                        2int
                    } else {
                        1int
                    },
                ) == Some(']')),
            decreases self.chars.len() - self.pos,
        {
            let ch = match self.peek() {
                None => {
                    return Err(ParseError::UnterminatedClass { position: self.pos });
                },
                Some(ch) => ch,
            };
            if ch == ']' {
                self.advance();
                return Ok(AstNode::CharClass { ranges: items, negated });
            }
            if ch == '\\' {
                self.advance();
                let e = match self.advance() {
                    None => {
                        return Err(ParseError::ClassEscapeAtEnd { position: self.pos });
                    },
                    Some(e) => e,
                };
                let item = escape_item(e);
                items.push(item);
            } else {
                self.advance();
                let ranged = match self.look(1) {
                    Some(after) => self.peek() == Some('-') && after != ']',
                    None => false,
                };
                if ranged {
                    self.advance();
                    let end_ch = match self.advance() {
                        None => {
                            return Err(ParseError::RangeAtEnd { position: self.pos });
                        },
                        Some(c) => {
                            if c == '\\' {
                                match self.advance() {
                                    None => {
                                        return Err(ParseError::RangeAtEnd { position: self.pos });
                                    },
                                    Some(e) => e,
                                }
                            } else {
                                c
                            }
                        },
                    };
                    items.push(ClassItem::Range(ch, end_ch));
                } else {
                    items.push(ClassItem::Literal(ch));
                }
            }
        }
    }

    /// Reads the quantifier in braces that may follow `node`. Where the braces hold no
    /// quantifier the cursor goes back to the `{`, which is then read as a literal.
    fn parse_brace_quantifier(&mut self, node: AstNode) -> (r: AstNode)
        requires
            old(self).wf(),
            at(old(self).pattern(), old(self).position()) == Some('{'),
        ensures
            final(self).follows(old(self)),
            final(self).groups() == old(self).groups(),
            match brace(old(self).pattern(), old(self).position() + 1) {
                Some((kind, greedy, end)) => r@ == (Ast::Quantifier {
                    node: Box::new(node@),
                    kind,
                    greedy,
                }) && final(self).position() == end,
                None => r@ == node@ && final(self).position() == old(self).position(),
            },
    {
        let save_pos = self.pos;
        self.advance();
        match self.try_parse_brace_contents() {
            Some((kind, greedy)) => AstNode::Quantifier { node: Box::new(node), kind, greedy },
            None => {
                self.pos = save_pos;
                node
            },
        }
    }

    /// Reads the opening of a group and tells what the group is.
    fn parse_opening(&mut self) -> (r: Result<Opening, ParseError>)
        requires
            old(self).wf(),
            at(old(self).pattern(), old(self).position()) == Some('('),
        ensures
            final(self).follows(old(self)),
            match opening(old(self).pattern(), old(self).position(), old(self).groups()) {
                Ok((kind, start)) => r matches Ok(found) && kind_of(found) == kind && final(self).position()
                    == start && start > old(self).position() && final(self).groups() == if kind is Capturing {
                    old(self).groups() + 1
                } else {
                    old(self).groups()
                },
                Err(error) => r == Err::<Opening, ParseError>(error) && final(self).groups() == old(
                    self,
                ).groups(),
            },
    {
        self.advance();
        if self.peek() == Some('?') {
            self.advance();
            let kind = self.peek();
            if kind == Some(':') {
                self.advance();
                Ok(Opening::NonCapturing)
            } else if kind == Some('=') {
                self.advance();
                Ok(Opening::Lookahead(true))
            } else if kind == Some('!') {
                self.advance();
                Ok(Opening::Lookahead(false))
            } else if kind == Some('<') {
                self.advance();
                let side = self.peek();
                if side == Some('=') {
                    self.advance();
                    Ok(Opening::Lookbehind(true))
                } else if side == Some('!') {
                    self.advance();
                    Ok(Opening::Lookbehind(false))
                } else {
                    Err(ParseError::InvalidLookbehind { position: self.pos })
                }
            } else {
                Err(ParseError::InvalidGroup { position: self.pos })
            }
        } else {
            self.group_count += 1;
            Ok(Opening::Capturing(self.group_count))
        }
    }

    /// Reads a group.
    fn parse_group(&mut self) -> (r: Result<AstNode, ParseError>)
        requires
            old(self).wf(),
            at(old(self).pattern(), old(self).position()) == Some('('),
        ensures
            final(self).follows(old(self)),
            match group(old(self).pattern(), old(self).position(), old(self).groups()) {
                Ok(step) => r matches Ok(node) && node@ == step.value && final(self).stands_at(
                    old(self),
                    step,
                ) && step.pos > old(self).position(),
                Err(failure) => r == Err::<AstNode, ParseError>(failure.error) && final(self).groups()
                    == failure.groups,
            },
        decreases old(self).pattern().len() - old(self).position(), 0nat,
    {
        let ghost s = self.chars@;
        let ghost start = self.pos as int;
        let ghost groups = self.group_count as nat;
        let kind = match self.parse_opening() {
            Ok(kind) => kind,
            Err(error) => {
                return Err(error);
            },
        };
        let node = match self.parse_alternation() {
            Ok(node) => node,
            Err(error) => {
                return Err(error);
            },
        };
        match self.expect(')') {
            Ok(_) => {},
            Err(error) => {
                return Err(error);
            },
        }
        let node = match kind {
            Opening::Capturing(index) => AstNode::Group { index, node: Box::new(node) },
            Opening::NonCapturing => AstNode::NonCapturingGroup { node: Box::new(node) },
            Opening::Lookahead(positive) => AstNode::Lookahead { node: Box::new(node), positive },
            Opening::Lookbehind(positive) => AstNode::Lookbehind { node: Box::new(node), positive },
        };
        Ok(node)
    }

    /// Reads a single atom.
    fn parse_atom(&mut self) -> (r: Result<AstNode, ParseError>)
        requires
            old(self).wf(),
        ensures
            final(self).follows(old(self)),
            match atom(old(self).pattern(), old(self).position(), old(self).groups()) {
                Ok(step) => r matches Ok(node) && node@ == step.value && final(self).stands_at(
                    old(self),
                    step,
                ) && step.pos > old(self).position(),
                Err(failure) => r == Err::<AstNode, ParseError>(failure.error) && final(self).groups()
                    == failure.groups,
            },
        decreases old(self).pattern().len() - old(self).position(), 1nat,
    {
        let ch = match self.peek() {
            None => {
                return Err(ParseError::UnexpectedEnd { position: self.pos });
            },
            Some(ch) => ch,
        };
        let ghost s = self.chars@;
        let ghost start = self.pos as int;
        let ghost groups = self.group_count as nat;
        if ch == '(' {
            self.parse_group()
        } else if ch == '[' {
            self.parse_char_class()
        } else if ch == '.' {
            self.advance();
            Ok(AstNode::Dot)
        } else if ch == '^' {
            self.advance();
            Ok(AstNode::Anchor(AnchorKind::Start))
        } else if ch == '$' {
            self.advance();
            Ok(AstNode::Anchor(AnchorKind::End))
        } else if ch == '\\' {
            self.parse_escape()
        } else {
            self.advance();
            Ok(AstNode::Literal(ch))
        }
    }

    /// Reads an atom and the quantifier that may follow it.
    fn parse_quantified(&mut self) -> (r: Result<AstNode, ParseError>)
        requires
            old(self).wf(),
        ensures
            final(self).follows(old(self)),
            match quantified(old(self).pattern(), old(self).position(), old(self).groups()) {
                Ok(step) => r matches Ok(node) && node@ == step.value && final(self).stands_at(
                    old(self),
                    step,
                ) && step.pos > old(self).position(),
                Err(failure) => r == Err::<AstNode, ParseError>(failure.error) && final(self).groups()
                    == failure.groups,
            },
        decreases old(self).pattern().len() - old(self).position(), 2nat,
    {
        let ghost groups = self.group_count as nat;
        let node = match self.parse_atom() {
            Ok(node) => node,
            Err(error) => {
                return Err(error);
            },
        };
        let next = self.peek();
        if next == Some('*') || next == Some('+') || next == Some('?') {
            self.advance();
            let kind = if next == Some('*') {
                QuantifierKind::Star
            } else if next == Some('+') {
                QuantifierKind::Plus
            } else {
                QuantifierKind::Question
            };
            let greedy = if self.peek() == Some('?') {
                self.advance();
                false
            } else {
                true
            };
            Ok(AstNode::Quantifier { node: Box::new(node), kind, greedy })
        } else if next == Some('{') {
            let quantified = self.parse_brace_quantifier(node);
            Ok(quantified)
        } else {
            Ok(node)
        }
    }

    /// Reads a concatenation.
    fn parse_concat(&mut self) -> (r: Result<AstNode, ParseError>)
        requires
            old(self).wf(),
        ensures
            final(self).follows(old(self)),
            match concat(old(self).pattern(), old(self).position(), old(self).groups()) {
                Ok(step) => r matches Ok(node) && node@ == step.value && final(self).stands_at(
                    old(self),
                    step,
                ),
                Err(failure) => r == Err::<AstNode, ParseError>(failure.error) && final(self).groups()
                    == failure.groups,
            },
        decreases old(self).pattern().len() - old(self).position(), 4nat,
    {
        let ghost s = self.chars@;
        let ghost start = self.pos as int;
        let ghost groups = self.group_count as nat;
        let ghost goal = sequence(s, start, groups, Seq::empty());
        let mut nodes: Vec<AstNode> = Vec::new();
        loop
            invariant
                self.follows(old(self)),
                s == old(self).pattern(),
                start == old(self).position(),
                groups == old(self).groups(),
                sequence(s, self.position(), self.groups(), model_all(nodes@)) == goal,
                goal == sequence(s, start, groups, Seq::empty()),
            ensures
                goal == Ok::<Step<Seq<Ast>>, Failure>(
                    Step {
                        value: model_all(nodes@),
                        pos: self.position(),
                        groups: self.groups(),
                    },
                ),
            decreases self.pattern().len() - self.position(),
        {
            let ch = match self.peek() {
                None => {
                    break ;
                },
                Some(ch) => ch,
            };
            if ch == ')' || ch == '|' {
                break ;
            }
            let node = match self.parse_quantified() {
                Ok(node) => node,
                Err(error) => {
                    return Err(error);
                },
            };
            proof {
                assert(nodes@.push(node).drop_last() == nodes@);
            }
            nodes.push(node);
        }
        proof {
            lemma_model_all(nodes@);
        }
        if nodes.len() == 1 {
            let node = nodes.pop().unwrap();
            Ok(node)
        } else {
            Ok(AstNode::Concat(nodes))
        }
    }

    /// Reads an alternation.
    fn parse_alternation(&mut self) -> (r: Result<AstNode, ParseError>)
        requires
            old(self).wf(),
        ensures
            final(self).follows(old(self)),
            match alternation(old(self).pattern(), old(self).position(), old(self).groups()) {
                Ok(step) => r matches Ok(node) && node@ == step.value && final(self).stands_at(
                    old(self),
                    step,
                ),
                Err(failure) => r == Err::<AstNode, ParseError>(failure.error) && final(self).groups()
                    == failure.groups,
            },
        decreases old(self).pattern().len() - old(self).position(), 6nat,
    {
        let ghost s = self.chars@;
        let ghost start = self.pos as int;
        let ghost groups = self.group_count as nat;
        let first = match self.parse_concat() {
            Ok(node) => node,
            Err(error) => {
                return Err(error);
            },
        };
        let mut nodes: Vec<AstNode> = Vec::new();
        nodes.push(first);
        let ghost goal = branches(s, self.position(), self.groups(), model_all(nodes@));
        proof {
            lemma_model_all(nodes@);
            assert(model_all(nodes@) =~= seq![first@]);
        }
        loop
            invariant
                self.follows(old(self)),
                s == old(self).pattern(),
                start == old(self).position(),
                groups == old(self).groups(),
                nodes.len() >= 1,
                branches(s, self.position(), self.groups(), model_all(nodes@)) == goal,
                alternation(s, start, groups) == match goal {
                    Ok(all) => Ok::<Step<Ast>, Failure>(
                        Step {
                            value: if all.value.len() == 1 {
                                all.value[0]
                            } else {
                                Ast::Alternation(all.value)
                            },
                            pos: all.pos,
                            groups: all.groups,
                        },
                    ),
                    Err(error) => Err(error),
                },
            ensures
                goal == Ok::<Step<Seq<Ast>>, Failure>(
                    Step {
                        value: model_all(nodes@),
                        pos: self.position(),
                        groups: self.groups(),
                    },
                ),
            decreases self.pattern().len() - self.position(),
        {
            if self.peek() != Some('|') {
                break ;
            }
            self.advance();
            let node = match self.parse_concat() {
                Ok(node) => node,
                Err(error) => {
                    return Err(error);
                },
            };
            proof {
                assert(nodes@.push(node).drop_last() == nodes@);
            }
            nodes.push(node);
        }
        proof {
            lemma_model_all(nodes@);
        }
        if nodes.len() == 1 {
            let node = nodes.pop().unwrap();
            Ok(node)
        } else {
            Ok(AstNode::Alternation(nodes))
        }
    }

    /// Parses the pattern from the cursor on and returns its syntax tree, or the text of
    /// the diagnostic for the first error.
    pub fn parse(&mut self) -> (r: Result<AstNode, String>)
        requires
            old(self).wf(),
        ensures
            final(self).follows(old(self)),
            match pattern_from(old(self).pattern(), old(self).position(), old(self).groups()) {
                Ok(step) => r matches Ok(node) && node@ == step.value && final(self).stands_at(
                    old(self),
                    step,
                ) && step.pos == old(self).pattern().len(),
                Err(failure) => r matches Err(message) && message@ == failure.error.text()
                    && final(self).groups() == failure.groups,
            },
            r matches Ok(node) ==> node@.well_formed(final(self).groups()) && node@.layered(
                final(self).groups(),
            ) && node@.capturing() == final(self).groups() - old(self).groups(),
    {
        proof {
            lemma_alternation(self.chars@, self.pos as int, self.group_count as nat);
            match alternation(self.chars@, self.pos as int, self.group_count as nat) {
                Ok(step) => {
                    lemma_numbered_widens(
                        step.value,
                        self.group_count as nat,
                        step.groups,
                        0,
                        step.groups,
                    );
                },
                Err(_) => {},
            }
        }
        let node = match self.parse_alternation() {
            Ok(node) => node,
            Err(error) => {
                return Err(error.message());
            },
        };
        if self.pos < self.chars.len() {
            let error = ParseError::Trailing { found: self.chars[self.pos], position: self.pos };
            return Err(error.message());
        }
        Ok(node)
    }
}

} // verus!
