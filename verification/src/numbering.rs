//! How the grammar numbers capturing groups.
//!
//! Every production leaves the cursor within the pattern and not before where it was.
//! The groups of the tree it returns are numbered from the count it was given on, one
//! number for each `(` that opens a capturing group, in the order of the `(`.

use crate::ast::{
    all_layered, all_numbered, capturing_all, lemma_all_layered_widens,
    lemma_all_numbered_widens, lemma_layered_nodes, lemma_numbered_nodes,
    lemma_numbered_widens, Ast, ClassItem, Repeat,
};
use crate::classes::is_digit;
use crate::error::ParseError;
use crate::grammar::{
    alternation, at, atom, brace, branches, class, class_items, concat, digits_end, escape,
    group, number, opening, pattern, quantified, sequence, wrapped,
    GroupKind, Step,
};
use crate::text::lemma_char_is_scalar;
use vstd::prelude::*;

verus! {

/// Whether the character at `i` is a `(` that no `?` follows.
pub open spec fn opens_group(s: Seq<char>, i: int) -> bool {
    at(s, i) == Some('(') && at(s, i + 1) != Some('?')
}

/// Number of positions from `from` up to, but not including, `to` that hold a `(` which
/// no `?` follows.
pub open spec fn openers(s: Seq<char>, from: int, to: int) -> nat
    decreases to - from,
{
    if to <= from {
        0
    } else {
        openers(s, from, to - 1) + if opens_group(s, to - 1) {
            1nat
        } else {
            0nat
        }
    }
}

/// Whether the character at `i` is neither a backslash nor a `[`.
pub open spec fn is_plain(s: Seq<char>, i: int) -> bool {
    at(s, i) != Some('\\') && at(s, i) != Some('[')
}

/// No backslash and no `[` stands at a position from `from` up to, but not including,
/// `to`.
pub open spec fn plain(s: Seq<char>, from: int, to: int) -> bool {
    forall|i: int| from <= i < to ==> #[trigger] is_plain(s, i)
}

/// Where the token that starts at `pos` ends: an escape is a backslash and the character
/// after it, a character class runs up to and including the `]` that closes it, or to
/// the end of the pattern if none does, and any other character is a token by itself.
pub open spec fn token_end(s: Seq<char>, pos: int) -> int {
    if at(s, pos) == Some('\\') {
        pos + 2
    } else if at(s, pos) == Some('[') {
        match class(s, pos, 0) {
            Ok(step) => step.pos,
            Err(_) => s.len() as int,
        }
    } else {
        pos + 1
    }
}

/// Read token by token from `pos` on, the pattern has no `(` inside an escape or a
/// character class but such as a `?` follows: no `(` that no `?` follows stands for
/// itself. A backslash at the very end of the pattern is the last token.
#[verifier::opaque]
pub open spec fn clear(s: Seq<char>, pos: int) -> bool
    decreases s.len() - pos,
{
    if pos < 0 || pos >= s.len() {
        true
    } else {
        let end = token_end(s, pos);
        if end > s.len() {
            true
        } else if pos < end && (is_plain(s, pos) || openers(s, pos, end) == 0) {
            clear(s, end)
        } else {
            false
        }
    }
}

/// What holds of a production that read `step` from `pos` with `groups` groups open.
pub open spec fn sound(s: Seq<char>, pos: int, groups: nat, step: Step<Ast>) -> bool {
    &&& pos <= step.pos <= s.len()
    &&& groups <= step.groups
    &&& step.value.numbered(groups, step.groups)
    &&& step.value.layered(step.groups)
    &&& step.value.capturing() == step.groups - groups
    &&& clear(s, pos) ==> clear(s, step.pos) && openers(s, pos, step.pos) == step.groups - groups
}

/// As `sound`, for a production that reads a list of nodes.
pub open spec fn sound_all(s: Seq<char>, pos: int, groups: nat, step: Step<Seq<Ast>>) -> bool {
    &&& pos <= step.pos <= s.len()
    &&& groups <= step.groups
    &&& all_numbered(step.value, groups, step.groups)
    &&& all_layered(step.value, step.groups)
    &&& capturing_all(step.value, step.value.len()) == step.groups - groups
    &&& clear(s, pos) ==> clear(s, step.pos) && openers(s, pos, step.pos) == step.groups - groups
}

/// The openers of two adjoining stretches add up.
pub proof fn lemma_openers_split(s: Seq<char>, from: int, mid: int, to: int)
    requires
        from <= mid <= to,
    ensures
        openers(s, from, to) == openers(s, from, mid) + openers(s, mid, to),
    decreases to - mid,
{
    if mid < to {
        lemma_openers_split(s, from, mid, to - 1);
    }
}

/// A stretch without `(` has no opener.
pub proof fn lemma_openers_none(s: Seq<char>, from: int, to: int)
    requires
        forall|i: int| from <= i < to ==> at(s, i) != Some('('),
    ensures
        openers(s, from, to) == 0,
    decreases to - from,
{
    if from < to {
        lemma_openers_none(s, from, to - 1);
    }
}

/// Over a stretch without backslash and without `[` every character is a token by
/// itself: the pattern is clear from its start on exactly if it is from its end on.
proof fn lemma_clear_plain(s: Seq<char>, from: int, to: int)
    requires
        0 <= from <= to <= s.len(),
        plain(s, from, to),
    ensures
        clear(s, from) == clear(s, to),
    decreases to - from,
{
    reveal_with_fuel(clear, 1);
    if from < to {
        assert(is_plain(s, from));
        lemma_clear_plain(s, from + 1, to);
    }
}

/// The digits from `pos` on end within the pattern, and up to there stand digits only.
proof fn lemma_digits(s: Seq<char>, pos: int)
    requires
        0 <= pos <= s.len(),
    ensures
        pos <= digits_end(s, pos) <= s.len(),
        forall|i: int| pos <= i < digits_end(s, pos) ==> is_digit(#[trigger] s[i]),
    decreases s.len() - pos,
{
    if pos < s.len() && is_digit(s[pos]) {
        lemma_digits(s, pos + 1);
    }
}

/// A number is read from digits only, and from at least one.
proof fn lemma_number(s: Seq<char>, pos: int)
    requires
        0 <= pos <= s.len(),
    ensures
        number(s, pos) matches Some((n, end)) ==> pos < end <= s.len() && plain(s, pos, end)
            && forall|i: int| pos <= i < end ==> at(s, i) != Some('('),
{
    lemma_digits(s, pos);
    let end = digits_end(s, pos);
    assert forall|i: int| pos <= i < end implies at(s, i) != Some('(') && is_plain(s, i) by {}
}

/// A brace quantifier is read from at least one character, none of which is `(`.
proof fn lemma_brace(s: Seq<char>, pos: int)
    requires
        0 <= pos <= s.len(),
    ensures
        brace(s, pos) matches Some((kind, greedy, end)) ==> pos < end <= s.len() && plain(
            s,
            pos,
            end,
        ) && forall|i: int| pos <= i < end ==> at(s, i) != Some('('),
{
    lemma_number(s, pos);
    match number(s, pos) {
        Some((n, p)) => {
            if at(s, p) == Some(',') && at(s, p + 1) != Some('}') {
                lemma_number(s, p + 1);
            }
        },
        None => {},
    }
}

/// The items of a class end at a `]` within the pattern.
proof fn lemma_class_items(s: Seq<char>, pos: int, items: Seq<ClassItem>)
    requires
        0 <= pos <= s.len(),
    ensures
        class_items(s, pos, items) matches Ok((all, end)) ==> pos <= end < s.len(),
    decreases s.len() - pos,
{
    match at(s, pos) {
        None => {},
        Some(c) => {
            lemma_char_is_scalar(c);
            if c == ']' {
                // The class ends here.
            } else if c == '\\' {
                match at(s, pos + 1) {
                    None => {},
                    Some(e) => {
                        lemma_char_is_scalar(e);
                        lemma_class_items(s, pos + 2, items.push(crate::grammar::class_escaped(e)));
                    },
                }
            } else if at(s, pos + 1) == Some('-') && pos + 2 < s.len() && s[pos + 2] != ']' {
                if s[pos + 2] == '\\' {
                    match at(s, pos + 3) {
                        None => {},
                        Some(e) => {
                            lemma_char_is_scalar(e);
                            lemma_class_items(s, pos + 4, items.push(ClassItem::Range(c, e)));
                        },
                    }
                } else {
                    lemma_char_is_scalar(s[pos + 2]);
                    lemma_class_items(s, pos + 3, items.push(ClassItem::Range(c, s[pos + 2])));
                }
            } else {
                lemma_class_items(s, pos + 1, items.push(ClassItem::Literal(c)));
            }
        },
    }
}

/// A class is sound: it opens no group.
proof fn lemma_class(s: Seq<char>, pos: int, groups: nat)
    requires
        0 <= pos < s.len(),
        s[pos] == '[',
    ensures
        class(s, pos, groups) matches Ok(step) ==> sound(s, pos, groups, step) && pos < step.pos,
{
    let negated = at(s, pos + 1) == Some('^');
    let p = if negated {
        pos + 2
    } else {
        pos + 1
    };
    let leading = at(s, p) == Some(']');
    let first = if leading {
        seq![ClassItem::Literal(']')]
    } else {
        Seq::empty()
    };
    let from = if leading {
        p + 1
    } else {
        p
    };
    reveal_with_fuel(clear, 1);
    if from <= s.len() {
        lemma_class_items(s, from, first);
    }
}

/// An escape is sound: it opens no group.
proof fn lemma_escape(s: Seq<char>, pos: int, groups: nat)
    requires
        0 <= pos < s.len(),
        s[pos] == '\\',
    ensures
        escape(s, pos, groups) matches Ok(step) ==> sound(s, pos, groups, step) && pos < step.pos,
{
    match at(s, pos + 1) {
        None => {},
        Some(c) => {
            lemma_char_is_scalar(c);
        },
    }
    reveal_with_fuel(clear, 1);
}

/// An alternation is sound.
pub proof fn lemma_alternation(s: Seq<char>, pos: int, groups: nat)
    requires
        0 <= pos <= s.len(),
    ensures
        alternation(s, pos, groups) matches Ok(step) ==> sound(s, pos, groups, step),
    decreases s.len() - pos, 6nat,
{
    lemma_concat(s, pos, groups);
    match concat(s, pos, groups) {
        Ok(first) => {
            if pos <= first.pos <= s.len() {
                let found = seq![first.value];
                assert(capturing_all(found, 1) == first.value.capturing()) by {
                    assert(capturing_all(found, 0) == 0);
                }
                lemma_branches(s, first.pos, first.groups, found, pos, groups);
                match branches(s, first.pos, first.groups, found) {
                    Ok(all) => {
                        lemma_collapse(s, pos, groups, all, true);
                    },
                    Err(_) => {},
                }
            }
        },
        Err(_) => {},
    }
}

/// A list of nodes that is sound stays sound when a single node stands for itself and
/// several stand under one concatenation or alternation.
proof fn lemma_collapse(
    s: Seq<char>,
    pos: int,
    groups: nat,
    all: Step<Seq<Ast>>,
    alternatives: bool,
)
    requires
        sound_all(s, pos, groups, all),
    ensures
        sound(
            s,
            pos,
            groups,
            Step {
                value: if all.value.len() == 1 {
                    all.value[0]
                } else if alternatives {
                    Ast::Alternation(all.value)
                } else {
                    Ast::Concat(all.value)
                },
                pos: all.pos,
                groups: all.groups,
            },
        ),
{
    let nodes = all.value;
    lemma_numbered_nodes(nodes, groups, all.groups);
    lemma_layered_nodes(nodes, all.groups);
    if nodes.len() == 1 {
        assert(capturing_all(nodes, 1) == nodes[0].capturing()) by {
            assert(capturing_all(nodes, 0) == 0);
        }
    }
}

/// A list of nodes that is sound stays sound when a sound node is added to it.
proof fn lemma_extend(
    s: Seq<char>,
    start: int,
    origin: nat,
    found: Seq<Ast>,
    pos: int,
    groups: nat,
    from: int,
    next: Step<Ast>,
)
    requires
        sound_all(s, start, origin, Step { value: found, pos, groups }),
        pos <= from,
        sound(s, from, groups, next),
        clear(s, pos) ==> clear(s, from) && openers(s, pos, from) == 0,
    ensures
        sound_all(
            s,
            start,
            origin,
            Step { value: found.push(next.value), pos: next.pos, groups: next.groups },
        ),
{
    lemma_all_numbered_widens(found, origin, groups, origin, next.groups);
    lemma_numbered_widens(next.value, groups, next.groups, origin, next.groups);
    lemma_all_layered_widens(found, groups, next.groups);
    lemma_capturing_push(found, next.value);
    if clear(s, start) {
        lemma_openers_split(s, start, pos, next.pos);
        lemma_openers_split(s, pos, from, next.pos);
    }
}

/// Adding a node to a list adds its capturing groups to those of the list.
proof fn lemma_capturing_push(found: Seq<Ast>, node: Ast)
    ensures
        capturing_all(found.push(node), found.len() + 1) == capturing_all(found, found.len())
            + node.capturing(),
{
    lemma_capturing_prefix(found, node, found.len());
}

/// The capturing groups of a prefix of a list do not depend on what follows the prefix.
proof fn lemma_capturing_prefix(found: Seq<Ast>, node: Ast, count: nat)
    requires
        count <= found.len(),
    ensures
        capturing_all(found.push(node), count) == capturing_all(found, count),
    decreases count,
{
    if count > 0 {
        lemma_capturing_prefix(found, node, (count - 1) as nat);
    }
}

/// The further branches of an alternation are sound.
proof fn lemma_branches(
    s: Seq<char>,
    pos: int,
    groups: nat,
    found: Seq<Ast>,
    start: int,
    origin: nat,
)
    requires
        0 <= pos <= s.len(),
        sound_all(s, start, origin, Step { value: found, pos, groups }),
    ensures
        branches(s, pos, groups, found) matches Ok(step) ==> sound_all(s, start, origin, step),
    decreases s.len() - pos, 5nat,
{
    if at(s, pos) == Some('|') {
        lemma_concat(s, pos + 1, groups);
        match concat(s, pos + 1, groups) {
            Ok(next) => {
                if pos < next.pos <= s.len() {
                    lemma_openers_none(s, pos, pos + 1);
                    lemma_clear_plain(s, pos, pos + 1);
                    lemma_extend(s, start, origin, found, pos, groups, pos + 1, next);
                    lemma_branches(
                        s,
                        next.pos,
                        next.groups,
                        found.push(next.value),
                        start,
                        origin,
                    );
                }
            },
            Err(_) => {},
        }
    }
}

/// A concatenation is sound.
pub proof fn lemma_concat(s: Seq<char>, pos: int, groups: nat)
    requires
        0 <= pos <= s.len(),
    ensures
        concat(s, pos, groups) matches Ok(step) ==> sound(s, pos, groups, step),
    decreases s.len() - pos, 4nat,
{
    let found = Seq::<Ast>::empty();
    lemma_sequence(s, pos, groups, found, pos, groups);
    match sequence(s, pos, groups, found) {
        Ok(all) => {
            lemma_collapse(s, pos, groups, all, false);
        },
        Err(_) => {},
    }
}

/// The quantified atoms of a concatenation are sound.
proof fn lemma_sequence(
    s: Seq<char>,
    pos: int,
    groups: nat,
    found: Seq<Ast>,
    start: int,
    origin: nat,
)
    requires
        0 <= pos <= s.len(),
        sound_all(s, start, origin, Step { value: found, pos, groups }),
    ensures
        sequence(s, pos, groups, found) matches Ok(step) ==> sound_all(s, start, origin, step),
    decreases s.len() - pos, 3nat,
{
    match at(s, pos) {
        None => {},
        Some(c) => {
            if c != ')' && c != '|' {
                lemma_quantified(s, pos, groups);
                match quantified(s, pos, groups) {
                    Ok(next) => {
                        if pos < next.pos <= s.len() {
                            lemma_extend(s, start, origin, found, pos, groups, pos, next);
                            lemma_sequence(
                                s,
                                next.pos,
                                next.groups,
                                found.push(next.value),
                                start,
                                origin,
                            );
                        }
                    },
                    Err(_) => {},
                }
            }
        },
    }
}

/// A quantifier opens no group: a node under it is sound up to the end of the
/// quantifier if it is sound up to its own end.
proof fn lemma_quantifier(
    s: Seq<char>,
    pos: int,
    groups: nat,
    step: Step<Ast>,
    kind: Repeat,
    greedy: bool,
    end: int,
)
    requires
        0 <= pos,
        sound(s, pos, groups, step),
        step.pos <= end <= s.len(),
        plain(s, step.pos, end),
        forall|i: int| step.pos <= i < end ==> at(s, i) != Some('('),
    ensures
        sound(
            s,
            pos,
            groups,
            Step {
                value: Ast::Quantifier { node: Box::new(step.value), kind, greedy },
                pos: end,
                groups: step.groups,
            },
        ),
{
    if clear(s, pos) {
        lemma_clear_plain(s, step.pos, end);
        lemma_openers_split(s, pos, step.pos, end);
        lemma_openers_none(s, step.pos, end);
    }
}

/// A quantified atom is sound, and not empty.
pub proof fn lemma_quantified(s: Seq<char>, pos: int, groups: nat)
    requires
        0 <= pos <= s.len(),
    ensures
        quantified(s, pos, groups) matches Ok(step) ==> sound(s, pos, groups, step) && pos
            < step.pos,
    decreases s.len() - pos, 2nat,
{
    lemma_atom(s, pos, groups);
    match atom(s, pos, groups) {
        Ok(step) => {
            let next = at(s, step.pos);
            if next == Some('*') || next == Some('+') || next == Some('?') {
                let kind = if next == Some('*') {
                    Repeat::Star
                } else if next == Some('+') {
                    Repeat::Plus
                } else {
                    Repeat::Question
                };
                let lazy = at(s, step.pos + 1) == Some('?');
                let end = if lazy {
                    step.pos + 2
                } else {
                    step.pos + 1
                };
                lemma_quantifier(s, pos, groups, step, kind, !lazy, end);
            } else if next == Some('{') {
                lemma_brace(s, step.pos + 1);
                match brace(s, step.pos + 1) {
                    Some((kind, greedy, end)) => {
                        lemma_quantifier(s, pos, groups, step, kind, greedy, end);
                    },
                    None => {},
                }
            }
        },
        Err(_) => {},
    }
}

/// An atom is sound, and not empty.
pub proof fn lemma_atom(s: Seq<char>, pos: int, groups: nat)
    requires
        0 <= pos <= s.len(),
    ensures
        atom(s, pos, groups) matches Ok(step) ==> sound(s, pos, groups, step) && pos < step.pos,
    decreases s.len() - pos, 1nat,
{
    match at(s, pos) {
        None => {},
        Some(c) => {
            lemma_char_is_scalar(c);
            if c == '(' {
                lemma_group(s, pos, groups);
            } else if c == '[' {
                lemma_class(s, pos, groups);
            } else if c == '\\' {
                lemma_escape(s, pos, groups);
            } else {
                lemma_openers_none(s, pos, pos + 1);
                lemma_clear_plain(s, pos, pos + 1);
            }
        },
    }
}

/// The openers of a group are the `(` of a capturing group and the openers of its body.
proof fn lemma_group_openers(
    s: Seq<char>,
    pos: int,
    groups: nat,
    kind: GroupKind,
    start: int,
    body: Step<Ast>,
)
    requires
        0 <= pos < s.len(),
        s[pos] == '(',
        opening(s, pos, groups) == Ok::<(GroupKind, int), ParseError>((kind, start)),
        start <= body.pos < s.len(),
        s[body.pos] == ')',
        clear(s, start) ==> clear(s, body.pos) && openers(s, start, body.pos) == body.groups
            - if kind is Capturing {
            groups + 1
        } else {
            groups
        },
    ensures
        clear(s, pos) ==> clear(s, body.pos + 1) && openers(s, pos, body.pos + 1) == body.groups
            - groups,
{
    let end = body.pos + 1;
    assert(plain(s, pos, start));
    lemma_clear_plain(s, pos, start);
    lemma_clear_plain(s, body.pos, end);
    if clear(s, pos) {
        lemma_openers_split(s, pos, start, end);
        lemma_openers_split(s, start, body.pos, end);
        lemma_openers_none(s, body.pos, end);
        assert(openers(s, pos, pos) == 0);
        if kind !is Capturing {
            lemma_openers_none(s, pos + 1, start);
            lemma_openers_split(s, pos, pos + 1, start);
        }
    }
}

/// A group is sound, and not empty.
pub proof fn lemma_group(s: Seq<char>, pos: int, groups: nat)
    requires
        0 <= pos < s.len(),
        s[pos] == '(',
    ensures
        group(s, pos, groups) matches Ok(step) ==> sound(s, pos, groups, step) && pos < step.pos,
    decreases s.len() - pos, 0nat,
{
    match opening(s, pos, groups) {
        Ok((kind, start)) => {
            let inner = if kind is Capturing {
                groups + 1
            } else {
                groups
            };
            lemma_alternation(s, start, inner);
            match alternation(s, start, inner) {
                Ok(body) => {
                    if at(s, body.pos) == Some(')') {
                        let value = wrapped(kind, body.value);
                        lemma_numbered_widens(body.value, inner, body.groups, groups, body.groups);
                        lemma_group_openers(s, pos, groups, kind, start, body);
                    }
                },
                Err(_) => {},
            }
        },
        Err(_) => {},
    }
}

/// The tree of a pattern is well-formed for the number of groups that the parser
/// reports, which is the number of capturing groups in the tree, and each group has a
/// smaller index than the groups inside it.
pub proof fn tree_is_numbered(s: Seq<char>)
    ensures
        pattern(s) matches Ok((ast, groups)) ==> ast.well_formed(groups) && ast.layered(groups)
            && ast.capturing() == groups,
{
    lemma_alternation(s, 0, 0);
}

/// The number of groups that the parser reports for a pattern is the number of `(` in
/// it that no `?` follows, where each of these is unescaped and outside a character
/// class.
///
/// In an escape or in a class a `(` stands for itself: `\(` has such a `(` and no
/// group.
pub proof fn group_count_counts_openers(s: Seq<char>)
    requires
        clear(s, 0),
    ensures
        pattern(s) matches Ok((ast, groups)) ==> groups == openers(s, 0, s.len() as int),
{
    lemma_alternation(s, 0, 0);
}

} // verus!
