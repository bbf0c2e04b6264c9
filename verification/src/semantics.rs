//! What it means for a pattern to match: a relation between a syntax tree, a text, and the
//! states before and after the match, defined on the tree alone.
//!
//! The relation says which matches a pattern has, not which of them a search reports.

use crate::ast::{AnchorKind, Ast, Repeat};
use crate::classes::{class_accepts, shorthand_accepts, word_boundary};
use crate::compiler::extra;
use crate::vm::{adopted, referenced};
use vstd::prelude::*;

verus! {

/// A position in the text and the capture slots there.
pub struct State {
    pub pos: int,
    pub slots: Seq<Option<usize>>,
}

/// The state `from` as a lookaround sees it: the end of the whole match is not known.
pub open spec fn hidden(from: State) -> State {
    State { pos: from.pos, slots: from.slots.update(1, None) }
}

/// Whether the anchor holds at `pos`.
pub open spec fn anchored(kind: AnchorKind, text: Seq<char>, pos: int) -> bool {
    match kind {
        AnchorKind::Start => pos == 0,
        AnchorKind::End => pos == text.len(),
        AnchorKind::WordBoundary => word_boundary(text, pos),
        AnchorKind::NonWordBoundary => !word_boundary(text, pos),
    }
}

/// Whether a quantifier of the kind `kind` allows `n` repetitions.
pub open spec fn allows(kind: Repeat, n: nat) -> bool {
    match kind {
        Repeat::Star => true,
        Repeat::Plus => n >= 1,
        Repeat::Question => n <= 1,
        Repeat::Exact(count) => n == count,
        Repeat::AtLeast(count) => n >= count,
        Repeat::Range(count, most) => count <= n <= count + extra(count, most),
    }
}

/// Holds of every state. It names the state in between where a match is made of parts.
pub open spec fn reached(mid: State) -> bool {
    true
}

/// Holds of every position and state. It names where the match of a lookbehind starts
/// and the state in which it ends.
pub open spec fn reached_from(start: int, inner: State) -> bool {
    true
}

/// The state after one character at the position of `from` has been read.
pub open spec fn stepped(from: State) -> State {
    State { pos: from.pos + 1, slots: from.slots }
}

/// `node` accepts the text from the state `from` to the state `to`: it has a match
/// there.
///
/// A character test reads one character. An anchor and a lookaround read nothing. A
/// backreference reads the text of its group once more. A concatenation matches its nodes
/// one after the other, an alternation one of its branches, a quantifier its node as often
/// as its kind allows. A capturing group sets its two slots to the positions around what
/// its node matches. A lookaround matches its node from the position of `from`, or for a
/// lookbehind up to it, with the end of the whole match hidden, and keeps the groups
/// that were set on the way; a negative one holds where its node has no such match.
pub open spec fn accepts(node: Ast, text: Seq<char>, from: State, to: State) -> bool
    decreases node, 0nat,
{
    match node {
        Ast::Literal(c) => 0 <= from.pos < text.len() && text[from.pos] == c && to == stepped(
            from,
        ),
        Ast::Dot => 0 <= from.pos < text.len() && text[from.pos] != '\n' && to == stepped(from),
        Ast::CharClass { items, negated } => 0 <= from.pos < text.len() && class_accepts(
            items,
            negated,
            text[from.pos],
        ) && to == stepped(from),
        Ast::Shorthand(kind) => 0 <= from.pos < text.len() && shorthand_accepts(
            kind,
            text[from.pos],
        ) && to == stepped(from),
        Ast::Anchor(kind) => anchored(kind, text, from.pos) && to == from,
        Ast::Backreference(index) => {
            &&& referenced(text, from.slots, index as int, from.pos) matches Some(len)
            &&& to == State { pos: from.pos + len, slots: from.slots }
        },
        Ast::Concat(nodes) => accepts_all(nodes, nodes.len(), text, from, to),
        Ast::Alternation(branches) => {
            if branches.len() == 0 {
                to == from
            } else {
                accepts_any(branches, text, from, to)
            }
        },
        Ast::Quantifier { node, kind, .. } => accepts_some(*node, kind, text, from, to),
        Ast::Group { index, node } => accepts_inside(*node, index, text, from, to),
        Ast::NonCapturing { node } => accepts(*node, text, from, to),
        Ast::Lookahead { node, positive } => {
            if positive {
                looks(*node, text, from, from.pos, to)
            } else {
                to == from && !looks_ahead(*node, text, from)
            }
        },
        Ast::Lookbehind { node, positive } => {
            if positive {
                looks_back(*node, text, from, to)
            } else {
                to == from && !looks_behind(*node, text, from)
            }
        },
    }
}

/// The first `count` of `nodes` match one after the other.
pub open spec fn accepts_all(
    nodes: Seq<Ast>,
    count: nat,
    text: Seq<char>,
    from: State,
    to: State,
) -> bool
    decreases nodes, count,
{
    if count == 0 || count > nodes.len() {
        to == from
    } else {
        exists|mid: State| #[trigger]
            reached(mid) && accepts_all(nodes, (count - 1) as nat, text, from, mid) && accepts(
                nodes[count - 1],
                text,
                mid,
                to,
            )
    }
}

/// One of `branches` matches.
pub open spec fn accepts_any(branches: Seq<Ast>, text: Seq<char>, from: State, to: State) -> bool
    decreases branches, 0nat,
{
    exists|i: int| 0 <= i < branches.len() && accepts(#[trigger] branches[i], text, from, to)
}

/// `node` matches some number of times that `kind` allows.
pub open spec fn accepts_some(
    node: Ast,
    kind: Repeat,
    text: Seq<char>,
    from: State,
    to: State,
) -> bool
    decreases node, 2nat,
{
    exists|n: nat| #[trigger] allows(kind, n) && accepts_times(node, n, text, from, to)
}

/// `node` matches `n` times in a row.
pub open spec fn accepts_times(node: Ast, n: nat, text: Seq<char>, from: State, to: State) -> bool
    decreases node, 1nat, n,
{
    if n == 0 {
        to == from
    } else {
        exists|mid: State| #[trigger]
            reached(mid) && accepts(node, text, from, mid) && accepts_times(
                node,
                (n - 1) as nat,
                text,
                mid,
                to,
            )
    }
}

/// `node` matches inside the group `index`: the group is opened at the position of `from`
/// and closed at the position of `to`.
pub open spec fn accepts_inside(
    node: Ast,
    index: nat,
    text: Seq<char>,
    from: State,
    to: State,
) -> bool
    decreases node, 1nat,
{
    exists|inner: State| #[trigger]
        reached(inner) && accepts(
            node,
            text,
            State {
                pos: from.pos,
                slots: from.slots.update(2 * index as int, Some(from.pos as usize)),
            },
            inner,
        ) && to == State {
            pos: inner.pos,
            slots: inner.slots.update(2 * index as int + 1, Some(inner.pos as usize)),
        }
}

/// `node` matches from `start` as a lookaround of the state `from`, and `to` is `from`
/// with the groups that the match set.
pub open spec fn looks(node: Ast, text: Seq<char>, from: State, start: int, to: State) -> bool
    decreases node, 1nat,
{
    exists|inner: State| #[trigger]
        reached(inner) && accepts(
            node,
            text,
            State { pos: start, slots: hidden(from).slots },
            inner,
        ) && to == State { pos: from.pos, slots: adopted(from.slots, inner.slots) }
}

/// `node` has a match from the position of `from`.
pub open spec fn looks_ahead(node: Ast, text: Seq<char>, from: State) -> bool
    decreases node, 1nat,
{
    exists|inner: State| #[trigger] reached(inner) && accepts(node, text, hidden(from), inner)
}

/// `node` matches from a position at or before that of `from` up to that of `from`, and
/// `to` is `from` with the groups that the match set.
pub open spec fn looks_back(node: Ast, text: Seq<char>, from: State, to: State) -> bool
    decreases node, 1nat,
{
    exists|start: int, inner: State| #[trigger]
        reached_from(start, inner) && 0 <= start <= from.pos && accepts(
            node,
            text,
            State { pos: start, slots: hidden(from).slots },
            inner,
        ) && inner.pos == from.pos && to == State {
            pos: from.pos,
            slots: adopted(from.slots, inner.slots),
        }
}

/// `node` has a match from a position at or before that of `from` up to that of `from`.
pub open spec fn looks_behind(node: Ast, text: Seq<char>, from: State) -> bool
    decreases node, 1nat,
{
    exists|start: int, inner: State| #[trigger]
        reached_from(start, inner) && 0 <= start <= from.pos && accepts(
            node,
            text,
            State { pos: start, slots: hidden(from).slots },
            inner,
        ) && inner.pos == from.pos
}

} // verus!
