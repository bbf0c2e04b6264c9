//! Instruction programs, and the compiler from syntax trees to programs.

use crate::ast::{
    all_numbered, copy_items, lemma_model_all, lemma_numbered_nodes, model_all, AnchorKind, Ast, AstNode, ClassItem, QuantifierKind, Repeat,
    ShorthandKind,
};
use vstd::prelude::*;

verus! {

/// One instruction of the matcher.
#[derive(Debug, Clone, PartialEq, Eq)]
pub enum Inst {
    /// Consume one character equal to the operand.
    Char(char),
    /// Consume one character other than newline.
    AnyChar,
    /// Consume one character that the class accepts.
    CharClass { ranges: Vec<ClassItem>, negated: bool },
    /// Consume one character of the shorthand class.
    ShorthandClass(ShorthandKind),
    /// Accept: the match ends at the current position.
    Match,
    /// Continue at the target.
    Jump(usize),
    /// Try the first target; if that fails, continue at the second.
    Split(usize, usize),
    /// Store the current position in a capture slot.
    Save(usize),
    /// Succeed only at the start of the input.
    AssertStart,
    /// Succeed only at the end of the input.
    AssertEnd,
    /// Succeed only at a word boundary.
    AssertWordBoundary,
    /// Succeed only away from a word boundary.
    AssertNonWordBoundary,
    /// Consume the text that the group with this index captured.
    Backref(usize),
    /// Succeed if the sub-program from the first operand matches here; continue at the
    /// second operand with the position unchanged.
    LookaheadPositive(usize, usize),
    /// Succeed if the sub-program from the first operand does not match here.
    LookaheadNegative(usize, usize),
    /// Succeed if the sub-program from the first operand matches some stretch of input
    /// that ends here.
    LookbehindPositive(usize, usize),
    /// Succeed if the sub-program from the first operand matches no stretch of input
    /// that ends here.
    LookbehindNegative(usize, usize),
    /// Do nothing.
    Nop,
}

/// Model of an [`Inst`].
pub enum Op {
    Char(char),
    AnyChar,
    CharClass { items: Seq<ClassItem>, negated: bool },
    Shorthand(ShorthandKind),
    Match,
    Jump(int),
    Split(int, int),
    Save(int),
    AssertStart,
    AssertEnd,
    AssertWordBoundary,
    AssertNonWordBoundary,
    Backref(int),
    LookaheadPositive(int, int),
    LookaheadNegative(int, int),
    LookbehindPositive(int, int),
    LookbehindNegative(int, int),
    Nop,
}

impl View for Inst {
    type V = Op;

    open spec fn view(&self) -> Op {
        match *self {
            Inst::Char(c) => Op::Char(c),
            Inst::AnyChar => Op::AnyChar,
            Inst::CharClass { ranges, negated } => Op::CharClass { items: ranges@, negated },
            Inst::ShorthandClass(kind) => Op::Shorthand(kind),
            Inst::Match => Op::Match,
            Inst::Jump(target) => Op::Jump(target as int),
            Inst::Split(first, second) => Op::Split(first as int, second as int),
            Inst::Save(slot) => Op::Save(slot as int),
            Inst::AssertStart => Op::AssertStart,
            Inst::AssertEnd => Op::AssertEnd,
            Inst::AssertWordBoundary => Op::AssertWordBoundary,
            Inst::AssertNonWordBoundary => Op::AssertNonWordBoundary,
            Inst::Backref(group) => Op::Backref(group as int),
            Inst::LookaheadPositive(start, end) => Op::LookaheadPositive(start as int, end as int),
            Inst::LookaheadNegative(start, end) => Op::LookaheadNegative(start as int, end as int),
            Inst::LookbehindPositive(start, end) => Op::LookbehindPositive(
                start as int,
                end as int,
            ),
            Inst::LookbehindNegative(start, end) => Op::LookbehindNegative(
                start as int,
                end as int,
            ),
            Inst::Nop => Op::Nop,
        }
    }
}

/// Compiled program.
#[derive(Debug, Clone, PartialEq, Eq)]
pub struct Program {
    /// The instructions; execution starts at index 0.
    pub insts: Vec<Inst>,
    /// Number of capturing groups.
    pub n_groups: usize,
    /// A character that every match must start with, if one is known.
    pub first_char: Option<char>,
    /// Whether a match can only start at position 0.
    pub anchored_start: bool,
}

/// Model of a [`Program`].
pub struct ProgramView {
    pub ops: Seq<Op>,
    pub groups: nat,
    pub first_char: Option<char>,
    pub anchored: bool,
}

impl ProgramView {
    /// Number of capture slots: two for the whole match and two for each group.
    pub open spec fn slot_count(self) -> nat {
        2 * (self.groups + 1)
    }

    /// Every `Save` names a slot that exists.
    pub open spec fn well_formed(self) -> bool {
        saves_within(self.ops, 0, self.slot_count() as int)
    }

    /// Every `Save` names a slot of a group: none writes the bounds of the whole match.
    pub open spec fn saves_groups_only(self) -> bool {
        saves_within(self.ops, 2, self.slot_count() as int)
    }
}

/// Number of capture slots of a program with `groups` capturing groups.
pub open spec fn slot_limit(groups: nat) -> int {
    2 * (groups as int + 1)
}

/// Every `Save` among `ops` names a slot from `low` up to, but not including, `high`.
pub open spec fn saves_within(ops: Seq<Op>, low: int, high: int) -> bool {
    forall|pc: int|
        0 <= pc < ops.len() ==> (#[trigger] ops[pc] matches Op::Save(slot) ==> low <= slot < high)
}

impl View for Program {
    type V = ProgramView;

    open spec fn view(&self) -> ProgramView {
        ProgramView {
            ops: self.insts@.map_values(|inst: Inst| inst@),
            groups: self.n_groups as nat,
            first_char: self.first_char,
            anchored: self.anchored_start,
        }
    }
}

impl Program {
    /// The program's slots can be counted in a `usize` and every `Save` names one of them.
    pub open spec fn well_formed(&self) -> bool {
        &&& self@.slot_count() <= usize::MAX
        &&& self@.well_formed()
    }
}

/// The models of `insts`, in order.
pub open spec fn ops_of(insts: Seq<Inst>) -> Seq<Op> {
    insts.map_values(|inst: Inst| inst@)
}

/// Number of instructions that `node` compiles to.
pub open spec fn span(node: Ast) -> nat
    decreases node, 0nat,
{
    match node {
        Ast::Concat(nodes) => span_prefix(nodes, nodes.len()),
        Ast::Alternation(branches) => {
            if branches.len() == 0 {
                0
            } else if branches.len() == 1 {
                span(branches[0])
            } else {
                span_prefix(branches, branches.len()) + 2 * ((branches.len() - 1) as nat)
            }
        },
        Ast::Quantifier { node, kind, .. } => {
            let inner = span(*node);
            match kind {
                Repeat::Star => inner + 2,
                Repeat::Plus => inner + 1,
                Repeat::Question => inner + 1,
                Repeat::Exact(n) => n * inner,
                Repeat::AtLeast(n) => n * inner + inner + 2,
                Repeat::Range(n, m) => n * inner + extra(n, m) * (inner + 1),
            }
        },
        Ast::Group { node, .. } => span(*node) + 2,
        Ast::NonCapturing { node } => span(*node),
        Ast::Lookahead { node, .. } => span(*node) + 2,
        Ast::Lookbehind { node, .. } => span(*node) + 2,
        _ => 1,
    }
}

/// Number of instructions that the first `count` of `nodes` compile to.
pub open spec fn span_prefix(nodes: Seq<Ast>, count: nat) -> nat
    decreases nodes, count,
{
    if count == 0 || count > nodes.len() {
        0
    } else {
        span_prefix(nodes, (count - 1) as nat) + span(nodes[count - 1])
    }
}

/// Number of optional repetitions in `{n,m}`: `m - n`, and none where `m` is below `n`.
pub open spec fn extra(n: nat, m: nat) -> nat {
    if m > n {
        (m - n) as nat
    } else {
        0
    }
}

/// A `Split` that prefers `body` when greedy and `exit` when lazy.
pub open spec fn split(greedy: bool, body: int, exit: int) -> Op {
    if greedy {
        Op::Split(body, exit)
    } else {
        Op::Split(exit, body)
    }
}

/// The instructions that `node` compiles to when the first of them stands at index `base`.
pub open spec fn code(node: Ast, base: int) -> Seq<Op>
    decreases node, 0nat,
{
    match node {
        Ast::Literal(c) => seq![Op::Char(c)],
        Ast::Dot => seq![Op::AnyChar],
        Ast::Concat(nodes) => code_prefix(nodes, nodes.len(), base),
        Ast::Alternation(branches) => {
            if branches.len() == 0 {
                Seq::empty()
            } else if branches.len() == 1 {
                code(branches[0], base)
            } else {
                let last = (branches.len() - 1) as nat;
                let chain = alt_prefix(branches, last, base, base + span(node));
                chain + code(branches[last as int], base + chain.len())
            }
        },
        Ast::Quantifier { node, kind, greedy } => {
            match kind {
                Repeat::Star => star(*node, greedy, base),
                Repeat::Plus => {
                    let body = code(*node, base);
                    body + seq![split(greedy, base, base + body.len() + 1)]
                },
                Repeat::Question => question(*node, greedy, base),
                Repeat::Exact(n) => repeated(*node, n, base),
                Repeat::AtLeast(n) => {
                    let required = repeated(*node, n, base);
                    required + star(*node, greedy, base + required.len())
                },
                Repeat::Range(n, m) => {
                    let required = repeated(*node, n, base);
                    required + optional(*node, greedy, extra(n, m), base + required.len())
                },
            }
        },
        Ast::CharClass { items, negated } => seq![Op::CharClass { items, negated }],
        Ast::Shorthand(kind) => seq![Op::Shorthand(kind)],
        Ast::Anchor(kind) => seq![
            match kind {
                AnchorKind::Start => Op::AssertStart,
                AnchorKind::End => Op::AssertEnd,
                AnchorKind::WordBoundary => Op::AssertWordBoundary,
                AnchorKind::NonWordBoundary => Op::AssertNonWordBoundary,
            },
        ],
        Ast::Group { index, node } => {
            seq![Op::Save(2 * index as int)] + code(*node, base + 1) + seq![
                Op::Save(2 * index as int + 1),
            ]
        },
        Ast::NonCapturing { node } => code(*node, base),
        Ast::Backreference(index) => seq![Op::Backref(index as int)],
        Ast::Lookahead { node, positive } => {
            let body = code(*node, base + 1);
            let sub_end = base + body.len() + 2;
            seq![
                if positive {
                    Op::LookaheadPositive(base + 1, sub_end)
                } else {
                    Op::LookaheadNegative(base + 1, sub_end)
                },
            ] + body + seq![Op::Match]
        },
        Ast::Lookbehind { node, positive } => {
            let body = code(*node, base + 1);
            let sub_end = base + body.len() + 2;
            seq![
                if positive {
                    Op::LookbehindPositive(base + 1, sub_end)
                } else {
                    Op::LookbehindNegative(base + 1, sub_end)
                },
            ] + body + seq![Op::Match]
        },
    }
}

/// The first `count` of `nodes`, compiled one after the other from index `base`.
pub open spec fn code_prefix(nodes: Seq<Ast>, count: nat, base: int) -> Seq<Op>
    decreases nodes, count,
{
    if count == 0 || count > nodes.len() {
        Seq::empty()
    } else {
        let init = code_prefix(nodes, (count - 1) as nat, base);
        init + code(nodes[count - 1], base + init.len())
    }
}

/// The first `count` branches of an alternation that ends at index `end`: each is a
/// `Split` to the branch and to what follows it, the branch, and a `Jump` to `end`.
pub open spec fn alt_prefix(branches: Seq<Ast>, count: nat, base: int, end: int) -> Seq<Op>
    decreases branches, count,
{
    if count == 0 || count > branches.len() {
        Seq::empty()
    } else {
        let init = alt_prefix(branches, (count - 1) as nat, base, end);
        let at = base + init.len();
        let body = code(branches[count - 1], at + 1);
        init + seq![Op::Split(at + 1, at + body.len() + 2)] + body + seq![Op::Jump(end)]
    }
}

/// `X*`: a `Split` between the body and the exit, the body, and a `Jump` back to the
/// `Split`.
pub open spec fn star(node: Ast, greedy: bool, base: int) -> Seq<Op>
    decreases node, 1nat,
{
    let body = code(node, base + 1);
    seq![split(greedy, base + 1, base + body.len() + 2)] + body + seq![Op::Jump(base)]
}

/// `X?`: a `Split` between the body and the exit, and the body.
pub open spec fn question(node: Ast, greedy: bool, base: int) -> Seq<Op>
    decreases node, 1nat,
{
    let body = code(node, base + 1);
    seq![split(greedy, base + 1, base + body.len() + 1)] + body
}

/// `count` copies of the code of `node`, one after the other.
pub open spec fn repeated(node: Ast, count: nat, base: int) -> Seq<Op>
    decreases node, count + 1,
{
    if count == 0 {
        Seq::empty()
    } else {
        let init = repeated(node, (count - 1) as nat, base);
        init + code(node, base + init.len())
    }
}

/// `count` copies of `X?`, one after the other.
pub open spec fn optional(node: Ast, greedy: bool, count: nat, base: int) -> Seq<Op>
    decreases node, count + 2,
{
    if count == 0 {
        Seq::empty()
    } else {
        let init = optional(node, greedy, (count - 1) as nat, base);
        init + question(node, greedy, base + init.len())
    }
}

/// The character that every match must start with: the operand of a `Char` that is the
/// first instruction, or the second after a leading `AssertStart`.
pub open spec fn first_literal(ops: Seq<Op>) -> Option<char> {
    if ops.len() == 0 {
        None
    } else {
        match ops[0] {
            Op::Char(c) => Some(c),
            Op::AssertStart => {
                if ops.len() > 1 {
                    match ops[1] {
                        Op::Char(c) => Some(c),
                        _ => None,
                    }
                } else {
                    None
                }
            },
            _ => None,
        }
    }
}

/// Whether the first instruction is `AssertStart`.
pub open spec fn starts_anchored(ops: Seq<Op>) -> bool {
    ops.len() > 0 && ops[0] == Op::AssertStart
}

/// The program for `ast` with `groups` capturing groups: the code of `ast` from index 0,
/// a final `Match`, and the two pre-filters read off the instructions.
pub open spec fn compiled(ast: Ast, groups: nat) -> ProgramView {
    let ops = code(ast, 0).push(Op::Match);
    ProgramView { ops, groups, first_char: first_literal(ops), anchored: starts_anchored(ops) }
}

/// The code of a node has as many instructions as its span, wherever it stands.
pub proof fn lemma_code_len(node: Ast, base: int)
    ensures
        code(node, base).len() == span(node),
    decreases node, 0nat,
{
    match node {
        Ast::Concat(nodes) => {
            lemma_code_prefix_len(nodes, nodes.len(), base);
        },
        Ast::Alternation(branches) => {
            if branches.len() == 1 {
                lemma_code_len(branches[0], base);
            } else if branches.len() >= 2 {
                let last = (branches.len() - 1) as nat;
                let end = base + span(node);
                lemma_alt_prefix_len(branches, last, base, end);
                let chain = alt_prefix(branches, last, base, end);
                lemma_code_len(branches[last as int], base + chain.len());
                assert(span_prefix(branches, branches.len()) == span_prefix(branches, last) + span(
                    branches[last as int],
                ));
            }
        },
        Ast::Quantifier { node: inner, kind, greedy } => {
            let s = span(*inner);
            match kind {
                Repeat::Star => {
                    lemma_code_len(*inner, base + 1);
                    assert(star(*inner, greedy, base).len() == s + 2);
                },
                Repeat::Plus => {
                    lemma_code_len(*inner, base);
                },
                Repeat::Question => {
                    lemma_code_len(*inner, base + 1);
                    assert(question(*inner, greedy, base).len() == s + 1);
                },
                Repeat::Exact(n) => {
                    lemma_repeated_len(*inner, n, base);
                },
                Repeat::AtLeast(n) => {
                    let required = repeated(*inner, n, base);
                    lemma_repeated_len(*inner, n, base);
                    lemma_code_len(*inner, base + required.len() + 1);
                    assert(star(*inner, greedy, base + required.len()).len() == s + 2);
                },
                Repeat::Range(n, m) => {
                    lemma_repeated_len(*inner, n, base);
                    lemma_optional_len(
                        *inner,
                        greedy,
                        extra(n, m),
                        base + repeated(*inner, n, base).len(),
                    );
                },
            }
        },
        Ast::Group { node: inner, .. } => {
            lemma_code_len(*inner, base + 1);
        },
        Ast::NonCapturing { node: inner } => {
            lemma_code_len(*inner, base);
        },
        Ast::Lookahead { node: inner, .. } => {
            lemma_code_len(*inner, base + 1);
        },
        Ast::Lookbehind { node: inner, .. } => {
            lemma_code_len(*inner, base + 1);
        },
        _ => {},
    }
}

/// The code of the first `count` nodes has as many instructions as their spans together.
pub proof fn lemma_code_prefix_len(nodes: Seq<Ast>, count: nat, base: int)
    ensures
        code_prefix(nodes, count, base).len() == span_prefix(nodes, count),
    decreases nodes, count,
{
    if count != 0 && count <= nodes.len() {
        let init = code_prefix(nodes, (count - 1) as nat, base);
        lemma_code_prefix_len(nodes, (count - 1) as nat, base);
        lemma_code_len(nodes[count - 1], base + init.len());
    }
}

/// Each of the first `count` branches of an alternation takes two instructions more than
/// its own code.
pub proof fn lemma_alt_prefix_len(branches: Seq<Ast>, count: nat, base: int, end: int)
    requires
        count <= branches.len(),
    ensures
        alt_prefix(branches, count, base, end).len() == span_prefix(branches, count) + 2 * count,
    decreases branches, count,
{
    if count != 0 {
        let init = alt_prefix(branches, (count - 1) as nat, base, end);
        lemma_alt_prefix_len(branches, (count - 1) as nat, base, end);
        lemma_code_len(branches[count - 1], base + init.len() + 1);
    }
}

/// `count` copies of a node take `count` times its span.
pub proof fn lemma_repeated_len(node: Ast, count: nat, base: int)
    ensures
        repeated(node, count, base).len() == count * span(node),
    decreases node, count + 1,
{
    let s = span(node);
    if count > 0 {
        let init = repeated(node, (count - 1) as nat, base);
        lemma_repeated_len(node, (count - 1) as nat, base);
        lemma_code_len(node, base + init.len());
        assert((count - 1) * s + s == count * s) by (nonlinear_arith);
    }
}

/// `count` optional copies of a node take `count` times its span and one.
pub proof fn lemma_optional_len(node: Ast, greedy: bool, count: nat, base: int)
    ensures
        optional(node, greedy, count, base).len() == count * (span(node) + 1),
    decreases node, count + 2,
{
    let s = span(node) + 1;
    if count > 0 {
        let init = optional(node, greedy, (count - 1) as nat, base);
        lemma_optional_len(node, greedy, (count - 1) as nat, base);
        lemma_code_len(node, base + init.len() + 1);
        assert(question(node, greedy, base + init.len()).len() == s);
        assert((count - 1) * s + s == count * s) by (nonlinear_arith);
    }
}

/// Joining two sequences of instructions keeps the range of their `Save`s.
pub proof fn lemma_saves_within_join(a: Seq<Op>, b: Seq<Op>, low: int, high: int)
    requires
        saves_within(a, low, high),
        saves_within(b, low, high),
    ensures
        saves_within(a + b, low, high),
{
}

/// The code of a well-formed node saves into the slots of its groups only.
pub proof fn lemma_code_saves(node: Ast, base: int, groups: nat)
    requires
        node.well_formed(groups),
    ensures
        saves_within(code(node, base), 2, slot_limit(groups)),
    decreases node, 0nat,
{
    let high = slot_limit(groups);
    match node {
        Ast::Concat(nodes) => {
            lemma_numbered_nodes(nodes, 0, groups);
            lemma_code_prefix_saves(nodes, nodes.len(), base, groups);
        },
        Ast::Alternation(branches) => {
            lemma_numbered_nodes(branches, 0, groups);
            if branches.len() == 1 {
                lemma_code_saves(branches[0], base, groups);
            } else if branches.len() >= 2 {
                let last = (branches.len() - 1) as nat;
                let end = base + span(node);
                lemma_alt_prefix_saves(branches, last, base, end, groups);
                let chain = alt_prefix(branches, last, base, end);
                lemma_code_saves(branches[last as int], base + chain.len(), groups);
                lemma_saves_within_join(
                    chain,
                    code(branches[last as int], base + chain.len()),
                    2,
                    high,
                );
            }
        },
        Ast::Quantifier { node: inner, kind, greedy } => {
            match kind {
                Repeat::Star => {
                    lemma_star_saves(*inner, greedy, base, groups);
                },
                Repeat::Plus => {
                    lemma_code_saves(*inner, base, groups);
                    let body = code(*inner, base);
                    lemma_saves_within_join(
                        body,
                        seq![split(greedy, base, base + body.len() + 1)],
                        2,
                        high,
                    );
                },
                Repeat::Question => {
                    lemma_question_saves(*inner, greedy, base, groups);
                },
                Repeat::Exact(n) => {
                    lemma_repeated_saves(*inner, n, base, groups);
                },
                Repeat::AtLeast(n) => {
                    let required = repeated(*inner, n, base);
                    lemma_repeated_saves(*inner, n, base, groups);
                    lemma_star_saves(*inner, greedy, base + required.len(), groups);
                    lemma_saves_within_join(
                        required,
                        star(*inner, greedy, base + required.len()),
                        2,
                        high,
                    );
                },
                Repeat::Range(n, m) => {
                    let required = repeated(*inner, n, base);
                    lemma_repeated_saves(*inner, n, base, groups);
                    lemma_optional_saves(*inner, greedy, extra(n, m), base + required.len(), groups);
                    lemma_saves_within_join(
                        required,
                        optional(*inner, greedy, extra(n, m), base + required.len()),
                        2,
                        high,
                    );
                },
            }
        },
        Ast::Group { index, node: inner } => {
            lemma_code_saves(*inner, base + 1, groups);
            let body = code(*inner, base + 1);
            lemma_saves_within_join(seq![Op::Save(2 * index as int)], body, 2, high);
            lemma_saves_within_join(
                seq![Op::Save(2 * index as int)] + body,
                seq![Op::Save(2 * index as int + 1)],
                2,
                high,
            );
        },
        Ast::NonCapturing { node: inner } => {
            lemma_code_saves(*inner, base, groups);
        },
        Ast::Lookahead { node: inner, positive } => {
            lemma_code_saves(*inner, base + 1, groups);
            let body = code(*inner, base + 1);
            let head = seq![
                if positive {
                    Op::LookaheadPositive(base + 1, base + body.len() + 2)
                } else {
                    Op::LookaheadNegative(base + 1, base + body.len() + 2)
                },
            ];
            lemma_saves_within_join(head, body, 2, high);
            lemma_saves_within_join(head + body, seq![Op::Match], 2, high);
        },
        Ast::Lookbehind { node: inner, positive } => {
            lemma_code_saves(*inner, base + 1, groups);
            let body = code(*inner, base + 1);
            let head = seq![
                if positive {
                    Op::LookbehindPositive(base + 1, base + body.len() + 2)
                } else {
                    Op::LookbehindNegative(base + 1, base + body.len() + 2)
                },
            ];
            lemma_saves_within_join(head, body, 2, high);
            lemma_saves_within_join(head + body, seq![Op::Match], 2, high);
        },
        _ => {},
    }
}

/// As `lemma_code_saves`, for the first `count` of `nodes`.
pub proof fn lemma_code_prefix_saves(nodes: Seq<Ast>, count: nat, base: int, groups: nat)
    requires
        all_numbered(nodes, 0, groups),
    ensures
        saves_within(code_prefix(nodes, count, base), 2, slot_limit(groups)),
    decreases nodes, count,
{
    if count != 0 && count <= nodes.len() {
        let init = code_prefix(nodes, (count - 1) as nat, base);
        lemma_code_prefix_saves(nodes, (count - 1) as nat, base, groups);
        lemma_code_saves(nodes[count - 1], base + init.len(), groups);
        lemma_saves_within_join(
            init,
            code(nodes[count - 1], base + init.len()),
            2,
            slot_limit(groups),
        );
    }
}

/// As `lemma_code_saves`, for the first `count` branches of an alternation.
pub proof fn lemma_alt_prefix_saves(
    branches: Seq<Ast>,
    count: nat,
    base: int,
    end: int,
    groups: nat,
)
    requires
        all_numbered(branches, 0, groups),
    ensures
        saves_within(alt_prefix(branches, count, base, end), 2, slot_limit(groups)),
    decreases branches, count,
{
    if count != 0 && count <= branches.len() {
        let high = slot_limit(groups);
        let init = alt_prefix(branches, (count - 1) as nat, base, end);
        let at = base + init.len();
        let body = code(branches[count - 1], at + 1);
        lemma_alt_prefix_saves(branches, (count - 1) as nat, base, end, groups);
        lemma_code_saves(branches[count - 1], at + 1, groups);
        let head = init + seq![Op::Split(at + 1, at + body.len() + 2)];
        lemma_saves_within_join(init, seq![Op::Split(at + 1, at + body.len() + 2)], 2, high);
        lemma_saves_within_join(head, body, 2, high);
        lemma_saves_within_join(head + body, seq![Op::Jump(end)], 2, high);
    }
}

/// As `lemma_code_saves`, for `X*`.
pub proof fn lemma_star_saves(node: Ast, greedy: bool, base: int, groups: nat)
    requires
        node.well_formed(groups),
    ensures
        saves_within(star(node, greedy, base), 2, slot_limit(groups)),
    decreases node, 1nat,
{
    let high = slot_limit(groups);
    let body = code(node, base + 1);
    lemma_code_saves(node, base + 1, groups);
    let head = seq![split(greedy, base + 1, base + body.len() + 2)];
    lemma_saves_within_join(head, body, 2, high);
    lemma_saves_within_join(head + body, seq![Op::Jump(base)], 2, high);
}

/// As `lemma_code_saves`, for `X?`.
pub proof fn lemma_question_saves(node: Ast, greedy: bool, base: int, groups: nat)
    requires
        node.well_formed(groups),
    ensures
        saves_within(question(node, greedy, base), 2, slot_limit(groups)),
    decreases node, 1nat,
{
    let body = code(node, base + 1);
    lemma_code_saves(node, base + 1, groups);
    lemma_saves_within_join(
        seq![split(greedy, base + 1, base + body.len() + 1)],
        body,
        2,
        slot_limit(groups),
    );
}

/// As `lemma_code_saves`, for `count` copies of a node.
pub proof fn lemma_repeated_saves(node: Ast, count: nat, base: int, groups: nat)
    requires
        node.well_formed(groups),
    ensures
        saves_within(repeated(node, count, base), 2, slot_limit(groups)),
    decreases node, count + 1,
{
    if count != 0 {
        let init = repeated(node, (count - 1) as nat, base);
        lemma_repeated_saves(node, (count - 1) as nat, base, groups);
        lemma_code_saves(node, base + init.len(), groups);
        lemma_saves_within_join(init, code(node, base + init.len()), 2, slot_limit(groups));
    }
}

/// As `lemma_code_saves`, for `count` copies of `X?`.
pub proof fn lemma_optional_saves(node: Ast, greedy: bool, count: nat, base: int, groups: nat)
    requires
        node.well_formed(groups),
    ensures
        saves_within(optional(node, greedy, count, base), 2, slot_limit(groups)),
    decreases node, count + 2,
{
    if count != 0 {
        let init = optional(node, greedy, (count - 1) as nat, base);
        lemma_optional_saves(node, greedy, (count - 1) as nat, base, groups);
        lemma_question_saves(node, greedy, base + init.len(), groups);
        lemma_saves_within_join(
            init,
            question(node, greedy, base + init.len()),
            2,
            slot_limit(groups),
        );
    }
}

/// The program of a well-formed tree saves into the slots of its groups only, and so is
/// well-formed itself.
pub proof fn lemma_compiled_well_formed(ast: Ast, groups: nat)
    requires
        ast.well_formed(groups),
    ensures
        compiled(ast, groups).saves_groups_only(),
        compiled(ast, groups).well_formed(),
{
    lemma_code_saves(ast, 0, groups);
    lemma_saves_within_join(code(ast, 0), seq![Op::Match], 2, slot_limit(groups));
}

/// The children of a well-formed concatenation or alternation are well-formed.
proof fn lemma_children_well_formed(nodes: Seq<Ast>, groups: nat, i: int)
    requires
        Ast::Concat(nodes).well_formed(groups) || Ast::Alternation(nodes).well_formed(groups),
        0 <= i < nodes.len(),
    ensures
        nodes[i].well_formed(groups),
{
    lemma_numbered_nodes(nodes, 0, groups);
}

/// There is one model for each instruction.
proof fn lemma_ops_len(insts: Seq<Inst>)
    ensures
        ops_of(insts).len() == insts.len(),
{
}

/// Appending an instruction appends its model.
proof fn lemma_ops_push(insts: Seq<Inst>, inst: Inst)
    ensures
        ops_of(insts.push(inst)) == ops_of(insts).push(inst@),
        ops_of(insts.push(inst)) == ops_of(insts) + seq![inst@],
{
}

/// Overwriting an instruction overwrites its model.
proof fn lemma_ops_update(insts: Seq<Inst>, at: int, inst: Inst)
    requires
        0 <= at < insts.len(),
    ensures
        ops_of(insts.update(at, inst)) == ops_of(insts).update(at, inst@),
{
}

/// Appends one instruction.
fn push_inst(insts: &mut Vec<Inst>, inst: Inst)
    ensures
        final(insts)@ == old(insts)@.push(inst),
        final(insts).len() == old(insts).len() + 1,
        ops_of(final(insts)@) == ops_of(old(insts)@) + seq![inst@],
        ops_of(final(insts)@) == ops_of(old(insts)@).push(inst@),
{
    proof {
        lemma_ops_push(insts@, inst);
    }
    insts.push(inst);
}

/// Overwrites the placeholder at `at`.
fn patch(insts: &mut Vec<Inst>, at: usize, inst: Inst)
    requires
        at < old(insts).len(),
    ensures
        final(insts)@ == old(insts)@.update(at as int, inst),
        final(insts).len() == old(insts).len(),
        ops_of(final(insts)@) == ops_of(old(insts)@).update(at as int, inst@),
{
    proof {
        lemma_ops_update(insts@, at as int, inst);
    }
    insts.set(at, inst);
}

/// A `Split` that prefers `body` when greedy and `exit` when lazy.
fn split_inst(greedy: bool, body: usize, exit: usize) -> (inst: Inst)
    ensures
        inst@ == split(greedy, body as int, exit as int),
{
    if greedy {
        Inst::Split(body, exit)
    } else {
        Inst::Split(exit, body)
    }
}

/// Appends the code of `node` to `insts`.
fn emit(insts: &mut Vec<Inst>, node: &AstNode, Ghost(groups): Ghost<nat>)
    requires
        node@.well_formed(groups),
        2 * (groups + 1) <= usize::MAX,
    ensures
        ops_of(final(insts)@) == ops_of(old(insts)@) + code(node@, old(insts).len() as int),
        final(insts).len() == old(insts).len() + code(node@, old(insts).len() as int).len(),
    decreases node, 0nat,
{
    let ghost before = ops_of(insts@);
    let ghost base = insts.len() as int;
    match node {
        AstNode::Literal(ch) => {
            push_inst(insts, Inst::Char(*ch));
        },
        AstNode::Dot => {
            push_inst(insts, Inst::AnyChar);
        },
        AstNode::Concat(nodes) => {
            proof {
                lemma_model_all(nodes@);
            }
            emit_concat(insts, nodes, Ghost(groups));
        },
        AstNode::Alternation(branches) => {
            emit_alternation(insts, branches, Ghost(groups));
        },
        AstNode::Quantifier { node: sub, kind, greedy } => {
            emit_quantifier(insts, sub, kind, *greedy, Ghost(groups));
        },
        AstNode::CharClass { ranges, negated } => {
            let items = copy_items(ranges);
            push_inst(insts, Inst::CharClass { ranges: items, negated: *negated });
        },
        AstNode::ShorthandClass(kind) => {
            push_inst(insts, Inst::ShorthandClass(*kind));
        },
        AstNode::Anchor(kind) => {
            let inst = match kind {
                AnchorKind::Start => Inst::AssertStart,
                AnchorKind::End => Inst::AssertEnd,
                AnchorKind::WordBoundary => Inst::AssertWordBoundary,
                AnchorKind::NonWordBoundary => Inst::AssertNonWordBoundary,
            };
            push_inst(insts, inst);
        },
        AstNode::Group { index, node: sub } => {
            push_inst(insts, Inst::Save(*index * 2));
            emit(insts, sub, Ghost(groups));
            push_inst(insts, Inst::Save(*index * 2 + 1));
        },
        AstNode::NonCapturingGroup { node: sub } => {
            emit(insts, sub, Ghost(groups));
        },
        AstNode::Backreference(index) => {
            push_inst(insts, Inst::Backref(*index));
        },
        AstNode::Lookahead { node: sub, positive } => {
            let at = insts.len();
            push_inst(insts, Inst::Nop);
            let sub_start = insts.len();
            emit(insts, sub, Ghost(groups));
            push_inst(insts, Inst::Match);
            let sub_end = insts.len();
            if *positive {
                patch(insts, at, Inst::LookaheadPositive(sub_start, sub_end));
            } else {
                patch(insts, at, Inst::LookaheadNegative(sub_start, sub_end));
            }
        },
        AstNode::Lookbehind { node: sub, positive } => {
            let at = insts.len();
            push_inst(insts, Inst::Nop);
            let sub_start = insts.len();
            emit(insts, sub, Ghost(groups));
            push_inst(insts, Inst::Match);
            let sub_end = insts.len();
            if *positive {
                patch(insts, at, Inst::LookbehindPositive(sub_start, sub_end));
            } else {
                patch(insts, at, Inst::LookbehindNegative(sub_start, sub_end));
            }
        },
    }
}

/// Appends the code of `nodes`, one after the other.
fn emit_concat(insts: &mut Vec<Inst>, nodes: &Vec<AstNode>, Ghost(groups): Ghost<nat>)
    requires
        Ast::Concat(model_all(nodes@)).well_formed(groups),
        2 * (groups + 1) <= usize::MAX,
    ensures
        ops_of(final(insts)@) == ops_of(old(insts)@) + code_prefix(
            model_all(nodes@),
            nodes.len() as nat,
            old(insts).len() as int,
        ),
        final(insts).len() == old(insts).len() + code_prefix(
            model_all(nodes@),
            nodes.len() as nat,
            old(insts).len() as int,
        ).len(),
    decreases nodes, 0nat,
{
    let ghost before = ops_of(insts@);
    let ghost base = insts.len() as int;
    let ghost models = model_all(nodes@);
    proof {
        lemma_model_all(nodes@);
    }
    let mut i: usize = 0;
    while i < nodes.len()
        invariant
            i <= nodes.len(),
            models == model_all(nodes@),
            models.len() == nodes.len(),
            forall|j: int| 0 <= j < nodes.len() ==> #[trigger] models[j] == nodes@[j]@,
            Ast::Concat(models).well_formed(groups),
            2 * (groups + 1) <= usize::MAX,
            base + code_prefix(models, i as nat, base).len() == insts.len(),
            ops_of(insts@) == before + code_prefix(models, i as nat, base),
        decreases nodes.len() - i,
    {
        assert(models[i as int].well_formed(groups)) by {
            lemma_children_well_formed(models, groups, i as int);
        }
        emit(insts, &nodes[i], Ghost(groups));
        i += 1;
    }
}

/// Appends the code of an alternation: a chain of `Split`s, each branch but the last
/// followed by a `Jump` to the end, which is filled in once the end is known.
fn emit_alternation(insts: &mut Vec<Inst>, branches: &Vec<AstNode>, Ghost(groups): Ghost<nat>)
    requires
        Ast::Alternation(model_all(branches@)).well_formed(groups),
        2 * (groups + 1) <= usize::MAX,
    ensures
        ops_of(final(insts)@) == ops_of(old(insts)@) + code(
            Ast::Alternation(model_all(branches@)),
            old(insts).len() as int,
        ),
        final(insts).len() == old(insts).len() + code(
            Ast::Alternation(model_all(branches@)),
            old(insts).len() as int,
        ).len(),
    decreases branches, 0nat,
{
    let ghost before = ops_of(insts@);
    let ghost base = insts.len() as int;
    let ghost models = model_all(branches@);
    let ghost whole = Ast::Alternation(models);
    proof {
        lemma_model_all(branches@);
    }
    let n = branches.len();
    if n == 0 {
        return ;
    }
    if n == 1 {
        assert(models[0].well_formed(groups)) by {
            lemma_children_well_formed(models, groups, 0);
        }
        emit(insts, &branches[0], Ghost(groups));
        return ;
    }
    let ghost end = base + span(whole);
    let mut fixups: Vec<usize> = Vec::new();
    let mut i: usize = 0;
    while i < n - 1
        invariant
            n == branches.len(),
            n >= 2,
            i <= n - 1,
            models == model_all(branches@),
            models.len() == n,
            forall|j: int| 0 <= j < n ==> #[trigger] models[j] == branches@[j]@,
            whole == Ast::Alternation(models),
            whole.well_formed(groups),
            2 * (groups + 1) <= usize::MAX,
            insts.len() == base + alt_prefix(models, i as nat, base, end).len(),
            ops_of(insts@).len() == insts.len(),
            ops_of(insts@).take(base) == before,
            before.len() == base,
            forall|j: int|
                0 <= j < alt_prefix(models, i as nat, base, end).len() ==> {
                    let want = #[trigger] alt_prefix(models, i as nat, base, end)[j];
                    let have = ops_of(insts@)[base + j];
                    have == want || (have == Op::Nop && want == Op::Jump(end) && exists|k: int|
                        0 <= k < fixups.len() && fixups@[k] == base + j)
                },
            forall|k: int|
                0 <= k < fixups.len() ==> base <= #[trigger] fixups@[k] < insts.len()
                    && alt_prefix(models, i as nat, base, end)[fixups@[k] - base] == Op::Jump(end),
        decreases n - 1 - i,
    {
        let ghost sofar = alt_prefix(models, i as nat, base, end);
        let ghost ops_before = ops_of(insts@);
        let ghost fix_before = fixups@;
        assert(models[i as int].well_formed(groups)) by {
            lemma_children_well_formed(models, groups, i as int);
        }
        let split_at = insts.len();
        push_inst(insts, Inst::Nop);
        let branch_start = insts.len();
        emit(insts, &branches[i], Ghost(groups));
        let jump_at = insts.len();
        push_inst(insts, Inst::Nop);
        fixups.push(jump_at);
        let next_branch = insts.len();
        patch(insts, split_at, Inst::Split(branch_start, next_branch));
        proof {
            let next = alt_prefix(models, (i + 1) as nat, base, end);
            let now = ops_of(insts@);
            assert forall|j: int| 0 <= j < next.len() implies {
                let want = #[trigger] next[j];
                let have = now[base + j];
                have == want || (have == Op::Nop && want == Op::Jump(end) && exists|k: int|
                    0 <= k < fixups.len() && fixups@[k] == base + j)
            } by {
                if j < sofar.len() {
                    let want = sofar[j];
                    let have = ops_before[base + j];
                    if have != want {
                        let k = choose|k: int| 0 <= k < fix_before.len() && fix_before[k] == base + j;
                        assert(fixups@[k] == base + j);
                    }
                } else if j == next.len() - 1 {
                    assert(fixups@[fixups.len() - 1] == base + j);
                }
            }
        }
        i += 1;
    }
    assert(models[n - 1].well_formed(groups)) by {
        lemma_children_well_formed(models, groups, n - 1);
    }
    emit(insts, &branches[n - 1], Ghost(groups));
    let target = insts.len();
    let ghost want = code(whole, base);
    proof {
        lemma_code_len(whole, base);
        lemma_ops_len(insts@);
        assert forall|j: int| 0 <= j < want.len() implies {
            let have = ops_of(insts@)[base + j];
            have == #[trigger] want[j] || (have == Op::Nop && want[j] == Op::Jump(end)
                && exists|m: int| 0 <= m < fixups.len() && fixups@[m] == base + j)
        } by {
        }
    }
    let mut k: usize = 0;
    while k < fixups.len()
        invariant
            k <= fixups.len(),
            target == end,
            insts.len() == base + want.len(),
            ops_of(insts@).len() == insts.len(),
            ops_of(insts@).take(base) == before,
            before.len() == base,
            forall|j: int|
                0 <= j < want.len() ==> {
                    let have = ops_of(insts@)[base + j];
                    have == #[trigger] want[j] || (have == Op::Nop && want[j] == Op::Jump(end)
                        && exists|m: int| k <= m < fixups.len() && fixups@[m] == base + j)
                },
            forall|m: int|
                0 <= m < fixups.len() ==> base <= #[trigger] fixups@[m] < insts.len() && want[fixups@[m]
                    - base] == Op::Jump(end),
        decreases fixups.len() - k,
    {
        let at = fixups[k];
        patch(insts, at, Inst::Jump(target));
        proof {
            let now = ops_of(insts@);
            assert forall|j: int| 0 <= j < want.len() implies {
                let have = now[base + j];
                have == #[trigger] want[j] || (have == Op::Nop && want[j] == Op::Jump(end)
                    && exists|m: int| k + 1 <= m < fixups.len() && fixups@[m] == base + j)
            } by {
            }
        }
        k += 1;
    }
}

/// Appends the code of a quantified node.
fn emit_quantifier(
    insts: &mut Vec<Inst>,
    sub: &AstNode,
    kind: &QuantifierKind,
    greedy: bool,
    Ghost(groups): Ghost<nat>,
)
    requires
        sub@.well_formed(groups),
        2 * (groups + 1) <= usize::MAX,
    ensures
        ops_of(final(insts)@) == ops_of(old(insts)@) + code(
            Ast::Quantifier { node: Box::new(sub@), kind: kind@, greedy },
            old(insts).len() as int,
        ),
        final(insts).len() == old(insts).len() + code(
            Ast::Quantifier { node: Box::new(sub@), kind: kind@, greedy },
            old(insts).len() as int,
        ).len(),
    decreases sub, 3nat,
{
    let ghost before = ops_of(insts@);
    let ghost base = insts.len() as int;
    match kind {
        QuantifierKind::Star => {
            emit_star(insts, sub, greedy, Ghost(groups));
        },
        QuantifierKind::Plus => {
            let l1 = insts.len();
            emit(insts, sub, Ghost(groups));
            let at = insts.len();
            push_inst(insts, Inst::Nop);
            let l2 = insts.len();
            patch(insts, at, split_inst(greedy, l1, l2));
        },
        QuantifierKind::Question => {
            emit_question(insts, sub, greedy, Ghost(groups));
        },
        QuantifierKind::Exact(n) => {
            emit_repeated(insts, sub, *n, Ghost(groups));
        },
        QuantifierKind::AtLeast(n) => {
            emit_repeated(insts, sub, *n, Ghost(groups));
            emit_star(insts, sub, greedy, Ghost(groups));
        },
        QuantifierKind::Range(n, m) => {
            emit_repeated(insts, sub, *n, Ghost(groups));
            let ghost required = repeated(sub@, *n as nat, base);
            let ghost start = base + required.len();
            let count = if *m > *n {
                *m - *n
            } else {
                0
            };
            let mut i: usize = 0;
            while i < count
                invariant
                    i <= count,
                    count == extra(*n as nat, *m as nat),
                    sub@.well_formed(groups),
                    2 * (groups + 1) <= usize::MAX,
                    insts.len() == start + optional(sub@, greedy, i as nat, start).len(),
                    ops_of(insts@) == before + required + optional(sub@, greedy, i as nat, start),
                decreases count - i,
            {
                emit_question(insts, sub, greedy, Ghost(groups));
                i += 1;
            }
        },
    }
}

/// Appends `X*`. The `Split` is a placeholder until the end of the body is known.
fn emit_star(insts: &mut Vec<Inst>, sub: &AstNode, greedy: bool, Ghost(groups): Ghost<nat>)
    requires
        sub@.well_formed(groups),
        2 * (groups + 1) <= usize::MAX,
    ensures
        ops_of(final(insts)@) == ops_of(old(insts)@) + star(
            sub@,
            greedy,
            old(insts).len() as int,
        ),
        final(insts).len() == old(insts).len() + star(sub@, greedy, old(insts).len() as int).len(),
    decreases sub, 1nat,
{
    let ghost before = ops_of(insts@);
    let ghost base = insts.len() as int;
    let l1 = insts.len();
    push_inst(insts, Inst::Nop);
    let l2 = insts.len();
    emit(insts, sub, Ghost(groups));
    push_inst(insts, Inst::Jump(l1));
    let l3 = insts.len();
    patch(insts, l1, split_inst(greedy, l2, l3));
}

/// Appends `X?`. The `Split` is a placeholder until the end of the body is known.
fn emit_question(insts: &mut Vec<Inst>, sub: &AstNode, greedy: bool, Ghost(groups): Ghost<nat>)
    requires
        sub@.well_formed(groups),
        2 * (groups + 1) <= usize::MAX,
    ensures
        ops_of(final(insts)@) == ops_of(old(insts)@) + question(
            sub@,
            greedy,
            old(insts).len() as int,
        ),
        final(insts).len() == old(insts).len() + question(
            sub@,
            greedy,
            old(insts).len() as int,
        ).len(),
    decreases sub, 1nat,
{
    let at = insts.len();
    push_inst(insts, Inst::Nop);
    let l1 = insts.len();
    emit(insts, sub, Ghost(groups));
    let l2 = insts.len();
    patch(insts, at, split_inst(greedy, l1, l2));
}

/// Appends `count` copies of the code of `sub`.
fn emit_repeated(insts: &mut Vec<Inst>, sub: &AstNode, count: usize, Ghost(groups): Ghost<nat>)
    requires
        sub@.well_formed(groups),
        2 * (groups + 1) <= usize::MAX,
    ensures
        ops_of(final(insts)@) == ops_of(old(insts)@) + repeated(
            sub@,
            count as nat,
            old(insts).len() as int,
        ),
        final(insts).len() == old(insts).len() + repeated(
            sub@,
            count as nat,
            old(insts).len() as int,
        ).len(),
    decreases sub, 1nat,
{
    let ghost before = ops_of(insts@);
    let ghost base = insts.len() as int;
    let mut i: usize = 0;
    while i < count
        invariant
            i <= count,
            sub@.well_formed(groups),
            2 * (groups + 1) <= usize::MAX,
            insts.len() == base + repeated(sub@, i as nat, base).len(),
            ops_of(insts@) == before + repeated(sub@, i as nat, base),
        decreases count - i,
    {
        emit(insts, sub, Ghost(groups));
        i += 1;
    }
}

/// Extracts the first required literal character from the instructions, if any.
fn extract_first_char(insts: &Vec<Inst>) -> (first: Option<char>)
    ensures
        first == first_literal(ops_of(insts@)),
{
    if insts.len() == 0 {
        return None;
    }
    match &insts[0] {
        Inst::Char(ch) => Some(*ch),
        Inst::AssertStart => {
            if insts.len() > 1 {
                match &insts[1] {
                    Inst::Char(ch) => Some(*ch),
                    _ => None,
                }
            } else {
                None
            }
        },
        _ => None,
    }
}

/// Compiles a syntax tree with `n_groups` capturing groups into a program: the code of
/// the tree followed by a final `Match`.
pub fn compile(ast: &AstNode, n_groups: usize) -> (program: Program)
    requires
        ast@.well_formed(n_groups as nat),
        2 * (n_groups + 1) <= usize::MAX,
    ensures
        program@ == compiled(ast@, n_groups as nat),
        program.well_formed(),
        program@.saves_groups_only(),
{
    proof {
        lemma_compiled_well_formed(ast@, n_groups as nat);
    }
    let mut insts: Vec<Inst> = Vec::new();
    emit(&mut insts, ast, Ghost(n_groups as nat));
    push_inst(&mut insts, Inst::Match);
    let first_char = extract_first_char(&insts);
    let anchored_start = insts.len() > 0 && matches!(&insts[0], Inst::AssertStart);
    let program = Program { insts, n_groups, first_char, anchored_start };
    program
}

} // verus!
