//! Syntax tree of a pattern.
//!
//! [`AstNode`] is the tree that the parser builds and the compiler reads. [`Ast`] is its
//! mathematical model: the same tree with sequences for vectors and natural numbers for
//! machine integers. Contracts throughout the crate speak of the model.

use vstd::prelude::*;

verus! {

/// Shorthand character class kind.
#[derive(Debug, Clone, Copy, PartialEq, Eq, Structural)]
pub enum ShorthandKind {
    /// `\d`: the decimal digits `0` to `9`.
    Digit,
    /// `\D`: every character that is no decimal digit.
    NonDigit,
    /// `\w`: decimal digits, ASCII letters and `_`.
    Word,
    /// `\W`: every character that is no word character.
    NonWord,
    /// `\s`: space, tab, newline, carriage return, vertical tab, form feed.
    Space,
    /// `\S`: every character that is no whitespace.
    NonSpace,
}

/// Anchor kind.
#[derive(Debug, Clone, Copy, PartialEq, Eq, Structural)]
pub enum AnchorKind {
    /// `^`: start of the input.
    Start,
    /// `$`: end of the input.
    End,
    /// `\b`: word boundary.
    WordBoundary,
    /// `\B`: anywhere but at a word boundary.
    NonWordBoundary,
}

/// Item within a character class.
#[derive(Debug, Clone, Copy, PartialEq, Eq, Structural)]
pub enum ClassItem {
    /// Single character.
    Literal(char),
    /// Character range `a-z`, both ends included.
    Range(char, char),
    /// Shorthand within a class, e.g. `[\d]`.
    Shorthand(ShorthandKind),
}

/// Kind of quantifier.
#[derive(Debug, Clone, Copy, PartialEq, Eq, Structural)]
pub enum QuantifierKind {
    /// `*`: zero or more.
    Star,
    /// `+`: one or more.
    Plus,
    /// `?`: zero or one.
    Question,
    /// `{n}`: exactly n.
    Exact(usize),
    /// `{n,}`: at least n.
    AtLeast(usize),
    /// `{n,m}`: between n and m, both included.
    Range(usize, usize),
}

/// Inline flags (`i`, `s`, `m`). No syntax produces them yet and the matcher gives them no
/// meaning; the record is kept for callers that carry flags alongside a pattern.
#[derive(Debug, Clone, Copy, PartialEq, Eq, Structural)]
pub struct RegexFlags {
    /// Case-insensitive matching.
    pub case_insensitive: bool,
    /// Dotall mode: `.` matches newline.
    pub dotall: bool,
    /// Multiline mode: `^` and `$` match at line boundaries.
    pub multiline: bool,
}

impl Default for RegexFlags {
    fn default() -> (flags: RegexFlags)
        ensures
            !flags.case_insensitive,
            !flags.dotall,
            !flags.multiline,
    {
        RegexFlags { case_insensitive: false, dotall: false, multiline: false }
    }
}

/// A single node in the syntax tree.
#[derive(Debug, PartialEq, Eq)]
pub enum AstNode {
    /// Matches a single literal character.
    Literal(char),
    /// Matches any character except newline.
    Dot,
    /// Concatenation of nodes (implicit in `ab`).
    Concat(Vec<AstNode>),
    /// Alternation (`a|b`), leftmost branch preferred.
    Alternation(Vec<AstNode>),
    /// Quantifier applied to a sub-expression.
    Quantifier { node: Box<AstNode>, kind: QuantifierKind, greedy: bool },
    /// Character class like `[abc]`, `[a-z]`, `[^abc]`.
    CharClass { ranges: Vec<ClassItem>, negated: bool },
    /// Shorthand class: `\d`, `\w`, `\s` and their negations.
    ShorthandClass(ShorthandKind),
    /// Anchor: `^`, `$`, `\b`, `\B`.
    Anchor(AnchorKind),
    /// Capturing group `(...)` with its index, counted from 1.
    Group { index: usize, node: Box<AstNode> },
    /// Non-capturing group `(?:...)`.
    NonCapturingGroup { node: Box<AstNode> },
    /// Backreference `\1` to `\9`.
    Backreference(usize),
    /// Lookahead `(?=...)` or `(?!...)`.
    Lookahead { node: Box<AstNode>, positive: bool },
    /// Lookbehind `(?<=...)` or `(?<!...)`.
    Lookbehind { node: Box<AstNode>, positive: bool },
}

/// Model of a [`QuantifierKind`].
pub enum Repeat {
    Star,
    Plus,
    Question,
    Exact(nat),
    AtLeast(nat),
    Range(nat, nat),
}

/// Model of an [`AstNode`].
pub enum Ast {
    Literal(char),
    Dot,
    Concat(Seq<Ast>),
    Alternation(Seq<Ast>),
    Quantifier { node: Box<Ast>, kind: Repeat, greedy: bool },
    CharClass { items: Seq<ClassItem>, negated: bool },
    Shorthand(ShorthandKind),
    Anchor(AnchorKind),
    Group { index: nat, node: Box<Ast> },
    NonCapturing { node: Box<Ast> },
    Backreference(nat),
    Lookahead { node: Box<Ast>, positive: bool },
    Lookbehind { node: Box<Ast>, positive: bool },
}

impl View for QuantifierKind {
    type V = Repeat;

    open spec fn view(&self) -> Repeat {
        match *self {
            QuantifierKind::Star => Repeat::Star,
            QuantifierKind::Plus => Repeat::Plus,
            QuantifierKind::Question => Repeat::Question,
            QuantifierKind::Exact(n) => Repeat::Exact(n as nat),
            QuantifierKind::AtLeast(n) => Repeat::AtLeast(n as nat),
            QuantifierKind::Range(n, m) => Repeat::Range(n as nat, m as nat),
        }
    }
}

/// The models of `nodes`, in order.
pub open spec fn model_all(nodes: Seq<AstNode>) -> Seq<Ast>
    decreases nodes,
{
    if nodes.len() == 0 {
        Seq::empty()
    } else {
        model_all(nodes.drop_last()).push(model(nodes.last()))
    }
}

/// The model of `node`.
pub open spec fn model(node: AstNode) -> Ast
    decreases node,
{
    match node {
        AstNode::Literal(c) => Ast::Literal(c),
        AstNode::Dot => Ast::Dot,
        AstNode::Concat(nodes) => Ast::Concat(model_all(nodes@)),
        AstNode::Alternation(nodes) => Ast::Alternation(model_all(nodes@)),
        AstNode::Quantifier { node, kind, greedy } => Ast::Quantifier {
            node: Box::new(model(*node)),
            kind: kind@,
            greedy,
        },
        AstNode::CharClass { ranges, negated } => Ast::CharClass { items: ranges@, negated },
        AstNode::ShorthandClass(kind) => Ast::Shorthand(kind),
        AstNode::Anchor(kind) => Ast::Anchor(kind),
        AstNode::Group { index, node } => Ast::Group {
            index: index as nat,
            node: Box::new(model(*node)),
        },
        AstNode::NonCapturingGroup { node } => Ast::NonCapturing { node: Box::new(model(*node)) },
        AstNode::Backreference(index) => Ast::Backreference(index as nat),
        AstNode::Lookahead { node, positive } => Ast::Lookahead {
            node: Box::new(model(*node)),
            positive,
        },
        AstNode::Lookbehind { node, positive } => Ast::Lookbehind {
            node: Box::new(model(*node)),
            positive,
        },
    }
}

impl View for AstNode {
    type V = Ast;

    open spec fn view(&self) -> Ast {
        model(*self)
    }
}

/// `model_all` goes element by element.
pub proof fn lemma_model_all(nodes: Seq<AstNode>)
    ensures
        model_all(nodes).len() == nodes.len(),
        forall|i: int| 0 <= i < nodes.len() ==> #[trigger] model_all(nodes)[i] == model(nodes[i]),
    decreases nodes.len(),
{
    if nodes.len() > 0 {
        lemma_model_all(nodes.drop_last());
    }
}

/// Each of `nodes` has its capturing groups numbered above `low` and up to `high`.
pub open spec fn all_numbered(nodes: Seq<Ast>, low: nat, high: nat) -> bool
    decreases nodes, 0nat,
{
    forall|i: int| 0 <= i < nodes.len() ==> (#[trigger] nodes[i]).numbered(low, high)
}

/// Number of capturing groups in the first `count` of `nodes`.
pub open spec fn capturing_all(nodes: Seq<Ast>, count: nat) -> nat
    decreases nodes, count,
{
    if count == 0 || count > nodes.len() {
        0
    } else {
        capturing_all(nodes, (count - 1) as nat) + nodes[count - 1].capturing()
    }
}

impl Ast {
    /// Every capturing group below `self` has an index above `low` and up to `high`.
    pub open spec fn numbered(self, low: nat, high: nat) -> bool
        decreases self, 0nat,
    {
        match self {
            Ast::Concat(nodes) => all_numbered(nodes, low, high),
            Ast::Alternation(nodes) => all_numbered(nodes, low, high),
            Ast::Quantifier { node, .. } => node.numbered(low, high),
            Ast::Group { index, node } => low < index <= high && node.numbered(low, high),
            Ast::NonCapturing { node } => node.numbered(low, high),
            Ast::Lookahead { node, .. } => node.numbered(low, high),
            Ast::Lookbehind { node, .. } => node.numbered(low, high),
            _ => true,
        }
    }

    /// Every capturing group below `self` has an index from 1 to `groups`.
    pub open spec fn well_formed(self, groups: nat) -> bool {
        self.numbered(0, groups)
    }

    /// Number of capturing groups below `self`, itself included.
    pub open spec fn capturing(self) -> nat
        decreases self, 0nat,
    {
        match self {
            Ast::Concat(nodes) => capturing_all(nodes, nodes.len()),
            Ast::Alternation(nodes) => capturing_all(nodes, nodes.len()),
            Ast::Quantifier { node, .. } => node.capturing(),
            Ast::Group { node, .. } => 1 + node.capturing(),
            Ast::NonCapturing { node } => node.capturing(),
            Ast::Lookahead { node, .. } => node.capturing(),
            Ast::Lookbehind { node, .. } => node.capturing(),
            _ => 0,
        }
    }
}

/// None of `nodes` holds a capturing group with the index `group`.
pub open spec fn all_lack(nodes: Seq<Ast>, group: nat) -> bool
    decreases nodes, 0nat,
{
    forall|i: int| 0 <= i < nodes.len() ==> (#[trigger] nodes[i]).lacks(group)
}

/// In each of `nodes`, no lookaround holds a capturing group with the index `group`.
pub open spec fn all_lookarounds_lack(nodes: Seq<Ast>, group: nat) -> bool
    decreases nodes, 0nat,
{
    forall|i: int| 0 <= i < nodes.len() ==> (#[trigger] nodes[i]).lookarounds_lack(group)
}

impl Ast {
    /// No capturing group below `self`, itself included, has the index `group`.
    pub open spec fn lacks(self, group: nat) -> bool
        decreases self, 0nat,
    {
        match self {
            Ast::Concat(nodes) => all_lack(nodes, group),
            Ast::Alternation(nodes) => all_lack(nodes, group),
            Ast::Quantifier { node, .. } => node.lacks(group),
            Ast::Group { index, node } => index != group && node.lacks(group),
            Ast::NonCapturing { node } => node.lacks(group),
            Ast::Lookahead { node, .. } => node.lacks(group),
            Ast::Lookbehind { node, .. } => node.lacks(group),
            _ => true,
        }
    }

    /// No lookahead and no lookbehind below `self` holds a capturing group with the
    /// index `group`: the groups of that index stand outside every lookaround.
    pub open spec fn lookarounds_lack(self, group: nat) -> bool
        decreases self, 0nat,
    {
        match self {
            Ast::Concat(nodes) => all_lookarounds_lack(nodes, group),
            Ast::Alternation(nodes) => all_lookarounds_lack(nodes, group),
            Ast::Quantifier { node, .. } => node.lookarounds_lack(group),
            Ast::Group { node, .. } => node.lookarounds_lack(group),
            Ast::NonCapturing { node } => node.lookarounds_lack(group),
            Ast::Lookahead { node, .. } => node.lacks(group),
            Ast::Lookbehind { node, .. } => node.lacks(group),
            _ => true,
        }
    }
}

/// In each of `nodes`, every capturing group has a smaller index than the groups inside
/// it, which are numbered up to `high`.
pub open spec fn all_layered(nodes: Seq<Ast>, high: nat) -> bool
    decreases nodes, 0nat,
{
    forall|i: int| 0 <= i < nodes.len() ==> (#[trigger] nodes[i]).layered(high)
}

impl Ast {
    /// Every capturing group below `self` has a smaller index than the groups inside it,
    /// which are numbered up to `high`.
    pub open spec fn layered(self, high: nat) -> bool
        decreases self, 0nat,
    {
        match self {
            Ast::Concat(nodes) => all_layered(nodes, high),
            Ast::Alternation(nodes) => all_layered(nodes, high),
            Ast::Quantifier { node, .. } => node.layered(high),
            Ast::Group { index, node } => node.numbered(index, high) && node.layered(high),
            Ast::NonCapturing { node } => node.layered(high),
            Ast::Lookahead { node, .. } => node.layered(high),
            Ast::Lookbehind { node, .. } => node.layered(high),
            _ => true,
        }
    }
}

/// A tree that is layered with its groups numbered up to `high` is layered with them
/// numbered up to any greater number.
pub proof fn lemma_layered_widens(node: Ast, high: nat, higher: nat)
    requires
        node.layered(high),
        high <= higher,
    ensures
        node.layered(higher),
    decreases node, 0nat,
{
    match node {
        Ast::Concat(nodes) => {
            lemma_all_layered_widens(nodes, high, higher);
        },
        Ast::Alternation(nodes) => {
            lemma_all_layered_widens(nodes, high, higher);
        },
        Ast::Quantifier { node: inner, .. } => {
            lemma_layered_widens(*inner, high, higher);
        },
        Ast::Group { index, node: inner } => {
            lemma_numbered_widens(*inner, index, high, index, higher);
            lemma_layered_widens(*inner, high, higher);
        },
        Ast::NonCapturing { node: inner } => {
            lemma_layered_widens(*inner, high, higher);
        },
        Ast::Lookahead { node: inner, .. } => {
            lemma_layered_widens(*inner, high, higher);
        },
        Ast::Lookbehind { node: inner, .. } => {
            lemma_layered_widens(*inner, high, higher);
        },
        _ => {},
    }
}

/// As `lemma_layered_widens`, for each of `nodes`.
pub proof fn lemma_all_layered_widens(nodes: Seq<Ast>, high: nat, higher: nat)
    requires
        all_layered(nodes, high),
        high <= higher,
    ensures
        all_layered(nodes, higher),
    decreases nodes, 1nat,
{
    assert forall|i: int| 0 <= i < nodes.len() implies (#[trigger] nodes[i]).layered(higher) by {
        lemma_layered_widens(nodes[i], high, higher);
    }
}

/// In each of `nodes`, every lookaround is positive.
pub open spec fn all_lookarounds_positive(nodes: Seq<Ast>) -> bool
    decreases nodes, 0nat,
{
    forall|i: int| 0 <= i < nodes.len() ==> (#[trigger] nodes[i]).lookarounds_positive()
}

impl Ast {
    /// Every lookahead and every lookbehind below `self` is positive.
    pub open spec fn lookarounds_positive(self) -> bool
        decreases self, 0nat,
    {
        match self {
            Ast::Concat(nodes) => all_lookarounds_positive(nodes),
            Ast::Alternation(nodes) => all_lookarounds_positive(nodes),
            Ast::Quantifier { node, .. } => node.lookarounds_positive(),
            Ast::Group { node, .. } => node.lookarounds_positive(),
            Ast::NonCapturing { node } => node.lookarounds_positive(),
            Ast::Lookahead { node, positive } => positive && node.lookarounds_positive(),
            Ast::Lookbehind { node, positive } => positive && node.lookarounds_positive(),
            _ => true,
        }
    }
}

/// A concatenation or an alternation is numbered within a range exactly when each of its
/// nodes is.
pub proof fn lemma_numbered_nodes(nodes: Seq<Ast>, low: nat, high: nat)
    ensures
        Ast::Concat(nodes).numbered(low, high) <==> all_numbered(nodes, low, high),
        Ast::Alternation(nodes).numbered(low, high) <==> all_numbered(nodes, low, high),
{
}

/// A concatenation or an alternation is layered exactly when each of its nodes is.
pub proof fn lemma_layered_nodes(nodes: Seq<Ast>, high: nat)
    ensures
        Ast::Concat(nodes).layered(high) <==> all_layered(nodes, high),
        Ast::Alternation(nodes).layered(high) <==> all_layered(nodes, high),
{
}

/// A concatenation or an alternation holds no group of an index exactly when none of its
/// nodes does, and the same of its lookarounds; and every lookaround is positive exactly
/// when every one is in each of its nodes.
pub proof fn lemma_lookarounds_nodes(nodes: Seq<Ast>, group: nat)
    ensures
        Ast::Concat(nodes).lacks(group) <==> all_lack(nodes, group),
        Ast::Alternation(nodes).lacks(group) <==> all_lack(nodes, group),
        Ast::Concat(nodes).lookarounds_lack(group) <==> all_lookarounds_lack(nodes, group),
        Ast::Alternation(nodes).lookarounds_lack(group) <==> all_lookarounds_lack(nodes, group),
        Ast::Concat(nodes).lookarounds_positive() <==> all_lookarounds_positive(nodes),
        Ast::Alternation(nodes).lookarounds_positive() <==> all_lookarounds_positive(nodes),
{
}

/// A tree that holds no group of an index holds none in a lookaround.
pub proof fn lemma_lacks(node: Ast, group: nat)
    requires
        node.lacks(group),
    ensures
        node.lookarounds_lack(group),
    decreases node, 0nat,
{
    match node {
        Ast::Concat(nodes) => {
            lemma_all_lack(nodes, group);
        },
        Ast::Alternation(nodes) => {
            lemma_all_lack(nodes, group);
        },
        Ast::Quantifier { node: inner, .. } => {
            lemma_lacks(*inner, group);
        },
        Ast::Group { node: inner, .. } => {
            lemma_lacks(*inner, group);
        },
        Ast::NonCapturing { node: inner } => {
            lemma_lacks(*inner, group);
        },
        _ => {},
    }
}

/// As `lemma_lacks`, for each of `nodes`.
pub proof fn lemma_all_lack(nodes: Seq<Ast>, group: nat)
    requires
        all_lack(nodes, group),
    ensures
        all_lookarounds_lack(nodes, group),
    decreases nodes, 1nat,
{
    assert forall|i: int| 0 <= i < nodes.len() implies (#[trigger] nodes[i]).lookarounds_lack(
        group,
    ) by {
        lemma_lacks(nodes[i], group);
    }
}

/// A tree that is numbered within a range is numbered within every wider range.
pub proof fn lemma_numbered_widens(node: Ast, low: nat, high: nat, lower: nat, higher: nat)
    requires
        node.numbered(low, high),
        lower <= low,
        high <= higher,
    ensures
        node.numbered(lower, higher),
    decreases node, 0nat,
{
    match node {
        Ast::Concat(nodes) => {
            lemma_all_numbered_widens(nodes, low, high, lower, higher);
        },
        Ast::Alternation(nodes) => {
            lemma_all_numbered_widens(nodes, low, high, lower, higher);
        },
        Ast::Quantifier { node: inner, .. } => {
            lemma_numbered_widens(*inner, low, high, lower, higher);
        },
        Ast::Group { node: inner, .. } => {
            lemma_numbered_widens(*inner, low, high, lower, higher);
        },
        Ast::NonCapturing { node: inner } => {
            lemma_numbered_widens(*inner, low, high, lower, higher);
        },
        Ast::Lookahead { node: inner, .. } => {
            lemma_numbered_widens(*inner, low, high, lower, higher);
        },
        Ast::Lookbehind { node: inner, .. } => {
            lemma_numbered_widens(*inner, low, high, lower, higher);
        },
        _ => {},
    }
}

/// As `lemma_numbered_widens`, for each of `nodes`.
pub proof fn lemma_all_numbered_widens(
    nodes: Seq<Ast>,
    low: nat,
    high: nat,
    lower: nat,
    higher: nat,
)
    requires
        all_numbered(nodes, low, high),
        lower <= low,
        high <= higher,
    ensures
        all_numbered(nodes, lower, higher),
    decreases nodes, 1nat,
{
    assert forall|i: int| 0 <= i < nodes.len() implies (#[trigger] nodes[i]).numbered(
        lower,
        higher,
    ) by {
        lemma_numbered_widens(nodes[i], low, high, lower, higher);
    }
}

/// A copy of the items of a class.
pub(crate) fn copy_items(items: &Vec<ClassItem>) -> (copy: Vec<ClassItem>)
    ensures
        copy@ == items@,
{
    let mut copy: Vec<ClassItem> = Vec::new();
    let mut i: usize = 0;
    while i < items.len()
        invariant
            i <= items.len(),
            copy@ == items@.take(i as int),
        decreases items.len() - i,
    {
        copy.push(items[i]);
        i += 1;
    }
    copy
}

fn copy_node(node: &AstNode) -> (copy: AstNode)
    ensures
        copy@ == node@,
    decreases node,
{
    match node {
        AstNode::Literal(c) => AstNode::Literal(*c),
        AstNode::Dot => AstNode::Dot,
        AstNode::Concat(nodes) => AstNode::Concat(copy_nodes(nodes)),
        AstNode::Alternation(nodes) => AstNode::Alternation(copy_nodes(nodes)),
        AstNode::Quantifier { node, kind, greedy } => AstNode::Quantifier {
            node: Box::new(copy_node(node)),
            kind: *kind,
            greedy: *greedy,
        },
        AstNode::CharClass { ranges, negated } => AstNode::CharClass {
            ranges: copy_items(ranges),
            negated: *negated,
        },
        AstNode::ShorthandClass(kind) => AstNode::ShorthandClass(*kind),
        AstNode::Anchor(kind) => AstNode::Anchor(*kind),
        AstNode::Group { index, node } => AstNode::Group {
            index: *index,
            node: Box::new(copy_node(node)),
        },
        AstNode::NonCapturingGroup { node } => AstNode::NonCapturingGroup {
            node: Box::new(copy_node(node)),
        },
        AstNode::Backreference(index) => AstNode::Backreference(*index),
        AstNode::Lookahead { node, positive } => AstNode::Lookahead {
            node: Box::new(copy_node(node)),
            positive: *positive,
        },
        AstNode::Lookbehind { node, positive } => AstNode::Lookbehind {
            node: Box::new(copy_node(node)),
            positive: *positive,
        },
    }
}

fn copy_nodes(nodes: &Vec<AstNode>) -> (copy: Vec<AstNode>)
    ensures
        model_all(copy@) == model_all(nodes@),
    decreases nodes,
{
    let mut copy: Vec<AstNode> = Vec::new();
    let mut i: usize = 0;
    while i < nodes.len()
        invariant
            i <= nodes.len(),
            model_all(copy@) == model_all(nodes@.take(i as int)),
        decreases nodes.len() - i,
    {
        let node = copy_node(&nodes[i]);
        proof {
            assert(nodes@.take(i + 1).drop_last() == nodes@.take(i as int));
            assert(copy@.push(node).drop_last() == copy@);
        }
        copy.push(node);
        i += 1;
    }
    assert(nodes@.take(i as int) == nodes@);
    copy
}

impl Clone for AstNode {
    /// A deep copy: the copy has the same model.
    fn clone(&self) -> (copy: Self)
        ensures
            copy@ == self@,
    {
        copy_node(self)
    }
}

} // verus!
