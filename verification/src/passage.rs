//! How a run passes through compiled code.
//!
//! The code of a node has one way in, its first instruction, and one way out, the
//! instruction after its last. A run that enters the code of a node and ends in a match
//! leaves it again: the match it ends in is the match of the run from the way out. Between
//! the way in and the way out the position does not go back and the bounds of the whole
//! match stay as they are. A group that no lookaround holds is left as it was or closed
//! around a stretch of what was read in between. Where no lookaround is negative, the
//! node matches from the state on the way in to the state on the way out.

use crate::ast::{
    all_lack, all_layered, all_lookarounds_lack, all_lookarounds_positive, all_numbered,
    lemma_lacks, lemma_layered_nodes, lemma_lookarounds_nodes, lemma_numbered_nodes, Ast,
    Repeat,
};
use crate::compiler::{
    alt_prefix, code, code_prefix, extra, lemma_code_len, optional, question, repeated, span,
    split, star, Op,
};
use crate::semantics::{
    accepts, accepts_all, accepts_any, accepts_inside, accepts_some, accepts_times, allows,
    hidden, looks, looks_back, reached, reached_from, State,
};
use crate::vm::{adopted, behind, referenced, run, MAX_DEPTH, MAX_IDLE};
use vstd::prelude::*;

verus! {

/// Where a run stands, apart from its instruction: the position in the text, the capture
/// slots, the nesting of the branch, and the steps since input was last consumed.
pub struct Config {
    pub pos: int,
    pub slots: Seq<Option<usize>>,
    pub depth: nat,
    pub idle: nat,
}

/// What a passage is about: the program and the text of the run, the range above `low` and
/// up to `high` in which the groups are numbered, whether every group has a smaller index
/// than the groups inside it (`tidy`), a group to watch (`watch`), whether no lookaround
/// holds a group of that index (`bare`), whether there is no group of that index at all
/// (`absent`), and whether no lookaround is negative (`sure`).
pub struct Scene {
    pub ops: Seq<Op>,
    pub text: Seq<char>,
    pub low: nat,
    pub high: nat,
    pub tidy: bool,
    pub watch: nat,
    pub bare: bool,
    pub absent: bool,
    pub sure: bool,
}

/// The position and the slots of a configuration.
pub open spec fn state(at: Config) -> State {
    State { pos: at.pos, slots: at.slots }
}

/// What the run from instruction `pc` in the configuration `at` finds.
pub open spec fn result(scene: Scene, pc: int, at: Config) -> Option<Seq<Option<usize>>> {
    run(scene.ops, scene.text, at.pos, pc, at.slots, at.depth, at.idle)
}

/// The instructions `part` stand in `ops` from index `base` on.
pub open spec fn holds(ops: Seq<Op>, part: Seq<Op>, base: int) -> bool {
    &&& 0 <= base
    &&& base + part.len() <= ops.len()
    &&& ops.subrange(base, base + part.len()) =~= part
}

/// The configuration lies within the text, and has two slots for the whole match and two
/// for each group, of which there are `high` at least.
pub open spec fn fits(scene: Scene, at: Config) -> bool {
    &&& scene.text.len() <= usize::MAX
    &&& 0 <= at.pos <= scene.text.len()
    &&& at.slots.len() >= 2 * (scene.high + 1)
    &&& at.slots.len() % 2 == 0
}

/// The tree `node` is one that the scene is about.
pub open spec fn covers(scene: Scene, node: Ast) -> bool {
    &&& node.numbered(scene.low, scene.high)
    &&& scene.tidy ==> node.layered(scene.high)
    &&& scene.bare ==> node.lookarounds_lack(scene.watch)
    &&& scene.absent ==> node.lacks(scene.watch)
    &&& scene.sure ==> node.lookarounds_positive()
}

/// Each of `nodes` is one that the scene is about.
pub open spec fn covers_all(scene: Scene, nodes: Seq<Ast>) -> bool {
    &&& all_numbered(nodes, scene.low, scene.high)
    &&& scene.tidy ==> all_layered(nodes, scene.high)
    &&& scene.bare ==> all_lookarounds_lack(nodes, scene.watch)
    &&& scene.absent ==> all_lack(nodes, scene.watch)
    &&& scene.sure ==> all_lookarounds_positive(nodes)
}

/// The configuration `b` comes no earlier in a run than `a`: it is nested deeper, or as
/// deep and further on in the text, or there too and no fewer steps from where input was
/// last consumed.
pub open spec fn later(a: Config, b: Config) -> bool {
    b.depth > a.depth || (b.depth == a.depth && (b.pos > a.pos || (b.pos == a.pos && b.idle
        >= a.idle)))
}

/// From `a` to `b` the run has not gone back, and has left the number of slots and the
/// bounds of the whole match as they were.
pub open spec fn advances(a: Config, b: Config) -> bool {
    &&& a.pos <= b.pos
    &&& later(a, b)
    &&& b.slots.len() == a.slots.len()
    &&& b.slots[0] == a.slots[0]
    &&& b.slots[1] == a.slots[1]
}

/// The two slots of `group` are in `b` what they are in `a`.
pub open spec fn kept(a: Config, b: Config, group: int) -> bool {
    b.slots[2 * group] == a.slots[2 * group] && b.slots[2 * group + 1] == a.slots[2 * group + 1]
}

/// The two slots of `group` are set in `b`, around a stretch of the text from `low` up to
/// `high`.
pub open spec fn closed(b: Config, group: int, low: int, high: int) -> bool {
    &&& b.slots[2 * group] matches Some(start)
    &&& b.slots[2 * group + 1] matches Some(end)
    &&& low <= start <= end <= high
}

/// Each group is in `b` as it is in `a`, or numbered above `low` and up to `high` and
/// closed around a stretch of the text from `from` up to `to`.
pub open spec fn pairs(a: Config, b: Config, low: nat, high: nat, from: int, to: int) -> bool {
    forall|group: int|
        1 <= group && 2 * group + 1 < a.slots.len() ==> #[trigger] kept(a, b, group) || (low
            < group <= high && closed(b, group, from, to))
}

/// The group `group` has slots in `a`, and is in `b` as it is in `a`, or numbered above
/// `low` and up to `high` and closed around a stretch of the text between the positions
/// of `a` and `b`.
pub open spec fn within(a: Config, b: Config, group: int, low: nat, high: nat) -> bool {
    1 <= group && 2 * group + 1 < a.slots.len() ==> kept(a, b, group) || (low < group <= high
        && closed(b, group, a.pos, b.pos))
}

/// The two slots of `group`, where `sub` has them, are in `sub` what they are in `slots`.
pub open spec fn untouched(slots: Seq<Option<usize>>, sub: Seq<Option<usize>>, group: int) -> bool {
    1 <= group && 2 * group + 1 < sub.len() ==> sub[2 * group] == slots[2 * group] && sub[2
        * group + 1] == slots[2 * group + 1]
}

/// What holds between the configuration `a` on the way into the code of a node and the
/// configuration `b` on the way out: the run has moved on. Where every group has a
/// smaller index than the groups inside it, each group is as it was or closed around a
/// stretch of the text. Where no lookaround holds the watched group, that group is as it
/// was or closed around a stretch between the positions of `a` and `b`. Where there is
/// no such group, its slots are as they were.
pub open spec fn passes(scene: Scene, a: Config, b: Config) -> bool {
    &&& advances(a, b)
    &&& scene.tidy ==> pairs(a, b, scene.low, scene.high, 0, scene.text.len() as int)
    &&& scene.bare ==> within(a, b, scene.watch as int, scene.low, scene.high)
    &&& scene.absent ==> (1 <= scene.watch && 2 * scene.watch + 1 < a.slots.len() ==> kept(
        a,
        b,
        scene.watch as int,
    ))
}

/// The run that entered at `entry` and finds `found` has come to `exit` at `pc`.
pub open spec fn arrives(
    scene: Scene,
    entry: Config,
    exit: Config,
    pc: int,
    found: Seq<Option<usize>>,
) -> bool {
    &&& passes(scene, entry, exit)
    &&& fits(scene, exit)
    &&& result(scene, pc, exit) == Some(found)
}

/// One passage after another is a passage.
pub proof fn lemma_passes_chain(scene: Scene, a: Config, b: Config, c: Config)
    requires
        passes(scene, a, b),
        passes(scene, b, c),
    ensures
        passes(scene, a, c),
{
    let len = scene.text.len() as int;
    if scene.tidy {
        assert forall|group: int| 1 <= group && 2 * group + 1 < a.slots.len() implies #[trigger] kept(
            a,
            c,
            group,
        ) || (scene.low < group <= scene.high && closed(c, group, 0, len)) by {
            assert(kept(a, b, group) || (scene.low < group <= scene.high && closed(
                b,
                group,
                0,
                len,
            )));
            assert(kept(b, c, group) || (scene.low < group <= scene.high && closed(
                c,
                group,
                0,
                len,
            )));
        }
    }
}

/// A step that leaves the slots alone is a passage.
pub proof fn lemma_passes_still(scene: Scene, a: Config, b: Config)
    requires
        b.slots == a.slots,
        a.pos <= b.pos,
        later(a, b),
    ensures
        passes(scene, a, b),
{
}

/// What stands in `ops` at an index within `part`.
pub proof fn lemma_holds_index(ops: Seq<Op>, part: Seq<Op>, base: int, k: int)
    requires
        holds(ops, part, base),
        0 <= k < part.len(),
    ensures
        ops[base + k] == part[k],
{
}

/// A stretch of instructions that stand in `ops` stands in `ops`.
pub proof fn lemma_holds_piece(ops: Seq<Op>, whole: Seq<Op>, base: int, offset: int, part: Seq<Op>)
    requires
        holds(ops, whole, base),
        0 <= offset,
        offset + part.len() <= whole.len(),
        whole.subrange(offset, offset + part.len()) =~= part,
    ensures
        holds(ops, part, base + offset),
{
}

/// The nodes of a concatenation or an alternation that a scene is about are nodes that
/// the scene is about.
pub proof fn lemma_covers_nodes(scene: Scene, nodes: Seq<Ast>)
    requires
        covers(scene, Ast::Concat(nodes)) || covers(scene, Ast::Alternation(nodes)),
    ensures
        covers_all(scene, nodes),
        forall|i: int| 0 <= i < nodes.len() ==> covers(scene, #[trigger] nodes[i]),
{
    lemma_numbered_nodes(nodes, scene.low, scene.high);
    lemma_layered_nodes(nodes, scene.high);
    lemma_lookarounds_nodes(nodes, scene.watch);
}

/// A match of a node is one repetition of it.
pub proof fn lemma_times_one(node: Ast, text: Seq<char>, from: State, to: State)
    requires
        accepts(node, text, from, to),
    ensures
        accepts_times(node, 1, text, from, to),
{
    assert(reached(to) && accepts(node, text, from, to) && accepts_times(node, 0, text, to, to));
}

/// A match of a node before some repetitions of it is one repetition more.
pub proof fn lemma_times_more(
    node: Ast,
    n: nat,
    text: Seq<char>,
    from: State,
    mid: State,
    to: State,
)
    requires
        accepts(node, text, from, mid),
        accepts_times(node, n, text, mid, to),
    ensures
        accepts_times(node, n + 1, text, from, to),
{
    assert(reached(mid) && accepts(node, text, from, mid) && accepts_times(
        node,
        n,
        text,
        mid,
        to,
    ));
}

/// Some repetitions of a node after some others are as many as both together.
pub proof fn lemma_times_join(
    node: Ast,
    n: nat,
    m: nat,
    text: Seq<char>,
    from: State,
    mid: State,
    to: State,
)
    requires
        accepts_times(node, n, text, from, mid),
        accepts_times(node, m, text, mid, to),
    ensures
        accepts_times(node, n + m, text, from, to),
    decreases n,
{
    if n > 0 {
        let first = choose|first: State| #[trigger]
            reached(first) && accepts(node, text, from, first) && accepts_times(
                node,
                (n - 1) as nat,
                text,
                first,
                mid,
            );
        lemma_times_join(node, (n - 1) as nat, m, text, first, mid, to);
        lemma_times_more(node, (n - 1 + m) as nat, text, from, first, to);
    }
}

/// A run passes through the code of a node.
pub proof fn lemma_node(
    scene: Scene,
    node: Ast,
    base: int,
    entry: Config,
    found: Seq<Option<usize>>,
) -> (exit: Config)
    requires
        covers(scene, node),
        holds(scene.ops, code(node, base), base),
        fits(scene, entry),
        result(scene, base, entry) == Some(found),
    ensures
        arrives(scene, entry, exit, base + code(node, base).len(), found),
        scene.sure ==> accepts(node, scene.text, state(entry), state(exit)),
    decreases node, 0nat, 0int, 0int, 0int,
{
    let ops = scene.ops;
    let text = scene.text;
    let part = code(node, base);
    match node {
        Ast::Literal(c) => {
            lemma_holds_index(ops, part, base, 0);
            let exit = Config { pos: entry.pos + 1, idle: 0, ..entry };
            lemma_passes_still(scene, entry, exit);
            exit
        },
        Ast::Dot => {
            lemma_holds_index(ops, part, base, 0);
            let exit = Config { pos: entry.pos + 1, idle: 0, ..entry };
            lemma_passes_still(scene, entry, exit);
            exit
        },
        Ast::CharClass { items, negated } => {
            lemma_holds_index(ops, part, base, 0);
            let exit = Config { pos: entry.pos + 1, idle: 0, ..entry };
            lemma_passes_still(scene, entry, exit);
            exit
        },
        Ast::Shorthand(kind) => {
            lemma_holds_index(ops, part, base, 0);
            let exit = Config { pos: entry.pos + 1, idle: 0, ..entry };
            lemma_passes_still(scene, entry, exit);
            exit
        },
        Ast::Anchor(kind) => {
            lemma_holds_index(ops, part, base, 0);
            let exit = Config { idle: entry.idle + 1, ..entry };
            lemma_passes_still(scene, entry, exit);
            exit
        },
        Ast::Backreference(index) => {
            lemma_holds_index(ops, part, base, 0);
            let len = referenced(text, entry.slots, index as int, entry.pos);
            let exit = if len matches Some(n) && n > 0 {
                Config { pos: entry.pos + len->0, idle: 0, ..entry }
            } else {
                Config { idle: entry.idle + 1, ..entry }
            };
            lemma_passes_still(scene, entry, exit);
            exit
        },
        Ast::Concat(nodes) => {
            lemma_covers_nodes(scene, nodes);
            lemma_prefix(scene, nodes, nodes.len(), base, entry, found)
        },
        Ast::Alternation(branches) => {
            lemma_covers_nodes(scene, branches);
            if branches.len() == 0 {
                lemma_passes_still(scene, entry, entry);
                entry
            } else if branches.len() == 1 {
                let exit = lemma_node(scene, branches[0], base, entry, found);
                assert(accepts_any(branches, text, state(entry), state(exit)) <== accepts(
                    branches[0],
                    text,
                    state(entry),
                    state(exit),
                ));
                exit
            } else {
                let end = base + span(node);
                lemma_code_len(node, base);
                lemma_alternation(scene, branches, 0, base, end, entry, found)
            }
        },
        Ast::Quantifier { node: inner, kind, greedy } => {
            match kind {
                Repeat::Star => {
                    let (exit, n) = lemma_star(scene, *inner, greedy, base, entry, found);
                    assert(scene.sure ==> accepts_some(
                        *inner,
                        kind,
                        text,
                        state(entry),
                        state(exit),
                    )) by {
                        assert(allows(kind, n));
                    }
                    exit
                },
                Repeat::Plus => {
                    let (exit, n) = lemma_plus(scene, *inner, greedy, base, entry, found);
                    assert(scene.sure ==> accepts_some(
                        *inner,
                        kind,
                        text,
                        state(entry),
                        state(exit),
                    )) by {
                        assert(allows(kind, n));
                    }
                    exit
                },
                Repeat::Question => {
                    let (exit, n) = lemma_question(scene, *inner, greedy, base, entry, found);
                    assert(scene.sure ==> accepts_some(
                        *inner,
                        kind,
                        text,
                        state(entry),
                        state(exit),
                    )) by {
                        assert(allows(kind, n));
                    }
                    exit
                },
                Repeat::Exact(n) => {
                    let exit = lemma_repeated(scene, *inner, n, base, entry, found);
                    assert(scene.sure ==> accepts_some(
                        *inner,
                        kind,
                        text,
                        state(entry),
                        state(exit),
                    )) by {
                        assert(allows(kind, n));
                    }
                    exit
                },
                Repeat::AtLeast(n) => {
                    let required = repeated(*inner, n, base);
                    let rest = star(*inner, greedy, base + required.len());
                    lemma_holds_piece(ops, part, base, 0, required);
                    lemma_holds_piece(ops, part, base, required.len() as int, rest);
                    let mid = lemma_repeated(scene, *inner, n, base, entry, found);
                    let (exit, m) = lemma_star(
                        scene,
                        *inner,
                        greedy,
                        base + required.len(),
                        mid,
                        found,
                    );
                    lemma_passes_chain(scene, entry, mid, exit);
                    if scene.sure {
                        lemma_times_join(*inner, n, m, text, state(entry), state(mid), state(exit));
                        assert(allows(kind, n + m));
                        assert(accepts_some(*inner, kind, text, state(entry), state(exit)));
                    }
                    exit
                },
                Repeat::Range(n, most) => {
                    let required = repeated(*inner, n, base);
                    let rest = optional(*inner, greedy, extra(n, most), base + required.len());
                    lemma_holds_piece(ops, part, base, 0, required);
                    lemma_holds_piece(ops, part, base, required.len() as int, rest);
                    let mid = lemma_repeated(scene, *inner, n, base, entry, found);
                    let (exit, m) = lemma_optional(
                        scene,
                        *inner,
                        greedy,
                        extra(n, most),
                        base + required.len(),
                        mid,
                        found,
                    );
                    lemma_passes_chain(scene, entry, mid, exit);
                    if scene.sure {
                        lemma_times_join(*inner, n, m, text, state(entry), state(mid), state(exit));
                        assert(allows(kind, n + m));
                        assert(accepts_some(*inner, kind, text, state(entry), state(exit)));
                    }
                    exit
                },
            }
        },
        Ast::Group { index, node: inner } => lemma_group(scene, index, *inner, base, entry, found),
        Ast::NonCapturing { node: inner } => lemma_node(scene, *inner, base, entry, found),
        Ast::Lookahead { node: inner, positive } => lemma_lookahead(
            scene,
            *inner,
            positive,
            base,
            entry,
            found,
        ),
        Ast::Lookbehind { node: inner, positive } => lemma_lookbehind(
            scene,
            *inner,
            positive,
            base,
            entry,
            found,
        ),
    }
}

/// A run passes through the code of the first `count` of `nodes`.
pub proof fn lemma_prefix(
    scene: Scene,
    nodes: Seq<Ast>,
    count: nat,
    base: int,
    entry: Config,
    found: Seq<Option<usize>>,
) -> (exit: Config)
    requires
        covers_all(scene, nodes),
        count <= nodes.len(),
        holds(scene.ops, code_prefix(nodes, count, base), base),
        fits(scene, entry),
        result(scene, base, entry) == Some(found),
    ensures
        arrives(scene, entry, exit, base + code_prefix(nodes, count, base).len(), found),
        scene.sure ==> accepts_all(nodes, count, scene.text, state(entry), state(exit)),
    decreases nodes, count, 0int, 0int, 0int,
{
    if count == 0 {
        lemma_passes_still(scene, entry, entry);
        entry
    } else {
        let whole = code_prefix(nodes, count, base);
        let init = code_prefix(nodes, (count - 1) as nat, base);
        let last = code(nodes[count - 1], base + init.len());
        lemma_holds_piece(scene.ops, whole, base, 0, init);
        lemma_holds_piece(scene.ops, whole, base, init.len() as int, last);
        let mid = lemma_prefix(scene, nodes, (count - 1) as nat, base, entry, found);
        let exit = lemma_node(scene, nodes[count - 1], base + init.len(), mid, found);
        lemma_passes_chain(scene, entry, mid, exit);
        if scene.sure {
            assert(reached(state(mid)) && accepts_all(
                nodes,
                (count - 1) as nat,
                scene.text,
                state(entry),
                state(mid),
            ) && accepts(nodes[count - 1], scene.text, state(mid), state(exit)));
        }
        exit
    }
}

/// Where the branch `i` of an alternation begins: at its `Split`, or for the last branch
/// at its code.
pub open spec fn branch_start(branches: Seq<Ast>, i: nat, base: int, end: int) -> int {
    base + alt_prefix(branches, i, base, end).len()
}

/// The code of an alternation of two or more branches.
pub open spec fn alternation_code(branches: Seq<Ast>, base: int, end: int) -> Seq<Op> {
    let last = (branches.len() - 1) as nat;
    let chain = alt_prefix(branches, last, base, end);
    chain + code(branches[last as int], base + chain.len())
}

/// The first branches of an alternation stand where the alternation stands.
proof fn lemma_alt_prefix_holds(
    ops: Seq<Op>,
    branches: Seq<Ast>,
    count: nat,
    i: nat,
    base: int,
    end: int,
)
    requires
        i <= count <= branches.len(),
        holds(ops, alt_prefix(branches, count, base, end), base),
    ensures
        holds(ops, alt_prefix(branches, i, base, end), base),
    decreases count - i,
{
    if i < count {
        let whole = alt_prefix(branches, count, base, end);
        let init = alt_prefix(branches, (count - 1) as nat, base, end);
        lemma_holds_piece(ops, whole, base, 0, init);
        lemma_alt_prefix_holds(ops, branches, (count - 1) as nat, i, base, end);
    }
}

/// A run that enters an alternation at its branch `i` passes through the alternation.
pub proof fn lemma_alternation(
    scene: Scene,
    branches: Seq<Ast>,
    i: nat,
    base: int,
    end: int,
    entry: Config,
    found: Seq<Option<usize>>,
) -> (exit: Config)
    requires
        covers_all(scene, branches),
        branches.len() >= 2,
        i < branches.len(),
        holds(scene.ops, alternation_code(branches, base, end), base),
        end == base + alternation_code(branches, base, end).len(),
        fits(scene, entry),
        result(scene, branch_start(branches, i, base, end), entry) == Some(found),
    ensures
        arrives(scene, entry, exit, end, found),
        scene.sure ==> accepts_any(branches, scene.text, state(entry), state(exit)),
    decreases branches, branches.len() - i, 0int, 0int, 0int,
{
    let ops = scene.ops;
    let last = (branches.len() - 1) as nat;
    let whole = alternation_code(branches, base, end);
    let chain = alt_prefix(branches, last, base, end);
    let at = branch_start(branches, i, base, end);
    lemma_holds_piece(ops, whole, base, 0, chain);
    if i == last {
        let body = code(branches[last as int], base + chain.len());
        lemma_holds_piece(ops, whole, base, chain.len() as int, body);
        let exit = lemma_node(scene, branches[last as int], at, entry, found);
        exit
    } else {
        let next = alt_prefix(branches, i + 1, base, end);
        let init = alt_prefix(branches, i, base, end);
        let body = code(branches[i as int], at + 1);
        lemma_alt_prefix_holds(ops, branches, last, i + 1, base, end);
        lemma_holds_index(ops, next, base, init.len() as int);
        lemma_holds_index(ops, next, base, (init.len() + body.len() + 1) as int);
        lemma_holds_piece(ops, next, base, (init.len() + 1) as int, body);
        let inside = Config { depth: entry.depth + 1, idle: 0, ..entry };
        let after = Config { idle: entry.idle + 1, ..entry };
        if result(scene, at + 1, inside) is Some {
            lemma_passes_still(scene, entry, inside);
            let mid = lemma_node(scene, branches[i as int], at + 1, inside, found);
            let exit = Config { idle: mid.idle + 1, ..mid };
            lemma_passes_still(scene, mid, exit);
            lemma_passes_chain(scene, entry, inside, mid);
            lemma_passes_chain(scene, entry, mid, exit);
            exit
        } else {
            lemma_passes_still(scene, entry, after);
            let exit = lemma_alternation(scene, branches, i + 1, base, end, after, found);
            lemma_passes_chain(scene, entry, after, exit);
            exit
        }
    }
}

/// A run passes through the code of `X*`, and `X` matches as often as the run goes
/// through its body.
pub proof fn lemma_star(
    scene: Scene,
    inner: Ast,
    greedy: bool,
    base: int,
    entry: Config,
    found: Seq<Option<usize>>,
) -> (r: (Config, nat))
    requires
        covers(scene, inner),
        holds(scene.ops, star(inner, greedy, base), base),
        fits(scene, entry),
        result(scene, base, entry) == Some(found),
    ensures
        arrives(scene, entry, r.0, base + star(inner, greedy, base).len(), found),
        scene.sure ==> accepts_times(inner, r.1, scene.text, state(entry), state(r.0)),
    decreases inner, 1nat, MAX_DEPTH + 1 - entry.depth, scene.text.len() - entry.pos,
        MAX_IDLE - entry.idle,
{
    let ops = scene.ops;
    let part = star(inner, greedy, base);
    let body = code(inner, base + 1);
    let out = base + body.len() + 2;
    lemma_holds_index(ops, part, base, 0);
    lemma_holds_index(ops, part, base, (body.len() + 1) as int);
    lemma_holds_piece(ops, part, base, 1, body);
    let inside = Config { depth: entry.depth + 1, idle: 0, ..entry };
    let after = Config { idle: entry.idle + 1, ..entry };
    lemma_passes_still(scene, entry, inside);
    lemma_passes_still(scene, entry, after);
    let through = if greedy {
        inside
    } else {
        after
    };
    let around = if greedy {
        after
    } else {
        inside
    };
    let first = if greedy {
        base + 1
    } else {
        out
    };
    if greedy == (result(scene, first, inside) is Some) {
        let mid = lemma_node(scene, inner, base + 1, through, found);
        let again = Config { idle: mid.idle + 1, ..mid };
        lemma_passes_still(scene, mid, again);
        let (exit, n) = lemma_star(scene, inner, greedy, base, again, found);
        lemma_passes_chain(scene, entry, through, mid);
        lemma_passes_chain(scene, entry, mid, again);
        lemma_passes_chain(scene, entry, again, exit);
        if scene.sure {
            lemma_times_more(inner, n, scene.text, state(entry), state(mid), state(exit));
        }
        (exit, n + 1)
    } else {
        (around, 0)
    }
}

/// A run passes through the code of `X+`, and `X` matches as often as the run goes
/// through its body, which is once at least.
pub proof fn lemma_plus(
    scene: Scene,
    inner: Ast,
    greedy: bool,
    base: int,
    entry: Config,
    found: Seq<Option<usize>>,
) -> (r: (Config, nat))
    requires
        covers(scene, inner),
        holds(
            scene.ops,
            code(inner, base) + seq![split(greedy, base, base + code(inner, base).len() + 1)],
            base,
        ),
        fits(scene, entry),
        result(scene, base, entry) == Some(found),
    ensures
        arrives(scene, entry, r.0, base + code(inner, base).len() + 1, found),
        r.1 >= 1,
        scene.sure ==> accepts_times(inner, r.1, scene.text, state(entry), state(r.0)),
    decreases inner, 1nat, MAX_DEPTH + 1 - entry.depth, scene.text.len() - entry.pos,
        MAX_IDLE - entry.idle,
{
    let ops = scene.ops;
    let body = code(inner, base);
    let out = base + body.len() + 1;
    let part = body + seq![split(greedy, base, out)];
    lemma_holds_index(ops, part, base, body.len() as int);
    lemma_holds_piece(ops, part, base, 0, body);
    let mid = lemma_node(scene, inner, base, entry, found);
    let inside = Config { depth: mid.depth + 1, idle: 0, ..mid };
    let after = Config { idle: mid.idle + 1, ..mid };
    lemma_passes_still(scene, mid, inside);
    lemma_passes_still(scene, mid, after);
    lemma_passes_chain(scene, entry, mid, inside);
    lemma_passes_chain(scene, entry, mid, after);
    let through = if greedy {
        inside
    } else {
        after
    };
    let around = if greedy {
        after
    } else {
        inside
    };
    let first = if greedy {
        base
    } else {
        out
    };
    if greedy == (result(scene, first, inside) is Some) {
        let (exit, n) = lemma_plus(scene, inner, greedy, base, through, found);
        lemma_passes_chain(scene, entry, through, exit);
        if scene.sure {
            lemma_times_more(inner, n, scene.text, state(entry), state(mid), state(exit));
        }
        (exit, n + 1)
    } else {
        if scene.sure {
            lemma_times_one(inner, scene.text, state(entry), state(mid));
        }
        (around, 1)
    }
}

/// A run passes through the code of `X?`, and `X` matches once or not at all.
pub proof fn lemma_question(
    scene: Scene,
    inner: Ast,
    greedy: bool,
    base: int,
    entry: Config,
    found: Seq<Option<usize>>,
) -> (r: (Config, nat))
    requires
        covers(scene, inner),
        holds(scene.ops, question(inner, greedy, base), base),
        fits(scene, entry),
        result(scene, base, entry) == Some(found),
    ensures
        arrives(scene, entry, r.0, base + question(inner, greedy, base).len(), found),
        r.1 <= 1,
        scene.sure ==> accepts_times(inner, r.1, scene.text, state(entry), state(r.0)),
    decreases inner, 1nat, 0int, 0int, 0int,
{
    let ops = scene.ops;
    let part = question(inner, greedy, base);
    let body = code(inner, base + 1);
    let out = base + body.len() + 1;
    lemma_holds_index(ops, part, base, 0);
    lemma_holds_piece(ops, part, base, 1, body);
    let inside = Config { depth: entry.depth + 1, idle: 0, ..entry };
    let after = Config { idle: entry.idle + 1, ..entry };
    lemma_passes_still(scene, entry, inside);
    lemma_passes_still(scene, entry, after);
    let through = if greedy {
        inside
    } else {
        after
    };
    let around = if greedy {
        after
    } else {
        inside
    };
    let first = if greedy {
        base + 1
    } else {
        out
    };
    if greedy == (result(scene, first, inside) is Some) {
        let exit = lemma_node(scene, inner, base + 1, through, found);
        lemma_passes_chain(scene, entry, through, exit);
        if scene.sure {
            lemma_times_one(inner, scene.text, state(entry), state(exit));
        }
        (exit, 1)
    } else {
        (around, 0)
    }
}

/// A run passes through `count` copies of the code of a node, and the node matches
/// `count` times.
pub proof fn lemma_repeated(
    scene: Scene,
    inner: Ast,
    count: nat,
    base: int,
    entry: Config,
    found: Seq<Option<usize>>,
) -> (exit: Config)
    requires
        covers(scene, inner),
        holds(scene.ops, repeated(inner, count, base), base),
        fits(scene, entry),
        result(scene, base, entry) == Some(found),
    ensures
        arrives(scene, entry, exit, base + repeated(inner, count, base).len(), found),
        scene.sure ==> accepts_times(inner, count, scene.text, state(entry), state(exit)),
    decreases inner, count + 1, 0int, 0int, 0int,
{
    if count == 0 {
        lemma_passes_still(scene, entry, entry);
        entry
    } else {
        let whole = repeated(inner, count, base);
        let init = repeated(inner, (count - 1) as nat, base);
        let last = code(inner, base + init.len());
        lemma_holds_piece(scene.ops, whole, base, 0, init);
        lemma_holds_piece(scene.ops, whole, base, init.len() as int, last);
        let mid = lemma_repeated(scene, inner, (count - 1) as nat, base, entry, found);
        let exit = lemma_node(scene, inner, base + init.len(), mid, found);
        lemma_passes_chain(scene, entry, mid, exit);
        if scene.sure {
            lemma_times_one(inner, scene.text, state(mid), state(exit));
            lemma_times_join(
                inner,
                (count - 1) as nat,
                1,
                scene.text,
                state(entry),
                state(mid),
                state(exit),
            );
        }
        exit
    }
}

/// A run passes through `count` copies of the code of `X?`, and `X` matches `count`
/// times at most.
pub proof fn lemma_optional(
    scene: Scene,
    inner: Ast,
    greedy: bool,
    count: nat,
    base: int,
    entry: Config,
    found: Seq<Option<usize>>,
) -> (r: (Config, nat))
    requires
        covers(scene, inner),
        holds(scene.ops, optional(inner, greedy, count, base), base),
        fits(scene, entry),
        result(scene, base, entry) == Some(found),
    ensures
        arrives(scene, entry, r.0, base + optional(inner, greedy, count, base).len(), found),
        r.1 <= count,
        scene.sure ==> accepts_times(inner, r.1, scene.text, state(entry), state(r.0)),
    decreases inner, count + 2, 0int, 0int, 0int,
{
    if count == 0 {
        lemma_passes_still(scene, entry, entry);
        (entry, 0)
    } else {
        let whole = optional(inner, greedy, count, base);
        let init = optional(inner, greedy, (count - 1) as nat, base);
        let last = question(inner, greedy, base + init.len());
        lemma_holds_piece(scene.ops, whole, base, 0, init);
        lemma_holds_piece(scene.ops, whole, base, init.len() as int, last);
        let (mid, n) = lemma_optional(scene, inner, greedy, (count - 1) as nat, base, entry, found);
        let (exit, m) = lemma_question(scene, inner, greedy, base + init.len(), mid, found);
        lemma_passes_chain(scene, entry, mid, exit);
        if scene.sure {
            lemma_times_join(inner, n, m, scene.text, state(entry), state(mid), state(exit));
        }
        (exit, n + m)
    }
}

/// A run passes through the code of a capturing group, and closes the group.
pub proof fn lemma_group(
    scene: Scene,
    index: nat,
    inner: Ast,
    base: int,
    entry: Config,
    found: Seq<Option<usize>>,
) -> (exit: Config)
    requires
        scene.low < index <= scene.high,
        covers(scene, inner),
        scene.tidy ==> inner.numbered(index, scene.high),
        scene.absent ==> index != scene.watch,
        holds(scene.ops, code(Ast::Group { index, node: Box::new(inner) }, base), base),
        fits(scene, entry),
        result(scene, base, entry) == Some(found),
    ensures
        arrives(
            scene,
            entry,
            exit,
            base + code(Ast::Group { index, node: Box::new(inner) }, base).len(),
            found,
        ),
        scene.sure ==> accepts_inside(inner, index, scene.text, state(entry), state(exit)),
    decreases inner, 1nat, 0int, 0int, 0int,
{
    let ops = scene.ops;
    let part = code(Ast::Group { index, node: Box::new(inner) }, base);
    let body = code(inner, base + 1);
    lemma_holds_index(ops, part, base, 0);
    lemma_holds_index(ops, part, base, (body.len() + 1) as int);
    lemma_holds_piece(ops, part, base, 1, body);
    let opened = Config {
        slots: entry.slots.update(2 * index as int, Some(entry.pos as usize)),
        idle: entry.idle + 1,
        ..entry
    };
    let above = if scene.tidy {
        Scene { low: index, ..scene }
    } else {
        scene
    };
    let mid = lemma_node(above, inner, base + 1, opened, found);
    let exit = Config {
        slots: mid.slots.update(2 * index as int + 1, Some(mid.pos as usize)),
        idle: mid.idle + 1,
        ..mid
    };
    let len = scene.text.len() as int;
    if scene.tidy {
        assert forall|group: int| 1 <= group && 2 * group + 1 < entry.slots.len() implies #[trigger] kept(
            entry,
            exit,
            group,
        ) || (scene.low < group <= scene.high && closed(exit, group, 0, len)) by {
            assert(kept(opened, mid, group) || (index < group <= scene.high && closed(
                mid,
                group,
                0,
                len,
            )));
        }
    }
    if scene.bare {
        assert(within(opened, mid, scene.watch as int, above.low, scene.high));
        assert(within(entry, exit, scene.watch as int, scene.low, scene.high));
    }
    if scene.absent && 1 <= scene.watch && 2 * scene.watch + 1 < entry.slots.len() {
        assert(kept(opened, mid, scene.watch as int));
        assert(kept(entry, exit, scene.watch as int));
    }
    if scene.sure {
        assert(reached(state(mid)) && accepts(
            inner,
            scene.text,
            State {
                pos: entry.pos,
                slots: entry.slots.update(2 * index as int, Some(entry.pos as usize)),
            },
            state(mid),
        ) && state(exit) == State {
            pos: mid.pos,
            slots: mid.slots.update(2 * index as int + 1, Some(mid.pos as usize)),
        });
    }
    exit
}

/// The groups that a run adopts from the sub-program of a lookaround are closed around
/// stretches of the text.
proof fn lemma_adopted_pairs(
    scene: Scene,
    entry: Config,
    inside: Config,
    end: Config,
    exit: Config,
    sub: Seq<Option<usize>>,
)
    requires
        inside.slots == entry.slots.update(1, None),
        end.slots.len() == inside.slots.len(),
        entry.slots.len() >= 2,
        sub == end.slots.update(1, Some(end.pos as usize)),
        scene.tidy ==> pairs(inside, end, scene.low, scene.high, 0, scene.text.len() as int),
        exit == (Config { slots: adopted(entry.slots, sub), idle: entry.idle + 1, ..entry }),
    ensures
        advances(entry, exit),
        scene.tidy ==> pairs(entry, exit, scene.low, scene.high, 0, scene.text.len() as int),
{
    let len = scene.text.len() as int;
    if scene.tidy {
        lemma_adopted_tidy(scene, entry, inside, end, exit, sub);
    }
}

/// As `lemma_adopted_pairs`, where every group has a smaller index than the groups inside
/// it.
proof fn lemma_adopted_tidy(
    scene: Scene,
    entry: Config,
    inside: Config,
    end: Config,
    exit: Config,
    sub: Seq<Option<usize>>,
)
    requires
        inside.slots == entry.slots.update(1, None),
        end.slots.len() == inside.slots.len(),
        entry.slots.len() >= 2,
        sub == end.slots.update(1, Some(end.pos as usize)),
        pairs(inside, end, scene.low, scene.high, 0, scene.text.len() as int),
        exit == (Config { slots: adopted(entry.slots, sub), idle: entry.idle + 1, ..entry }),
    ensures
        pairs(entry, exit, scene.low, scene.high, 0, scene.text.len() as int),
{
    let len = scene.text.len() as int;
    assert forall|group: int| 1 <= group && 2 * group + 1 < entry.slots.len() implies #[trigger] kept(
        entry,
        exit,
        group,
    ) || (scene.low < group <= scene.high && closed(exit, group, 0, len)) by {
        assert(kept(inside, end, group) || (scene.low < group <= scene.high && closed(
            end,
            group,
            0,
            len,
        )));
    }
}

/// The sub-program of a lookaround runs through the code of the lookaround's node to the
/// `Match` after it: what it finds are the slots at the way out of the node, with the
/// position there for the end of the match. Where the node holds no group of the watched
/// index, the slots of that group are what they were.
proof fn lemma_body(
    scene: Scene,
    inner: Ast,
    base: int,
    entry: Config,
    sub: Seq<Option<usize>>,
) -> (exit: Config)
    requires
        covers(scene, inner),
        scene.bare ==> inner.lacks(scene.watch),
        holds(scene.ops, code(inner, base) + seq![Op::Match], base),
        fits(scene, entry),
        result(scene, base, entry) == Some(sub),
    ensures
        advances(entry, exit),
        exit.pos <= scene.text.len(),
        sub == exit.slots.update(1, Some(exit.pos as usize)),
        scene.tidy ==> pairs(entry, exit, scene.low, scene.high, 0, scene.text.len() as int),
        scene.bare || scene.absent ==> untouched(entry.slots, sub, scene.watch as int),
        scene.sure ==> accepts(inner, scene.text, state(entry), state(exit)),
    decreases inner, 1nat, 0int, 0int, 0int,
{
    let body = code(inner, base);
    let part = body + seq![Op::Match];
    lemma_holds_piece(scene.ops, part, base, 0, body);
    lemma_holds_index(scene.ops, part, base, body.len() as int);
    let exit = lemma_node(scene, inner, base, entry, sub);
    if scene.bare || scene.absent {
        let narrow = Scene { tidy: false, bare: false, absent: true, sure: false, ..scene };
        let still = lemma_node(narrow, inner, base, entry, sub);
        if 1 <= scene.watch && 2 * scene.watch + 1 < sub.len() {
            assert(kept(entry, still, scene.watch as int));
        }
    }
    exit
}

/// A run passes through the code of a lookahead.
pub proof fn lemma_lookahead(
    scene: Scene,
    inner: Ast,
    positive: bool,
    base: int,
    entry: Config,
    found: Seq<Option<usize>>,
) -> (exit: Config)
    requires
        covers(scene, Ast::Lookahead { node: Box::new(inner), positive }),
        holds(scene.ops, code(Ast::Lookahead { node: Box::new(inner), positive }, base), base),
        fits(scene, entry),
        result(scene, base, entry) == Some(found),
    ensures
        arrives(
            scene,
            entry,
            exit,
            base + code(Ast::Lookahead { node: Box::new(inner), positive }, base).len(),
            found,
        ),
        scene.sure ==> looks(inner, scene.text, state(entry), entry.pos, state(exit)),
    decreases inner, 2nat, 0int, 0int, 0int,
{
    let ops = scene.ops;
    let part = code(Ast::Lookahead { node: Box::new(inner), positive }, base);
    let body = code(inner, base + 1);
    let out = base + body.len() + 2;
    lemma_holds_index(ops, part, base, 0);
    lemma_holds_piece(ops, part, base, 1, body + seq![Op::Match]);
    if positive {
        let inside = Config {
            slots: entry.slots.update(1, None),
            depth: entry.depth + 1,
            idle: 0,
            ..entry
        };
        let sub = result(scene, base + 1, inside)->0;
        if scene.bare {
            lemma_lacks(inner, scene.watch);
        }
        let end = lemma_body(scene, inner, base + 1, inside, sub);
        let exit = Config { slots: adopted(entry.slots, sub), idle: entry.idle + 1, ..entry };
        lemma_adopted_pairs(scene, entry, inside, end, exit, sub);
        if (scene.bare || scene.absent) && 1 <= scene.watch && 2 * scene.watch + 1
            < entry.slots.len() {
            assert(kept(entry, exit, scene.watch as int));
        }
        if scene.sure {
            assert(adopted(entry.slots, sub) =~= adopted(entry.slots, end.slots));
            assert(reached(state(end)) && accepts(
                inner,
                scene.text,
                State { pos: entry.pos, slots: hidden(state(entry)).slots },
                state(end),
            ) && state(exit) == State {
                pos: entry.pos,
                slots: adopted(entry.slots, state(end).slots),
            });
        }
        exit
    } else {
        let exit = Config { idle: entry.idle + 1, ..entry };
        lemma_passes_still(scene, entry, exit);
        exit
    }
}

/// What the search of a lookbehind finds, a run of the sub-program finds that starts at or
/// before the position of the lookbehind and ends there.
proof fn lemma_behind(
    ops: Seq<Op>,
    text: Seq<char>,
    pos: int,
    back: int,
    sub_start: int,
    slots: Seq<Option<usize>>,
    depth: nat,
) -> (from: int)
    requires
        0 <= back,
        behind(ops, text, pos, back, sub_start, slots, depth) is Some,
    ensures
        0 <= from <= pos,
        run(ops, text, from, sub_start, slots.update(1, None), depth + 1, 0) == behind(
            ops,
            text,
            pos,
            back,
            sub_start,
            slots,
            depth,
        ),
        behind(ops, text, pos, back, sub_start, slots, depth)->0[1] == Some(pos as usize),
    decreases pos + 1 - back,
{
    let first = run(ops, text, pos - back, sub_start, slots.update(1, None), depth + 1, 0);
    if first matches Some(sub) && sub.len() >= 2 && sub[1] == Some(pos as usize) {
        pos - back
    } else {
        lemma_behind(ops, text, pos, back + 1, sub_start, slots, depth)
    }
}

/// A run passes through the code of a lookbehind.
pub proof fn lemma_lookbehind(
    scene: Scene,
    inner: Ast,
    positive: bool,
    base: int,
    entry: Config,
    found: Seq<Option<usize>>,
) -> (exit: Config)
    requires
        covers(scene, Ast::Lookbehind { node: Box::new(inner), positive }),
        holds(scene.ops, code(Ast::Lookbehind { node: Box::new(inner), positive }, base), base),
        fits(scene, entry),
        result(scene, base, entry) == Some(found),
    ensures
        arrives(
            scene,
            entry,
            exit,
            base + code(Ast::Lookbehind { node: Box::new(inner), positive }, base).len(),
            found,
        ),
        scene.sure ==> looks_back(inner, scene.text, state(entry), state(exit)),
    decreases inner, 2nat, 0int, 0int, 0int,
{
    let ops = scene.ops;
    let text = scene.text;
    let part = code(Ast::Lookbehind { node: Box::new(inner), positive }, base);
    let body = code(inner, base + 1);
    lemma_holds_index(ops, part, base, 0);
    lemma_holds_piece(ops, part, base, 1, body + seq![Op::Match]);
    if positive {
        let sub = behind(ops, text, entry.pos, 0, base + 1, entry.slots, entry.depth)->0;
        let from = lemma_behind(ops, text, entry.pos, 0, base + 1, entry.slots, entry.depth);
        let inside = Config {
            pos: from,
            slots: entry.slots.update(1, None),
            depth: entry.depth + 1,
            idle: 0,
        };
        if scene.bare {
            lemma_lacks(inner, scene.watch);
        }
        let end = lemma_body(scene, inner, base + 1, inside, sub);
        let exit = Config { slots: adopted(entry.slots, sub), idle: entry.idle + 1, ..entry };
        lemma_adopted_pairs(scene, entry, inside, end, exit, sub);
        if (scene.bare || scene.absent) && 1 <= scene.watch && 2 * scene.watch + 1
            < entry.slots.len() {
            assert(kept(entry, exit, scene.watch as int));
        }
        if scene.sure {
            assert(adopted(entry.slots, sub) =~= adopted(entry.slots, end.slots));
            assert(reached_from(from, state(end)) && 0 <= from <= entry.pos && accepts(
                inner,
                text,
                State { pos: from, slots: hidden(state(entry)).slots },
                state(end),
            ) && state(end).pos == entry.pos && state(exit) == State {
                pos: entry.pos,
                slots: adopted(entry.slots, state(end).slots),
            });
        }
        exit
    } else {
        let exit = Config { idle: entry.idle + 1, ..entry };
        lemma_passes_still(scene, entry, exit);
        exit
    }
}

} // verus!
