//! What holds of the engine as a whole: laws that relate the parser, the compiler and the
//! matcher, each proved from the models of the three.

use crate::ast::{Ast, Repeat};
use crate::classes::{class_accepts, shorthand_accepts};
use crate::compiler::{
    code, compiled, first_literal, lemma_code_len, lemma_compiled_well_formed, optional,
    question, repeated, saves_within, span, star, starts_anchored, Op, ProgramView,
};
use crate::passage::{
    closed, covers, kept, lemma_node, passes, state, within, Config, Scene,
};
use crate::numbering::tree_is_numbered;
use crate::semantics::{accepts, accepts_some, allows, State};
use crate::vm::{
    adopted, attempt, behind, candidate, find, fresh, lemma_failure_restores, outcome, restores,
    run, scan, Found, UndoEntry, MAX_DEPTH, MAX_IDLE,
};
use vstd::prelude::*;

verus! {

/// A run moves forward only. Where no `Save` writes the bounds of the whole match, the
/// slots of a match are as many as at the start, slot 0 is what it was, and slot 1 holds
/// the position of the `Match`, which is not before the start of the run.
pub proof fn lemma_run_bounds(
    ops: Seq<Op>,
    text: Seq<char>,
    pos: int,
    pc: int,
    slots: Seq<Option<usize>>,
    depth: nat,
    idle: nat,
)
    requires
        saves_within(ops, 2, slots.len() as int),
        0 <= pos <= text.len() <= usize::MAX,
    ensures
        run(ops, text, pos, pc, slots, depth, idle) matches Some(found) ==> {
            &&& found.len() == slots.len()
            &&& found[0] == slots[0]
            &&& found[1] matches Some(end)
            &&& pos <= end <= text.len()
        },
    decreases MAX_DEPTH + 1 - depth, text.len() - pos, MAX_IDLE - idle,
{
    if !(depth > MAX_DEPTH || pc < 0 || pc >= ops.len() || idle >= MAX_IDLE || slots.len() < 2) {
        match ops[pc] {
            Op::Match => {},
            Op::Char(c) => {
                if 0 <= pos < text.len() && text[pos] == c {
                    lemma_run_bounds(ops, text, pos + 1, pc + 1, slots, depth, 0);
                }
            },
            Op::AnyChar => {
                if 0 <= pos < text.len() && text[pos] != '\n' {
                    lemma_run_bounds(ops, text, pos + 1, pc + 1, slots, depth, 0);
                }
            },
            Op::CharClass { items, negated } => {
                if 0 <= pos < text.len() {
                    lemma_run_bounds(ops, text, pos + 1, pc + 1, slots, depth, 0);
                }
            },
            Op::Shorthand(kind) => {
                if 0 <= pos < text.len() {
                    lemma_run_bounds(ops, text, pos + 1, pc + 1, slots, depth, 0);
                }
            },
            Op::Jump(target) => {
                lemma_run_bounds(ops, text, pos, target, slots, depth, idle + 1);
            },
            Op::Split(first, second) => {
                lemma_run_bounds(ops, text, pos, first, slots, depth + 1, 0);
                lemma_run_bounds(ops, text, pos, second, slots, depth, idle + 1);
            },
            Op::Save(slot) => {
                if 0 <= slot < slots.len() {
                    lemma_run_bounds(
                        ops,
                        text,
                        pos,
                        pc + 1,
                        slots.update(slot, Some(pos as usize)),
                        depth,
                        idle + 1,
                    );
                }
            },
            Op::Backref(group) => {
                match crate::vm::referenced(text, slots, group, pos) {
                    Some(len) => {
                        if len > 0 {
                            lemma_run_bounds(ops, text, pos + len, pc + 1, slots, depth, 0);
                        } else {
                            lemma_run_bounds(ops, text, pos, pc + 1, slots, depth, idle + 1);
                        }
                    },
                    None => {},
                }
            },
            Op::LookaheadPositive(sub_start, sub_end) => {
                match run(ops, text, pos, sub_start, slots.update(1, None), depth + 1, 0) {
                    Some(sub) => {
                        lemma_run_bounds(
                            ops,
                            text,
                            pos,
                            sub_end,
                            adopted(slots, sub),
                            depth,
                            idle + 1,
                        );
                    },
                    None => {},
                }
            },
            Op::LookbehindPositive(sub_start, sub_end) => {
                match behind(ops, text, pos, 0, sub_start, slots, depth) {
                    Some(sub) => {
                        lemma_run_bounds(
                            ops,
                            text,
                            pos,
                            sub_end,
                            adopted(slots, sub),
                            depth,
                            idle + 1,
                        );
                    },
                    None => {},
                }
            },
            Op::LookaheadNegative(sub_start, sub_end) => {
                lemma_run_bounds(ops, text, pos, sub_end, slots, depth, idle + 1);
            },
            Op::LookbehindNegative(sub_start, sub_end) => {
                lemma_run_bounds(ops, text, pos, sub_end, slots, depth, idle + 1);
            },
            _ => {
                lemma_run_bounds(ops, text, pos, pc + 1, slots, depth, idle + 1);
            },
        }
    }
}

/// What `scan` finds is an attempt at a candidate position, and no candidate position
/// before it matches.
pub proof fn lemma_scan_leftmost(program: ProgramView, text: Seq<char>, from: int)
    requires
        0 <= from,
    ensures
        scan(program, text, from) matches Some(found) ==> {
            &&& from <= found.start <= text.len()
            &&& candidate(program, text, found.start)
            &&& attempt(program, text, found.start) == Some(found)
            &&& forall|start: int|
                from <= start < found.start ==> !(candidate(program, text, start) && attempt(
                    program,
                    text,
                    start,
                ) is Some)
        },
        scan(program, text, from) is None ==> forall|start: int|
            from <= start <= text.len() ==> !(candidate(program, text, start) && attempt(
                program,
                text,
                start,
            ) is Some),
    decreases text.len() + 1 - from,
{
    if from <= text.len() {
        if !(candidate(program, text, from) && attempt(program, text, from) is Some) {
            lemma_scan_leftmost(program, text, from + 1);
        }
    }
}

/// What an attempt finds starts where the attempt started.
pub proof fn lemma_attempt_start(program: ProgramView, text: Seq<char>, start: int)
    ensures
        attempt(program, text, start) matches Some(found) ==> found.start == start,
{
}

/// A match that a search reports is a match of the program.
///
/// The search's result is the result of an attempt at its start; it lies within the
/// input; slots 0 and 1 hold its start and its end. For a program that is not anchored,
/// no position before the start that the search tries has a match.
pub proof fn search_result_is_accepted(program: ProgramView, text: Seq<char>, found: Found)
    requires
        program.saves_groups_only(),
        text.len() <= usize::MAX,
        find(program, text) == Some(found),
    ensures
        0 <= found.start <= found.end <= text.len(),
        attempt(program, text, found.start) == Some(found),
        found.slots.len() == program.slot_count(),
        found.slots[0] == Some(found.start as usize),
        found.slots[1] == Some(found.end as usize),
        !program.anchored ==> forall|start: int|
            0 <= start < found.start ==> !(candidate(program, text, start) && attempt(
                program,
                text,
                start,
            ) is Some),
{
    if program.anchored {
        lemma_attempt_start(program, text, 0);
    } else {
        lemma_scan_leftmost(program, text, 0);
    }
    let start = found.start;
    lemma_run_bounds(program.ops, text, start, 0, fresh(program.slot_count(), start), 0, 0);
}

/// Compiling is a function of the tree: whatever two compilations of one tree return,
/// they return the same program.
pub proof fn compile_is_deterministic(
    ast: Ast,
    groups: nat,
    first: ProgramView,
    second: ProgramView,
)
    requires
        first == compiled(ast, groups),
        second == compiled(ast, groups),
    ensures
        first == second,
        first.ops =~= second.ops,
{
}

/// Parsing is a function of the pattern, and so is parsing followed by compiling: one
/// pattern gives one tree, one number of groups and one program.
pub proof fn pattern_determines_program(
    text: Seq<char>,
    first: (Ast, nat),
    second: (Ast, nat),
)
    requires
        crate::grammar::pattern(text) == Ok::<(Ast, nat), crate::error::ParseError>(first),
        crate::grammar::pattern(text) == Ok::<(Ast, nat), crate::error::ParseError>(second),
    ensures
        first == second,
        compiled(first.0, first.1) == compiled(second.0, second.1),
{
}

/// A non-capturing group compiles to the code of its body, and so to the program of its
/// body: `(?:X)` and `X` match the same inputs with the same bounds and the same groups.
pub proof fn non_capturing_group_is_transparent(node: Ast, groups: nat, text: Seq<char>)
    ensures
        forall|base: int| #[trigger]
            code(Ast::NonCapturing { node: Box::new(node) }, base) == code(node, base),
        compiled(Ast::NonCapturing { node: Box::new(node) }, groups) == compiled(node, groups),
        find(compiled(Ast::NonCapturing { node: Box::new(node) }, groups), text) == find(
            compiled(node, groups),
            text,
        ),
{
}

/// A branch of a `Split` that fails leaves no trace. Whatever the branch left in the
/// slots, unwinding the undo log that it left to the length that the log had at the
/// `Split` puts the slots back as they were; and the run goes on with the second branch
/// from the slots and the log as they were at the `Split`.
pub proof fn failed_branch_leaves_no_trace(
    ops: Seq<Op>,
    text: Seq<char>,
    pos: int,
    pc: int,
    slots: Seq<Option<usize>>,
    log: Seq<UndoEntry>,
    depth: nat,
    idle: nat,
    first: int,
    second: int,
)
    requires
        0 <= pc < ops.len(),
        ops[pc] == Op::Split(first, second),
        depth <= MAX_DEPTH,
        idle < MAX_IDLE,
        2 <= slots.len() <= usize::MAX,
        !outcome(ops, text, pos, first, slots, log, depth + 1, 0).matched,
    ensures
        restores(
            slots,
            log,
            outcome(ops, text, pos, first, slots, log, depth + 1, 0).slots,
            outcome(ops, text, pos, first, slots, log, depth + 1, 0).log,
        ),
        outcome(ops, text, pos, pc, slots, log, depth, idle) == outcome(
            ops,
            text,
            pos,
            second,
            slots,
            log,
            depth,
            idle + 1,
        ),
{
    lemma_failure_restores(ops, text, pos, first, slots, log, depth + 1, 0);
}

/// The instruction with the two targets of a `Split` the other way round; any other
/// instruction as it is.
pub open spec fn swapped(op: Op) -> Op {
    match op {
        Op::Split(first, second) => Op::Split(second, first),
        _ => op,
    }
}

/// The instructions `lazy` are the instructions `greedy` but for the order of the two
/// targets of some `Split`s.
pub open spec fn swaps_splits(lazy: Seq<Op>, greedy: Seq<Op>) -> bool {
    &&& lazy.len() == greedy.len()
    &&& forall|i: int|
        0 <= i < greedy.len() ==> #[trigger] lazy[i] == greedy[i] || (greedy[i] is Split && lazy[i]
            == swapped(greedy[i]))
}

/// The copies of `X?` of a lazy `X{n,m}` are those of the greedy one but for the order of
/// the targets of their `Split`s.
proof fn lemma_optional_swaps(node: Ast, count: nat, base: int)
    ensures
        swaps_splits(optional(node, false, count, base), optional(node, true, count, base)),
    decreases count,
{
    if count > 0 {
        lemma_optional_swaps(node, (count - 1) as nat, base);
        let lazy = optional(node, false, (count - 1) as nat, base);
        let greedy = optional(node, true, (count - 1) as nat, base);
        let last = question(node, true, base + greedy.len());
        assert(question(node, false, base + lazy.len()).len() == last.len());
        assert(swaps_splits(question(node, false, base + lazy.len()), last));
    }
}

/// A lazy quantifier compiles to the code of the greedy one with the two targets of a
/// `Split` swapped, and nothing else changed. For `*` and `?` that `Split` is the first
/// instruction, for `+` the last; `{n,}` and `{n,m}` swap the `Split` of each `*` and
/// `?` that they are made of, and `{n}` has none.
pub proof fn lazy_quantifier_swaps_the_split(node: Ast, kind: Repeat, base: int)
    ensures
        swaps_splits(
            code(Ast::Quantifier { node: Box::new(node), kind, greedy: false }, base),
            code(Ast::Quantifier { node: Box::new(node), kind, greedy: true }, base),
        ),
        kind is Star || kind is Question ==> code(
            Ast::Quantifier { node: Box::new(node), kind, greedy: false },
            base,
        ) == code(Ast::Quantifier { node: Box::new(node), kind, greedy: true }, base).update(
            0,
            swapped(code(Ast::Quantifier { node: Box::new(node), kind, greedy: true }, base)[0]),
        ),
        kind is Plus ==> code(Ast::Quantifier { node: Box::new(node), kind, greedy: false }, base)
            == code(Ast::Quantifier { node: Box::new(node), kind, greedy: true }, base).update(
            span(node) as int,
            swapped(
                code(Ast::Quantifier { node: Box::new(node), kind, greedy: true }, base)[span(
                    node,
                ) as int],
            ),
        ),
{
    let lazy = code(Ast::Quantifier { node: Box::new(node), kind, greedy: false }, base);
    let greedy = code(Ast::Quantifier { node: Box::new(node), kind, greedy: true }, base);
    match kind {
        Repeat::Star => {
            let body = code(node, base + 1);
            assert(greedy == star(node, true, base));
            assert(lazy == star(node, false, base));
            assert(greedy[0] == Op::Split(base + 1, base + body.len() + 2));
            assert(lazy =~= greedy.update(0, swapped(greedy[0])));
        },
        Repeat::Plus => {
            lemma_code_len(node, base);
            assert(lazy =~= greedy.update(span(node) as int, swapped(greedy[span(node) as int])));
        },
        Repeat::Question => {
            let body = code(node, base + 1);
            assert(greedy == question(node, true, base));
            assert(lazy == question(node, false, base));
            assert(greedy[0] == Op::Split(base + 1, base + body.len() + 1));
            assert(lazy =~= greedy.update(0, swapped(greedy[0])));
        },
        Repeat::Exact(n) => {},
        Repeat::AtLeast(n) => {
            let required = repeated(node, n, base);
            let rest = star(node, true, base + required.len());
            assert(star(node, false, base + required.len()) =~= rest.update(0, swapped(rest[0])));
        },
        Repeat::Range(n, m) => {
            let required = repeated(node, n, base);
            lemma_optional_swaps(node, crate::compiler::extra(n, m), base + required.len());
        },
    }
}

/// `X{n,n}` compiles to the code of `X{n}`, whether greedy or lazy, and so to the same
/// program.
pub proof fn exact_range_is_exact(
    node: Ast,
    n: nat,
    greedy: bool,
    other: bool,
    groups: nat,
    text: Seq<char>,
)
    ensures
        forall|base: int| #[trigger]
            code(Ast::Quantifier { node: Box::new(node), kind: Repeat::Range(n, n), greedy }, base)
                == code(
                Ast::Quantifier { node: Box::new(node), kind: Repeat::Exact(n), greedy: other },
                base,
            ),
        compiled(
            Ast::Quantifier { node: Box::new(node), kind: Repeat::Range(n, n), greedy },
            groups,
        ) == compiled(
            Ast::Quantifier { node: Box::new(node), kind: Repeat::Exact(n), greedy: other },
            groups,
        ),
        find(
            compiled(
                Ast::Quantifier { node: Box::new(node), kind: Repeat::Range(n, n), greedy },
                groups,
            ),
            text,
        ) == find(
            compiled(
                Ast::Quantifier { node: Box::new(node), kind: Repeat::Exact(n), greedy: other },
                groups,
            ),
            text,
        ),
{
    let range = Ast::Quantifier { node: Box::new(node), kind: Repeat::Range(n, n), greedy };
    let exact = Ast::Quantifier { node: Box::new(node), kind: Repeat::Exact(n), greedy: other };
    assert forall|base: int| #[trigger] code(range, base) == code(exact, base) by {
        let required = repeated(node, n, base);
        assert(optional(node, greedy, 0, base + required.len()) =~= Seq::<Op>::empty());
    }
}

/// The first match at a position from `start` on, where every position is tried.
pub open spec fn leftmost(program: ProgramView, text: Seq<char>, start: int) -> Option<Found>
    decreases text.len() + 1 - start,
{
    if start < 0 || start > text.len() {
        None
    } else if attempt(program, text, start) is Some {
        attempt(program, text, start)
    } else {
        leftmost(program, text, start + 1)
    }
}

/// The two pre-filters of `program` are those that its instructions give.
pub open spec fn prefilters_extracted(program: ProgramView) -> bool {
    &&& program.first_char == first_literal(program.ops)
    &&& program.anchored == starts_anchored(program.ops)
}

/// Where the instructions give a first character, no attempt matches at a position that
/// does not hold it.
pub proof fn lemma_first_char_is_required(program: ProgramView, text: Seq<char>, start: int)
    requires
        first_literal(program.ops) matches Some(c) && !(0 <= start < text.len() && text[start]
            == c),
    ensures
        attempt(program, text, start) is None,
{
    let ops = program.ops;
    let slots = fresh(program.slot_count(), start);
    if ops[0] == Op::AssertStart && start == 0 {
        assert(run(ops, text, start, 0, slots, 0, 0) == run(ops, text, start, 1, slots, 0, 1));
    }
}

/// A program that begins with `AssertStart` matches at position 0 only.
pub proof fn lemma_anchor_is_required(program: ProgramView, text: Seq<char>, start: int)
    requires
        starts_anchored(program.ops),
        start != 0,
    ensures
        attempt(program, text, start) is None,
{
}

/// With the pre-filters off, a scan finds what it finds with them on.
proof fn lemma_scan_is_leftmost(program: ProgramView, text: Seq<char>, start: int)
    requires
        program.first_char == first_literal(program.ops),
        0 <= start,
    ensures
        scan(program, text, start) == leftmost(program, text, start),
    decreases text.len() + 1 - start,
{
    if start <= text.len() {
        if !candidate(program, text, start) {
            lemma_first_char_is_required(program, text, start);
        }
        lemma_scan_leftmost_step(program, text, start);
        lemma_scan_is_leftmost(program, text, start + 1);
    }
}

/// One step of a scan.
proof fn lemma_scan_leftmost_step(program: ProgramView, text: Seq<char>, start: int)
    requires
        0 <= start <= text.len(),
    ensures
        scan(program, text, start) == if candidate(program, text, start) && attempt(
            program,
            text,
            start,
        ) is Some {
            attempt(program, text, start)
        } else {
            scan(program, text, start + 1)
        },
{
}

/// From position 1 on, an anchored program finds nothing.
proof fn lemma_anchored_leftmost(program: ProgramView, text: Seq<char>, start: int)
    requires
        starts_anchored(program.ops),
        1 <= start,
    ensures
        leftmost(program, text, start) is None,
    decreases text.len() + 1 - start,
{
    if start <= text.len() {
        lemma_anchor_is_required(program, text, start);
        lemma_anchored_leftmost(program, text, start + 1);
    }
}

/// The pre-filters change nothing: a search with the pre-filters that the compiler
/// extracts finds the leftmost position at which the program matches, and the match
/// that the program has there.
pub proof fn prefilters_keep_the_result(program: ProgramView, text: Seq<char>)
    requires
        prefilters_extracted(program),
    ensures
        find(program, text) == leftmost(program, text, 0),
{
    if program.anchored {
        lemma_anchored_leftmost(program, text, 1);
    } else {
        lemma_scan_is_leftmost(program, text, 0);
    }
}

/// The program that the compiler makes has the pre-filters that its instructions give.
pub proof fn compiled_prefilters_are_extracted(ast: Ast, groups: nat)
    ensures
        prefilters_extracted(compiled(ast, groups)),
{
}

/// The group `group` took no part in the match, or it is closed around a stretch of the
/// match.
pub open spec fn group_within(found: Found, group: int) -> bool {
    ||| found.slots[2 * group] is None && found.slots[2 * group + 1] is None
    ||| {
        &&& found.slots[2 * group] matches Some(start)
        &&& found.slots[2 * group + 1] matches Some(end)
        &&& found.start <= start <= end <= found.end
    }
}

/// A group that a search reports lies within the match: its two ends are both set or
/// both unset, and where they are set the start of the match is not after the start of
/// the group, which is not after its end, which is not after the end of the match.
///
/// This holds of every group that stands outside every lookaround, whatever else the
/// pattern holds. A group inside a lookaround is closed around what the lookaround
/// looked at, which may lie before or after the match: `(?<=(a))b` matches the `b` of
/// `ab`, and its group the `a`.
pub proof fn groups_lie_within_match(
    ast: Ast,
    groups: nat,
    text: Seq<char>,
    found: Found,
    group: nat,
)
    requires
        ast.well_formed(groups),
        1 <= group <= groups,
        ast.lookarounds_lack(group),
        text.len() <= usize::MAX,
        find(compiled(ast, groups), text) == Some(found),
    ensures
        group_within(found, group as int),
{
    let program = compiled(ast, groups);
    lemma_compiled_well_formed(ast, groups);
    search_result_is_accepted(program, text, found);
    let scene = Scene {
        ops: program.ops,
        text,
        low: 0,
        high: groups,
        tidy: false,
        watch: group,
        bare: true,
        absent: false,
        sure: false,
    };
    let (entry, exit) = lemma_whole_pattern(scene, ast, groups, found);
    assert(within(entry, exit, group as int, 0, groups));
}

/// The group `group` took no part in the match, or it is closed around a stretch of the
/// text.
pub open spec fn group_is_span(found: Found, group: int, text: Seq<char>) -> bool {
    ||| found.slots[2 * group] is None && found.slots[2 * group + 1] is None
    ||| {
        &&& found.slots[2 * group] matches Some(start)
        &&& found.slots[2 * group + 1] matches Some(end)
        &&& 0 <= start <= end <= text.len()
    }
}

/// Every group that a search reports is a stretch of the input: its two ends are both
/// set or both unset, and where they are set the start is not after the end, which is
/// not after the end of the input.
///
/// This holds of every tree in which a group has a smaller index than the groups inside
/// it, as has every tree that the parser makes.
pub proof fn groups_are_spans_of_the_input(ast: Ast, groups: nat, text: Seq<char>, found: Found)
    requires
        ast.well_formed(groups),
        ast.layered(groups),
        text.len() <= usize::MAX,
        find(compiled(ast, groups), text) == Some(found),
    ensures
        found.slots.len() == 2 * (groups + 1),
        forall|group: int| 1 <= group <= groups ==> #[trigger] group_is_span(found, group, text),
{
    let program = compiled(ast, groups);
    lemma_compiled_well_formed(ast, groups);
    search_result_is_accepted(program, text, found);
    let scene = Scene {
        ops: program.ops,
        text,
        low: 0,
        high: groups,
        tidy: true,
        watch: 0,
        bare: false,
        absent: false,
        sure: false,
    };
    let (entry, exit) = lemma_whole_pattern(scene, ast, groups, found);
    assert forall|group: int| 1 <= group <= groups implies #[trigger] group_is_span(
        found,
        group,
        text,
    ) by {
        assert(kept(entry, exit, group) || closed(exit, group, 0, text.len() as int));
    }
}

/// The run that finds `found` passes through the code of the whole pattern, from the
/// fresh slots at the start of the match to the slots at its end.
proof fn lemma_whole_pattern(scene: Scene, ast: Ast, groups: nat, found: Found) -> (r: (
    Config,
    Config,
))
    requires
        scene.ops == compiled(ast, groups).ops,
        scene.low == 0,
        scene.high == groups,
        covers(scene, ast),
        scene.text.len() <= usize::MAX,
        0 <= found.start <= scene.text.len(),
        attempt(compiled(ast, groups), scene.text, found.start) == Some(found),
    ensures
        r.0 == (Config {
            pos: found.start,
            slots: fresh(compiled(ast, groups).slot_count(), found.start),
            depth: 0,
            idle: 0,
        }),
        r.1.pos == found.end,
        r.1.slots == found.slots.update(1, None),
        found.slots == r.1.slots.update(1, Some(found.end as usize)),
        passes(scene, r.0, r.1),
        scene.sure ==> accepts(ast, scene.text, state(r.0), state(r.1)),
{
    let program = compiled(ast, groups);
    let ops = program.ops;
    let start = found.start;
    let entry = Config { pos: start, slots: fresh(program.slot_count(), start), depth: 0, idle: 0 };
    let slots = run(ops, scene.text, start, 0, entry.slots, 0, 0)->0;
    let exit = lemma_node(scene, ast, 0, entry, slots);
    (entry, exit)
}

/// A match that a search reports is a match that the pattern has.
///
/// The pattern accepts the text from the start of the match, with all groups unset, to
/// its end, with the groups as the search reports them. This holds of a pattern without
/// negative lookaround. What a negative lookaround rules out, a run can miss where it
/// gives up on a branch that is nested too deep or loops without reading.
pub proof fn found_match_is_a_match(ast: Ast, groups: nat, text: Seq<char>, found: Found)
    requires
        ast.well_formed(groups),
        ast.lookarounds_positive(),
        text.len() <= usize::MAX,
        find(compiled(ast, groups), text) == Some(found),
    ensures
        0 <= found.start <= found.end <= text.len(),
        accepts(
            ast,
            text,
            State { pos: found.start, slots: fresh(2 * (groups + 1), found.start) },
            State { pos: found.end, slots: found.slots.update(1, None) },
        ),
{
    let program = compiled(ast, groups);
    lemma_compiled_well_formed(ast, groups);
    search_result_is_accepted(program, text, found);
    let scene = Scene {
        ops: program.ops,
        text,
        low: 0,
        high: groups,
        tidy: false,
        watch: 0,
        bare: false,
        absent: false,
        sure: true,
    };
    let (entry, exit) = lemma_whole_pattern(scene, ast, groups, found);
}

/// `X*` and `X*?` match every input at its start: a search for either reports a match
/// that starts at position 0, and for the lazy one the match is empty.
pub proof fn star_matches_at_the_start(node: Ast, greedy: bool, groups: nat, text: Seq<char>)
    ensures
        find(
            compiled(Ast::Quantifier { node: Box::new(node), kind: Repeat::Star, greedy }, groups),
            text,
        ) matches Some(found) && found.start == 0 && (!greedy ==> found.end == 0),
{
    let ast = Ast::Quantifier { node: Box::new(node), kind: Repeat::Star, greedy };
    let program = compiled(ast, groups);
    let ops = program.ops;
    let body = code(node, 1);
    let exit = body.len() + 2;
    assert(code(ast, 0) == star(node, greedy, 0));
    let slots = fresh(program.slot_count(), 0);
    assert(run(ops, text, 0, exit as int, slots, 1, 0) == Some(slots.update(1, Some(0usize))));
    assert(run(ops, text, 0, exit as int, slots, 0, 1) == Some(slots.update(1, Some(0usize))));
}

/// Whether `node` is a test of one character.
pub open spec fn is_test(node: Ast) -> bool {
    node is Literal || node is Dot || node is CharClass || node is Shorthand
}

/// Whether the character `c` passes the test `node`.
pub open spec fn tested(node: Ast, c: char) -> bool {
    match node {
        Ast::Literal(wanted) => c == wanted,
        Ast::Dot => c != '\n',
        Ast::CharClass { items, negated } => class_accepts(items, negated, c),
        Ast::Shorthand(kind) => shorthand_accepts(kind, c),
        _ => false,
    }
}

/// The first position from `pos` on whose character does not pass the test `node`, or
/// the end of the text.
pub open spec fn reach(node: Ast, text: Seq<char>, pos: int) -> int
    decreases text.len() - pos,
{
    if 0 <= pos < text.len() && tested(node, text[pos]) {
        reach(node, text, pos + 1)
    } else {
        pos
    }
}

/// The smaller of two positions.
pub open spec fn least(a: int, b: int) -> int {
    if a <= b {
        a
    } else {
        b
    }
}

/// A greedy star over a test of one character, run from as many characters into the text
/// as branches are nested, reads on for as long as the characters pass and the nesting
/// is allowed.
proof fn lemma_greedy_star(
    ops: Seq<Op>,
    node: Ast,
    text: Seq<char>,
    pos: int,
    slots: Seq<Option<usize>>,
    idle: nat,
)
    requires
        is_test(node),
        ops == star(node, true, 0).push(Op::Match),
        0 <= pos <= text.len() <= usize::MAX,
        pos <= MAX_DEPTH,
        slots.len() >= 2,
        idle <= 1,
    ensures
        reach(node, text, pos) >= pos,
        run(ops, text, pos, 0, slots, pos as nat, idle) == Some(
            slots.update(1, Some(least(reach(node, text, pos), MAX_DEPTH as int) as usize)),
        ),
    decreases MAX_DEPTH - pos,
{
    lemma_reach_bounds(node, text, pos);
    if pos < MAX_DEPTH && pos < text.len() && tested(node, text[pos]) {
        lemma_greedy_star(ops, node, text, pos + 1, slots, 1);
        assert(run(ops, text, pos, 1, slots, (pos + 1) as nat, 0) == run(
            ops,
            text,
            pos + 1,
            2,
            slots,
            (pos + 1) as nat,
            0,
        ));
    } else {
        assert(run(ops, text, pos, 3, slots, pos as nat, idle + 1) == Some(
            slots.update(1, Some(pos as usize)),
        ));
    }
}

/// The characters that pass a test end at or after where they are looked for, within the
/// text.
proof fn lemma_reach_bounds(node: Ast, text: Seq<char>, pos: int)
    requires
        0 <= pos <= text.len(),
    ensures
        pos <= reach(node, text, pos) <= text.len(),
    decreases text.len() - pos,
{
    if pos < text.len() && tested(node, text[pos]) {
        lemma_reach_bounds(node, text, pos + 1);
    }
}

/// A greedy star over a test of one character reports the longest match at the start of
/// the input: it ends where the first character stands that does not pass the test, or
/// at the end of the input, or where the nesting of branches is at its limit, whichever
/// comes first.
pub proof fn greedy_star_reads_as_far_as_it_can(node: Ast, groups: nat, text: Seq<char>)
    requires
        is_test(node),
        text.len() <= usize::MAX,
    ensures
        find(
            compiled(
                Ast::Quantifier { node: Box::new(node), kind: Repeat::Star, greedy: true },
                groups,
            ),
            text,
        ) matches Some(found) && found.start == 0 && found.end == least(
            reach(node, text, 0),
            MAX_DEPTH as int,
        ),
{
    let ast = Ast::Quantifier { node: Box::new(node), kind: Repeat::Star, greedy: true };
    let program = compiled(ast, groups);
    lemma_greedy_star(program.ops, node, text, 0, fresh(program.slot_count(), 0), 0);
    lemma_reach_bounds(node, text, 0);
    star_matches_at_the_start(node, true, groups, text);
}

/// `(?:X)` has exactly the matches of `X`.
pub proof fn non_capturing_group_accepts_the_same(
    node: Ast,
    text: Seq<char>,
    from: State,
    to: State,
)
    ensures
        accepts(Ast::NonCapturing { node: Box::new(node) }, text, from, to) == accepts(
            node,
            text,
            from,
            to,
        ),
{
}

/// `X{n,n}` has exactly the matches of `X{n}`.
pub proof fn exact_range_accepts_the_same(
    node: Ast,
    n: nat,
    greedy: bool,
    other: bool,
    text: Seq<char>,
    from: State,
    to: State,
)
    ensures
        accepts(
            Ast::Quantifier { node: Box::new(node), kind: Repeat::Range(n, n), greedy },
            text,
            from,
            to,
        ) == accepts(
            Ast::Quantifier { node: Box::new(node), kind: Repeat::Exact(n), greedy: other },
            text,
            from,
            to,
        ),
{
    let range = Repeat::Range(n, n);
    let exact = Repeat::Exact(n);
    assert forall|m: nat| #[trigger] allows(range, m) == allows(exact, m) by {}
    assert forall|m: nat| #[trigger] allows(exact, m) == allows(range, m) by {}
    assert(accepts_some(node, range, text, from, to) == accepts_some(node, exact, text, from, to));
}

/// A lazy quantifier has exactly the matches of the greedy one: laziness chooses among
/// the matches of a pattern, it makes none and rules none out.
pub proof fn laziness_keeps_the_matches(
    node: Ast,
    kind: Repeat,
    text: Seq<char>,
    from: State,
    to: State,
)
    ensures
        accepts(Ast::Quantifier { node: Box::new(node), kind, greedy: true }, text, from, to)
            == accepts(
            Ast::Quantifier { node: Box::new(node), kind, greedy: false },
            text,
            from,
            to,
        ),
{
}

/// The program of the pattern `pattern`: the program that the compiler makes of the tree
/// and the number of groups that the parser reads, where the pattern parses.
pub open spec fn program_of(pattern: Seq<char>) -> Option<ProgramView> {
    match crate::grammar::pattern(pattern) {
        Ok((ast, groups)) => Some(compiled(ast, groups)),
        Err(_) => None,
    }
}

/// The tree of the pattern `pattern`, where the pattern parses.
pub open spec fn tree_of(pattern: Seq<char>) -> Option<Ast> {
    match crate::grammar::pattern(pattern) {
        Ok((ast, groups)) => Some(ast),
        Err(_) => None,
    }
}

/// The number of capturing groups of the pattern `pattern`, where the pattern parses.
pub open spec fn groups_of(pattern: Seq<char>) -> nat {
    match crate::grammar::pattern(pattern) {
        Ok((ast, groups)) => groups,
        Err(_) => 0,
    }
}

/// For every pattern and every input: what a search with the program of the pattern
/// reports is a match of that program at the reported start, it lies within the input,
/// and slots 0 and 1 hold its start and its end. Where the pattern has no negative
/// lookaround, the pattern accepts the input from the start of the match to its end,
/// with the groups as they are reported.
pub proof fn every_reported_match_is_accepted(pattern: Seq<char>, text: Seq<char>, found: Found)
    requires
        text.len() <= usize::MAX,
        program_of(pattern) matches Some(program) && find(program, text) == Some(found),
    ensures
        0 <= found.start <= found.end <= text.len(),
        attempt(program_of(pattern)->0, text, found.start) == Some(found),
        found.slots[0] == Some(found.start as usize),
        found.slots[1] == Some(found.end as usize),
        tree_of(pattern)->0.lookarounds_positive() ==> accepts(
            tree_of(pattern)->0,
            text,
            State { pos: found.start, slots: fresh(2 * (groups_of(pattern) + 1), found.start) },
            State { pos: found.end, slots: found.slots.update(1, None) },
        ),
{
    let ast = tree_of(pattern)->0;
    let groups = groups_of(pattern);
    tree_is_numbered(pattern);
    lemma_compiled_well_formed(ast, groups);
    search_result_is_accepted(compiled(ast, groups), text, found);
    if ast.lookarounds_positive() {
        found_match_is_a_match(ast, groups, text, found);
    }
}

/// For every pattern and every input: each group that a search with the program of the
/// pattern reports has both ends set or both unset, and where they are set it is a
/// stretch of the input. Each group that stands outside every lookaround of the pattern
/// is a stretch of the match.
pub proof fn every_reported_group_is_a_span(pattern: Seq<char>, text: Seq<char>, found: Found)
    requires
        text.len() <= usize::MAX,
        program_of(pattern) matches Some(program) && find(program, text) == Some(found),
    ensures
        found.slots.len() == 2 * (groups_of(pattern) + 1),
        forall|group: int|
            1 <= group <= groups_of(pattern) ==> #[trigger] group_is_span(found, group, text),
        forall|group: nat|
            1 <= group <= groups_of(pattern) && tree_of(pattern)->0.lookarounds_lack(group)
                ==> #[trigger] group_within(found, group as int),
{
    let ast = tree_of(pattern)->0;
    let groups = groups_of(pattern);
    tree_is_numbered(pattern);
    groups_are_spans_of_the_input(ast, groups, text, found);
    assert forall|group: nat|
        1 <= group <= groups && ast.lookarounds_lack(group) implies #[trigger] group_within(
        found,
        group as int,
    ) by {
        groups_lie_within_match(ast, groups, text, found, group);
    }
}

} // verus!
