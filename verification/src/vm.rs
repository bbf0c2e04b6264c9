//! The matcher: a backtracking executor for instruction programs, and the search driver.
//!
//! The executor keeps one array of capture slots for a whole search. A `Save` writes a slot
//! and records the slot's previous value in an undo log; when a branch of a `Split` fails,
//! the log is unwound to where it stood when the branch began. [`run`] is the model of the
//! executor: a function from a configuration to the slots of the match it finds, if any.
//!
//! Two limits keep every run finite. The nesting of branches is bounded by [`MAX_DEPTH`]:
//! a branch nested deeper fails. And the steps that a branch takes in a row, at one
//! nesting, without consuming input are bounded by [`MAX_IDLE`]: the branch fails at the
//! step after. A branch comes that far only where a loop of the program goes round on
//! the empty string without end, or for longer than any machine runs.

use crate::classes::{
    char_class_matches, class_accepts, is_word_boundary, shorthand_accepts, shorthand_matches,
    word_boundary,
};
use crate::compiler::{Inst, Op, Program, ProgramView};
use crate::text::chars_of;
use vstd::prelude::*;

verus! {

/// Maximum nesting of branches in the backtracking executor.
pub const MAX_DEPTH: usize = 10_000;

/// Maximum number of steps that a branch takes in a row, at one nesting, without consuming
/// input.
pub const MAX_IDLE: u64 = 0xffff_ffff_ffff_ffff;

/// Result of a successful search.
#[derive(Debug, Clone, PartialEq, Eq)]
pub struct MatchResult {
    /// Start position in the input, in code points.
    pub start: usize,
    /// End position in the input (exclusive), in code points.
    pub end: usize,
    /// Capture slots. Slots 0 and 1 bound the whole match; slots `2*i` and `2*i+1` bound
    /// group `i`. A slot that no `Save` reached is `None`.
    pub captures: Vec<Option<usize>>,
}

/// Model of a [`MatchResult`].
pub struct Found {
    pub start: int,
    pub end: int,
    pub slots: Seq<Option<usize>>,
}

impl View for MatchResult {
    type V = Found;

    open spec fn view(&self) -> Found {
        Found { start: self.start as int, end: self.end as int, slots: self.captures@ }
    }
}

/// An entry in the undo log: a slot and the value it held before it was written.
pub type UndoEntry = (usize, Option<usize>);

/// The length of the text that a backreference to `group` consumes at `pos`, if it matches:
/// both ends of the group are set, and the text between them occurs again at `pos`. It
/// matches nothing where the program has no such group, where an end of the group is
/// unset, or where the group was opened again after its end.
pub open spec fn referenced(
    text: Seq<char>,
    slots: Seq<Option<usize>>,
    group: int,
    pos: int,
) -> Option<int> {
    if 0 <= group && 2 * group + 1 < slots.len() {
        match (slots[2 * group], slots[2 * group + 1]) {
            (Some(start), Some(end)) => {
                if start <= end <= text.len() && 0 <= pos && pos + (end - start) <= text.len()
                    && text.subrange(start as int, end as int) == text.subrange(
                    pos,
                    pos + (end - start),
                ) {
                    Some(end - start)
                } else {
                    None
                }
            },
            _ => None,
        }
    } else {
        None
    }
}

/// The slots after a lookaround has matched with the slots `sub`: the groups are taken
/// from `sub`, the bounds of the whole match stay.
pub open spec fn adopted(slots: Seq<Option<usize>>, sub: Seq<Option<usize>>) -> Seq<
    Option<usize>,
> {
    Seq::new(slots.len(), |i: int| if 2 <= i < sub.len() { sub[i] } else { slots[i] })
}

/// The executor. From position `pos` of `text` and instruction `pc`, with the capture
/// slots `slots`, it returns the slots at the `Match` it reaches, or `None` if every
/// branch fails. `depth` is the nesting of the current branch and `idle` the number of
/// steps that the branch has taken since it last consumed input.
pub open spec fn run(
    ops: Seq<Op>,
    text: Seq<char>,
    pos: int,
    pc: int,
    slots: Seq<Option<usize>>,
    depth: nat,
    idle: nat,
) -> Option<Seq<Option<usize>>>
    decreases MAX_DEPTH + 1 - depth, 1nat, text.len() - pos, MAX_IDLE - idle,
{
    if depth > MAX_DEPTH || pc < 0 || pc >= ops.len() || idle >= MAX_IDLE || slots.len() < 2 {
        None
    } else {
        match ops[pc] {
            Op::Match => Some(slots.update(1, Some(pos as usize))),
            Op::Char(c) => {
                if 0 <= pos < text.len() && text[pos] == c {
                    run(ops, text, pos + 1, pc + 1, slots, depth, 0)
                } else {
                    None
                }
            },
            Op::AnyChar => {
                if 0 <= pos < text.len() && text[pos] != '\n' {
                    run(ops, text, pos + 1, pc + 1, slots, depth, 0)
                } else {
                    None
                }
            },
            Op::CharClass { items, negated } => {
                if 0 <= pos < text.len() && class_accepts(items, negated, text[pos]) {
                    run(ops, text, pos + 1, pc + 1, slots, depth, 0)
                } else {
                    None
                }
            },
            Op::Shorthand(kind) => {
                if 0 <= pos < text.len() && shorthand_accepts(kind, text[pos]) {
                    run(ops, text, pos + 1, pc + 1, slots, depth, 0)
                } else {
                    None
                }
            },
            Op::Jump(target) => run(ops, text, pos, target, slots, depth, idle + 1),
            Op::Split(first, second) => {
                match run(ops, text, pos, first, slots, depth + 1, 0) {
                    Some(found) => Some(found),
                    None => run(ops, text, pos, second, slots, depth, idle + 1),
                }
            },
            Op::Save(slot) => {
                if 0 <= slot < slots.len() {
                    run(
                        ops,
                        text,
                        pos,
                        pc + 1,
                        slots.update(slot, Some(pos as usize)),
                        depth,
                        idle + 1,
                    )
                } else {
                    None
                }
            },
            Op::AssertStart => {
                if pos == 0 {
                    run(ops, text, pos, pc + 1, slots, depth, idle + 1)
                } else {
                    None
                }
            },
            Op::AssertEnd => {
                if pos == text.len() {
                    run(ops, text, pos, pc + 1, slots, depth, idle + 1)
                } else {
                    None
                }
            },
            Op::AssertWordBoundary => {
                if word_boundary(text, pos) {
                    run(ops, text, pos, pc + 1, slots, depth, idle + 1)
                } else {
                    None
                }
            },
            Op::AssertNonWordBoundary => {
                if !word_boundary(text, pos) {
                    run(ops, text, pos, pc + 1, slots, depth, idle + 1)
                } else {
                    None
                }
            },
            Op::Backref(group) => {
                match referenced(text, slots, group, pos) {
                    Some(len) => {
                        if len > 0 {
                            run(ops, text, pos + len, pc + 1, slots, depth, 0)
                        } else {
                            run(ops, text, pos, pc + 1, slots, depth, idle + 1)
                        }
                    },
                    None => None,
                }
            },
            Op::LookaheadPositive(sub_start, sub_end) => {
                match run(ops, text, pos, sub_start, slots.update(1, None), depth + 1, 0) {
                    Some(sub) => run(ops, text, pos, sub_end, adopted(slots, sub), depth, idle + 1),
                    None => None,
                }
            },
            Op::LookaheadNegative(sub_start, sub_end) => {
                match run(ops, text, pos, sub_start, slots.update(1, None), depth + 1, 0) {
                    Some(_) => None,
                    None => run(ops, text, pos, sub_end, slots, depth, idle + 1),
                }
            },
            Op::LookbehindPositive(sub_start, sub_end) => {
                match behind(ops, text, pos, 0, sub_start, slots, depth) {
                    Some(sub) => run(ops, text, pos, sub_end, adopted(slots, sub), depth, idle + 1),
                    None => None,
                }
            },
            Op::LookbehindNegative(sub_start, sub_end) => {
                match behind(ops, text, pos, 0, sub_start, slots, depth) {
                    Some(_) => None,
                    None => run(ops, text, pos, sub_end, slots, depth, idle + 1),
                }
            },
            Op::Nop => run(ops, text, pos, pc + 1, slots, depth, idle + 1),
        }
    }
}

/// The search of a lookbehind. It tries the sub-program from `pos - back`, then from one
/// position further back, and so on down to position 0, and returns the slots of the
/// first run that ends exactly at `pos`.
pub open spec fn behind(
    ops: Seq<Op>,
    text: Seq<char>,
    pos: int,
    back: int,
    sub_start: int,
    slots: Seq<Option<usize>>,
    depth: nat,
) -> Option<Seq<Option<usize>>>
    decreases MAX_DEPTH + 1 - depth, 0nat, pos + 1 - back, 0nat,
{
    if depth > MAX_DEPTH || back < 0 || back > pos || slots.len() < 2 {
        None
    } else {
        match run(ops, text, pos - back, sub_start, slots.update(1, None), depth + 1, 0) {
            Some(sub) if sub.len() >= 2 && sub[1] == Some(pos as usize) => Some(sub),
            _ => behind(ops, text, pos, back + 1, sub_start, slots, depth),
        }
    }
}

/// How a run of the executor ends: whether it reached a `Match`, the slots as it leaves
/// them, and the undo log as it leaves it.
pub struct Outcome {
    pub matched: bool,
    pub slots: Seq<Option<usize>>,
    pub log: Seq<UndoEntry>,
}

/// The entries that the undo log gets where the slots `before` become the slots `after`
/// from slot 2 up to, but not including, slot `upto`: for each slot that changes, in
/// order, the slot and its value before.
pub open spec fn changes(
    before: Seq<Option<usize>>,
    after: Seq<Option<usize>>,
    upto: int,
) -> Seq<UndoEntry>
    decreases upto,
{
    if upto <= 2 {
        Seq::empty()
    } else if after[upto - 1] != before[upto - 1] {
        changes(before, after, upto - 1).push(((upto - 1) as usize, before[upto - 1]))
    } else {
        changes(before, after, upto - 1)
    }
}

/// The executor with all that it leaves behind. From position `pos` of `text` and
/// instruction `pc`, with the capture slots `slots` and the undo log `log`, at nesting
/// `depth` and after `idle` steps without input, it ends as `outcome` says.
///
/// A run that reaches a `Match` ends with the slots of the match, and with the log
/// extended by an entry for each `Save` and each slot taken over from a lookaround on
/// the way there. A run that fails ends where its last branch gave up: what the branches
/// of a `Split` wrote before is undone, what was written outside them is still in the
/// slots and in the log. A lookaround runs on slots and a log of its own.
pub open spec fn outcome(
    ops: Seq<Op>,
    text: Seq<char>,
    pos: int,
    pc: int,
    slots: Seq<Option<usize>>,
    log: Seq<UndoEntry>,
    depth: nat,
    idle: nat,
) -> Outcome
    decreases MAX_DEPTH + 1 - depth, text.len() - pos, MAX_IDLE - idle,
{
    let stop = Outcome { matched: false, slots, log };
    if depth > MAX_DEPTH || pc < 0 || pc >= ops.len() || idle >= MAX_IDLE || slots.len() < 2 {
        stop
    } else {
        match ops[pc] {
            Op::Match => Outcome { matched: true, slots: slots.update(1, Some(pos as usize)), log },
            Op::Char(c) => {
                if 0 <= pos < text.len() && text[pos] == c {
                    outcome(ops, text, pos + 1, pc + 1, slots, log, depth, 0)
                } else {
                    stop
                }
            },
            Op::AnyChar => {
                if 0 <= pos < text.len() && text[pos] != '\n' {
                    outcome(ops, text, pos + 1, pc + 1, slots, log, depth, 0)
                } else {
                    stop
                }
            },
            Op::CharClass { items, negated } => {
                if 0 <= pos < text.len() && class_accepts(items, negated, text[pos]) {
                    outcome(ops, text, pos + 1, pc + 1, slots, log, depth, 0)
                } else {
                    stop
                }
            },
            Op::Shorthand(kind) => {
                if 0 <= pos < text.len() && shorthand_accepts(kind, text[pos]) {
                    outcome(ops, text, pos + 1, pc + 1, slots, log, depth, 0)
                } else {
                    stop
                }
            },
            Op::Jump(target) => outcome(ops, text, pos, target, slots, log, depth, idle + 1),
            Op::Split(first, second) => {
                let branch = outcome(ops, text, pos, first, slots, log, depth + 1, 0);
                if branch.matched {
                    branch
                } else {
                    outcome(ops, text, pos, second, slots, log, depth, idle + 1)
                }
            },
            Op::Save(slot) => {
                if 0 <= slot < slots.len() {
                    outcome(
                        ops,
                        text,
                        pos,
                        pc + 1,
                        slots.update(slot, Some(pos as usize)),
                        log.push((slot as usize, slots[slot])),
                        depth,
                        idle + 1,
                    )
                } else {
                    stop
                }
            },
            Op::AssertStart => {
                if pos == 0 {
                    outcome(ops, text, pos, pc + 1, slots, log, depth, idle + 1)
                } else {
                    stop
                }
            },
            Op::AssertEnd => {
                if pos == text.len() {
                    outcome(ops, text, pos, pc + 1, slots, log, depth, idle + 1)
                } else {
                    stop
                }
            },
            Op::AssertWordBoundary => {
                if word_boundary(text, pos) {
                    outcome(ops, text, pos, pc + 1, slots, log, depth, idle + 1)
                } else {
                    stop
                }
            },
            Op::AssertNonWordBoundary => {
                if !word_boundary(text, pos) {
                    outcome(ops, text, pos, pc + 1, slots, log, depth, idle + 1)
                } else {
                    stop
                }
            },
            Op::Backref(group) => {
                match referenced(text, slots, group, pos) {
                    Some(len) => {
                        if len > 0 {
                            outcome(ops, text, pos + len, pc + 1, slots, log, depth, 0)
                        } else {
                            outcome(ops, text, pos, pc + 1, slots, log, depth, idle + 1)
                        }
                    },
                    None => stop,
                }
            },
            Op::LookaheadPositive(sub_start, sub_end) => {
                match run(ops, text, pos, sub_start, slots.update(1, None), depth + 1, 0) {
                    Some(sub) => outcome(
                        ops,
                        text,
                        pos,
                        sub_end,
                        adopted(slots, sub),
                        log + changes(slots, adopted(slots, sub), slots.len() as int),
                        depth,
                        idle + 1,
                    ),
                    None => stop,
                }
            },
            Op::LookaheadNegative(sub_start, sub_end) => {
                match run(ops, text, pos, sub_start, slots.update(1, None), depth + 1, 0) {
                    Some(_) => stop,
                    None => outcome(ops, text, pos, sub_end, slots, log, depth, idle + 1),
                }
            },
            Op::LookbehindPositive(sub_start, sub_end) => {
                match behind(ops, text, pos, 0, sub_start, slots, depth) {
                    Some(sub) => outcome(
                        ops,
                        text,
                        pos,
                        sub_end,
                        adopted(slots, sub),
                        log + changes(slots, adopted(slots, sub), slots.len() as int),
                        depth,
                        idle + 1,
                    ),
                    None => stop,
                }
            },
            Op::LookbehindNegative(sub_start, sub_end) => {
                match behind(ops, text, pos, 0, sub_start, slots, depth) {
                    Some(_) => stop,
                    None => outcome(ops, text, pos, sub_end, slots, log, depth, idle + 1),
                }
            },
            Op::Nop => outcome(ops, text, pos, pc + 1, slots, log, depth, idle + 1),
        }
    }
}

/// A log that starts with `log`.
pub open spec fn extends(log: Seq<UndoEntry>, longer: Seq<UndoEntry>) -> bool {
    log.len() <= longer.len() && longer.take(log.len() as int) == log
}

/// A run ends in a match exactly where the executor finds one, with the slots that it
/// finds, and whatever its end, it has kept the number of slots and only added to the log.
pub proof fn lemma_outcome(
    ops: Seq<Op>,
    text: Seq<char>,
    pos: int,
    pc: int,
    slots: Seq<Option<usize>>,
    log: Seq<UndoEntry>,
    depth: nat,
    idle: nat,
)
    ensures
        outcome(ops, text, pos, pc, slots, log, depth, idle).slots.len() == slots.len(),
        extends(log, outcome(ops, text, pos, pc, slots, log, depth, idle).log),
        match run(ops, text, pos, pc, slots, depth, idle) {
            Some(found) => outcome(ops, text, pos, pc, slots, log, depth, idle).matched && outcome(
                ops,
                text,
                pos,
                pc,
                slots,
                log,
                depth,
                idle,
            ).slots == found,
            None => !outcome(ops, text, pos, pc, slots, log, depth, idle).matched,
        },
    decreases MAX_DEPTH + 1 - depth, text.len() - pos, MAX_IDLE - idle,
{
    assert(log.take(log.len() as int) == log);
    if !(depth > MAX_DEPTH || pc < 0 || pc >= ops.len() || idle >= MAX_IDLE || slots.len() < 2) {
        match ops[pc] {
            Op::Match => {},
            Op::Char(c) => {
                if 0 <= pos < text.len() && text[pos] == c {
                    lemma_outcome(ops, text, pos + 1, pc + 1, slots, log, depth, 0);
                }
            },
            Op::AnyChar => {
                if 0 <= pos < text.len() && text[pos] != '\n' {
                    lemma_outcome(ops, text, pos + 1, pc + 1, slots, log, depth, 0);
                }
            },
            Op::CharClass { items, negated } => {
                if 0 <= pos < text.len() && class_accepts(items, negated, text[pos]) {
                    lemma_outcome(ops, text, pos + 1, pc + 1, slots, log, depth, 0);
                }
            },
            Op::Shorthand(kind) => {
                if 0 <= pos < text.len() && shorthand_accepts(kind, text[pos]) {
                    lemma_outcome(ops, text, pos + 1, pc + 1, slots, log, depth, 0);
                }
            },
            Op::Jump(target) => {
                lemma_outcome(ops, text, pos, target, slots, log, depth, idle + 1);
            },
            Op::Split(first, second) => {
                lemma_outcome(ops, text, pos, first, slots, log, depth + 1, 0);
                lemma_outcome(ops, text, pos, second, slots, log, depth, idle + 1);
            },
            Op::Save(slot) => {
                if 0 <= slot < slots.len() {
                    let next = log.push((slot as usize, slots[slot]));
                    lemma_outcome(
                        ops,
                        text,
                        pos,
                        pc + 1,
                        slots.update(slot, Some(pos as usize)),
                        next,
                        depth,
                        idle + 1,
                    );
                    assert(next.take(log.len() as int) == log);
                    lemma_extends(log, next, outcome(ops, text, pos, pc, slots, log, depth, idle).log);
                }
            },
            Op::AssertStart => {
                if pos == 0 {
                    lemma_outcome(ops, text, pos, pc + 1, slots, log, depth, idle + 1);
                }
            },
            Op::AssertEnd => {
                if pos == text.len() {
                    lemma_outcome(ops, text, pos, pc + 1, slots, log, depth, idle + 1);
                }
            },
            Op::AssertWordBoundary => {
                if word_boundary(text, pos) {
                    lemma_outcome(ops, text, pos, pc + 1, slots, log, depth, idle + 1);
                }
            },
            Op::AssertNonWordBoundary => {
                if !word_boundary(text, pos) {
                    lemma_outcome(ops, text, pos, pc + 1, slots, log, depth, idle + 1);
                }
            },
            Op::Backref(group) => {
                match referenced(text, slots, group, pos) {
                    Some(len) => {
                        if len > 0 {
                            lemma_outcome(ops, text, pos + len, pc + 1, slots, log, depth, 0);
                        } else {
                            lemma_outcome(ops, text, pos, pc + 1, slots, log, depth, idle + 1);
                        }
                    },
                    None => {},
                }
            },
            Op::LookaheadPositive(sub_start, sub_end) => {
                match run(ops, text, pos, sub_start, slots.update(1, None), depth + 1, 0) {
                    Some(sub) => {
                        let next = log + changes(slots, adopted(slots, sub), slots.len() as int);
                        lemma_outcome(ops, text, pos, sub_end, adopted(slots, sub), next, depth, idle + 1);
                        assert(next.take(log.len() as int) == log);
                    lemma_extends(log, next, outcome(ops, text, pos, pc, slots, log, depth, idle).log);
                    },
                    None => {},
                }
            },
            Op::LookaheadNegative(sub_start, sub_end) => {
                lemma_outcome(ops, text, pos, sub_end, slots, log, depth, idle + 1);
            },
            Op::LookbehindPositive(sub_start, sub_end) => {
                match behind(ops, text, pos, 0, sub_start, slots, depth) {
                    Some(sub) => {
                        let next = log + changes(slots, adopted(slots, sub), slots.len() as int);
                        lemma_outcome(ops, text, pos, sub_end, adopted(slots, sub), next, depth, idle + 1);
                        assert(next.take(log.len() as int) == log);
                    lemma_extends(log, next, outcome(ops, text, pos, pc, slots, log, depth, idle).log);
                    },
                    None => {},
                }
            },
            Op::LookbehindNegative(sub_start, sub_end) => {
                lemma_outcome(ops, text, pos, sub_end, slots, log, depth, idle + 1);
            },
            Op::Nop => {
                lemma_outcome(ops, text, pos, pc + 1, slots, log, depth, idle + 1);
            },
        }
    }
}

/// A log that extends an extension of `log` extends `log`.
pub proof fn lemma_extends(log: Seq<UndoEntry>, next: Seq<UndoEntry>, last: Seq<UndoEntry>)
    requires
        extends(log, next),
        extends(next, last),
    ensures
        extends(log, last),
{
    assert(last.take(log.len() as int) == last.take(next.len() as int).take(log.len() as int));
}

/// The slots at the start of an attempt at `start`: slot 0 holds `start`, the others are
/// unset.
pub open spec fn fresh(count: nat, start: int) -> Seq<Option<usize>> {
    Seq::new(count, |i: int| if i == 0 { Some(start as usize) } else { None })
}

/// One attempt of the search: the program is run from its first instruction at `start`.
/// Where it matches, the match ends at the position in slot 1, or at `start` if that
/// slot was left unset.
pub open spec fn attempt(program: ProgramView, text: Seq<char>, start: int) -> Option<Found> {
    match run(program.ops, text, start, 0, fresh(program.slot_count(), start), 0, 0) {
        Some(slots) => {
            let end = match slots[1] {
                Some(end) => end,
                None => start as usize,
            };
            Some(Found { start, end: end as int, slots: slots.update(1, Some(end)) })
        },
        None => None,
    }
}

/// Whether the search tries `start` at all: where the program names a first character,
/// only positions that hold it are tried.
pub open spec fn candidate(program: ProgramView, text: Seq<char>, start: int) -> bool {
    match program.first_char {
        Some(c) => 0 <= start < text.len() && text[start] == c,
        None => true,
    }
}

/// The first match at a position from `start` on, trying the positions in order up to
/// and including the end of the text.
pub open spec fn scan(program: ProgramView, text: Seq<char>, start: int) -> Option<Found>
    decreases text.len() + 1 - start,
{
    if start < 0 || start > text.len() {
        None
    } else if candidate(program, text, start) && attempt(program, text, start) is Some {
        attempt(program, text, start)
    } else {
        scan(program, text, start + 1)
    }
}

/// What a search of `text` finds: for a program anchored at the start, the match at
/// position 0 if there is one; for any other, the first match that `scan` meets.
pub open spec fn find(program: ProgramView, text: Seq<char>) -> Option<Found> {
    if program.anchored {
        attempt(program, text, 0)
    } else {
        scan(program, text, 0)
    }
}

/// The slots as they were before the entries of `log` from index `mark` on were written:
/// the entries are undone from the last to the one at `mark`.
pub open spec fn unwound(slots: Seq<Option<usize>>, log: Seq<UndoEntry>, mark: int) -> Seq<
    Option<usize>,
>
    decreases log.len(),
{
    if log.len() <= mark || log.len() == 0 {
        slots
    } else {
        unwound(slots.update(log.last().0 as int, log.last().1), log.drop_last(), mark)
    }
}

/// The undo log `log1` extends `log0`, and unwinding it to the length of `log0` turns the
/// slots `slots1` back into `slots0`.
pub open spec fn restores(
    slots0: Seq<Option<usize>>,
    log0: Seq<UndoEntry>,
    slots1: Seq<Option<usize>>,
    log1: Seq<UndoEntry>,
) -> bool {
    &&& slots1.len() == slots0.len()
    &&& log0.len() <= log1.len()
    &&& log1.take(log0.len() as int) == log0
    &&& forall|i: int| log0.len() <= i < log1.len() ==> (#[trigger] log1[i]).0 < slots1.len()
    &&& unwound(slots1, log1, log0.len() as int) == slots0
}

/// Unwinding to `mark` can be done in two stages: first to `mid`, then to `mark`.
pub proof fn lemma_unwound_split(
    slots: Seq<Option<usize>>,
    log: Seq<UndoEntry>,
    mark: int,
    mid: int,
)
    requires
        0 <= mark <= mid <= log.len(),
    ensures
        unwound(slots, log, mark) == unwound(unwound(slots, log, mid), log.take(mid), mark),
    decreases log.len(),
{
    if log.len() > mid {
        lemma_unwound_split(
            slots.update(log.last().0 as int, log.last().1),
            log.drop_last(),
            mark,
            mid,
        );
        assert(log.drop_last().take(mid) == log.take(mid));
    } else {
        assert(log.take(mid) == log);
    }
}

/// What a restored state restores, a later state that restores it restores too.
pub proof fn lemma_restores_chain(
    slots0: Seq<Option<usize>>,
    log0: Seq<UndoEntry>,
    slots1: Seq<Option<usize>>,
    log1: Seq<UndoEntry>,
    slots2: Seq<Option<usize>>,
    log2: Seq<UndoEntry>,
)
    requires
        restores(slots0, log0, slots1, log1),
        restores(slots1, log1, slots2, log2),
    ensures
        restores(slots0, log0, slots2, log2),
{
    let n0 = log0.len() as int;
    let n1 = log1.len() as int;
    lemma_unwound_split(slots2, log2, n0, n1);
    assert(log2.take(n0) == log0);
    assert forall|i: int| n0 <= i < log2.len() implies (#[trigger] log2[i]).0 < slots2.len() by {
        if i < n1 {
            assert(log2.take(n1)[i] == log2[i]);
        }
    }
}

/// Writing a slot after logging its value is undone by unwinding.
pub proof fn lemma_restores_write(
    slots: Seq<Option<usize>>,
    log: Seq<UndoEntry>,
    slot: usize,
    value: Option<usize>,
)
    requires
        slot < slots.len(),
    ensures
        restores(slots, log, slots.update(slot as int, value), log.push((slot, slots[slot as int]))),
{
    let log1 = log.push((slot, slots[slot as int]));
    let slots1 = slots.update(slot as int, value);
    assert(log1.take(log.len() as int) == log);
    assert(slots1.update(slot as int, slots[slot as int]) == slots);
    assert(unwound(slots, log, log.len() as int) == slots);
}

/// The slots `before` with the slots from 2 up to, but not including, `upto` taken from
/// `after`.
pub open spec fn partly(before: Seq<Option<usize>>, after: Seq<Option<usize>>, upto: int) -> Seq<
    Option<usize>,
> {
    Seq::new(before.len(), |i: int| if 2 <= i < upto { after[i] } else { before[i] })
}

/// Taking slots over with an entry in the log for each that changes can be undone.
pub proof fn lemma_changes_restore(
    before: Seq<Option<usize>>,
    after: Seq<Option<usize>>,
    log: Seq<UndoEntry>,
    upto: int,
)
    requires
        after.len() == before.len(),
        upto <= before.len() <= usize::MAX,
    ensures
        restores(before, log, partly(before, after, upto), log + changes(before, after, upto)),
    decreases upto,
{
    if upto <= 2 {
        assert(partly(before, after, upto) == before);
        assert(log + changes(before, after, upto) == log);
        assert(log.take(log.len() as int) == log);
    } else {
        let k = upto - 1;
        let slots = partly(before, after, k);
        let so_far = log + changes(before, after, k);
        lemma_changes_restore(before, after, log, k);
        if after[k] != before[k] {
            lemma_restores_write(slots, so_far, k as usize, after[k]);
            assert(slots.update(k, after[k]) == partly(before, after, upto));
            assert(so_far.push((k as usize, slots[k])) == log + changes(before, after, upto));
            lemma_restores_chain(
                before,
                log,
                slots,
                so_far,
                partly(before, after, upto),
                log + changes(before, after, upto),
            );
        } else {
            assert(slots == partly(before, after, upto));
        }
    }
}

/// A run that fails can be undone: unwinding the log that it leaves to the length that
/// the log had at the start turns the slots that it leaves back into the slots at the
/// start.
pub proof fn lemma_failure_restores(
    ops: Seq<Op>,
    text: Seq<char>,
    pos: int,
    pc: int,
    slots: Seq<Option<usize>>,
    log: Seq<UndoEntry>,
    depth: nat,
    idle: nat,
)
    requires
        slots.len() <= usize::MAX,
    ensures
        !outcome(ops, text, pos, pc, slots, log, depth, idle).matched ==> restores(
            slots,
            log,
            outcome(ops, text, pos, pc, slots, log, depth, idle).slots,
            outcome(ops, text, pos, pc, slots, log, depth, idle).log,
        ),
    decreases MAX_DEPTH + 1 - depth, text.len() - pos, MAX_IDLE - idle, 1nat,
{
    let end = outcome(ops, text, pos, pc, slots, log, depth, idle);
    assert(log.take(log.len() as int) == log);
    if !(depth > MAX_DEPTH || pc < 0 || pc >= ops.len() || idle >= MAX_IDLE || slots.len() < 2) {
        match ops[pc] {
            Op::Match => {},
            Op::Char(c) => {
                if 0 <= pos < text.len() && text[pos] == c {
                    lemma_failure_restores(ops, text, pos + 1, pc + 1, slots, log, depth, 0);
                }
            },
            Op::AnyChar => {
                if 0 <= pos < text.len() && text[pos] != '\n' {
                    lemma_failure_restores(ops, text, pos + 1, pc + 1, slots, log, depth, 0);
                }
            },
            Op::CharClass { items, negated } => {
                if 0 <= pos < text.len() && class_accepts(items, negated, text[pos]) {
                    lemma_failure_restores(ops, text, pos + 1, pc + 1, slots, log, depth, 0);
                }
            },
            Op::Shorthand(kind) => {
                if 0 <= pos < text.len() && shorthand_accepts(kind, text[pos]) {
                    lemma_failure_restores(ops, text, pos + 1, pc + 1, slots, log, depth, 0);
                }
            },
            Op::Jump(target) => {
                lemma_failure_restores(ops, text, pos, target, slots, log, depth, idle + 1);
            },
            Op::Split(first, second) => {
                lemma_failure_restores(ops, text, pos, second, slots, log, depth, idle + 1);
            },
            Op::Save(slot) => {
                if 0 <= slot < slots.len() {
                    let written = slots.update(slot, Some(pos as usize));
                    let next = log.push((slot as usize, slots[slot]));
                    lemma_failure_restores(ops, text, pos, pc + 1, written, next, depth, idle + 1);
                    lemma_restores_write(slots, log, slot as usize, Some(pos as usize));
                    if !end.matched {
                        lemma_restores_chain(slots, log, written, next, end.slots, end.log);
                    }
                }
            },
            Op::AssertStart => {
                if pos == 0 {
                    lemma_failure_restores(ops, text, pos, pc + 1, slots, log, depth, idle + 1);
                }
            },
            Op::AssertEnd => {
                if pos == text.len() {
                    lemma_failure_restores(ops, text, pos, pc + 1, slots, log, depth, idle + 1);
                }
            },
            Op::AssertWordBoundary => {
                if word_boundary(text, pos) {
                    lemma_failure_restores(ops, text, pos, pc + 1, slots, log, depth, idle + 1);
                }
            },
            Op::AssertNonWordBoundary => {
                if !word_boundary(text, pos) {
                    lemma_failure_restores(ops, text, pos, pc + 1, slots, log, depth, idle + 1);
                }
            },
            Op::Backref(group) => {
                match referenced(text, slots, group, pos) {
                    Some(len) => {
                        if len > 0 {
                            lemma_failure_restores(ops, text, pos + len, pc + 1, slots, log, depth, 0);
                        } else {
                            lemma_failure_restores(ops, text, pos, pc + 1, slots, log, depth, idle + 1);
                        }
                    },
                    None => {},
                }
            },
            Op::LookaheadPositive(sub_start, sub_end) => {
                match run(ops, text, pos, sub_start, slots.update(1, None), depth + 1, 0) {
                    Some(sub) => {
                        lemma_adoption_restores(ops, text, pos, sub_end, slots, log, depth, idle, sub);
                    },
                    None => {},
                }
            },
            Op::LookaheadNegative(sub_start, sub_end) => {
                lemma_failure_restores(ops, text, pos, sub_end, slots, log, depth, idle + 1);
            },
            Op::LookbehindPositive(sub_start, sub_end) => {
                match behind(ops, text, pos, 0, sub_start, slots, depth) {
                    Some(sub) => {
                        lemma_adoption_restores(ops, text, pos, sub_end, slots, log, depth, idle, sub);
                    },
                    None => {},
                }
            },
            Op::LookbehindNegative(sub_start, sub_end) => {
                lemma_failure_restores(ops, text, pos, sub_end, slots, log, depth, idle + 1);
            },
            Op::Nop => {
                lemma_failure_restores(ops, text, pos, pc + 1, slots, log, depth, idle + 1);
            },
        }
    }
}

/// As `lemma_failure_restores`, for a run that goes on after a lookaround from which it
/// has taken the slots `sub` over.
proof fn lemma_adoption_restores(
    ops: Seq<Op>,
    text: Seq<char>,
    pos: int,
    sub_end: int,
    slots: Seq<Option<usize>>,
    log: Seq<UndoEntry>,
    depth: nat,
    idle: nat,
    sub: Seq<Option<usize>>,
)
    requires
        slots.len() <= usize::MAX,
        depth <= MAX_DEPTH,
        idle < MAX_IDLE,
    ensures
        !outcome(
            ops,
            text,
            pos,
            sub_end,
            adopted(slots, sub),
            log + changes(slots, adopted(slots, sub), slots.len() as int),
            depth,
            idle + 1,
        ).matched ==> restores(
            slots,
            log,
            outcome(
                ops,
                text,
                pos,
                sub_end,
                adopted(slots, sub),
                log + changes(slots, adopted(slots, sub), slots.len() as int),
                depth,
                idle + 1,
            ).slots,
            outcome(
                ops,
                text,
                pos,
                sub_end,
                adopted(slots, sub),
                log + changes(slots, adopted(slots, sub), slots.len() as int),
                depth,
                idle + 1,
            ).log,
        ),
    decreases MAX_DEPTH + 1 - depth, text.len() - pos, MAX_IDLE - idle, 0nat,
{
    let taken = adopted(slots, sub);
    let next = log + changes(slots, taken, slots.len() as int);
    let end = outcome(ops, text, pos, sub_end, taken, next, depth, idle + 1);
    lemma_changes_restore(slots, taken, log, slots.len() as int);
    assert(partly(slots, taken, slots.len() as int) == taken);
    lemma_failure_restores(ops, text, pos, sub_end, taken, next, depth, idle + 1);
    if !end.matched {
        lemma_restores_chain(slots, log, taken, next, end.slots, end.log);
    }
}

/// Unwinds the undo log to `mark`, putting back the value of every slot written since.
fn rollback(captures: &mut Vec<Option<usize>>, undo_log: &mut Vec<UndoEntry>, mark: usize)
    requires
        mark <= old(undo_log).len(),
        forall|i: int|
            mark <= i < old(undo_log).len() ==> (#[trigger] old(undo_log)[i]).0 < old(
                captures,
            ).len(),
    ensures
        final(captures)@ == unwound(old(captures)@, old(undo_log)@, mark as int),
        final(captures).len() == old(captures).len(),
        final(undo_log)@ == old(undo_log)@.take(mark as int),
{
    let ghost slots0 = captures@;
    let ghost log0 = undo_log@;
    while undo_log.len() > mark
        invariant
            mark <= undo_log.len() <= log0.len(),
            undo_log@ == log0.take(undo_log.len() as int),
            captures.len() == slots0.len(),
            forall|i: int| mark <= i < log0.len() ==> (#[trigger] log0[i]).0 < slots0.len(),
            unwound(captures@, undo_log@, mark as int) == unwound(slots0, log0, mark as int),
        decreases undo_log.len(),
    {
        let entry = undo_log.pop().unwrap();
        captures.set(entry.0, entry.1);
    }
}

/// A copy of the slots.
fn copy_slots(captures: &Vec<Option<usize>>) -> (copy: Vec<Option<usize>>)
    ensures
        copy@ == captures@,
{
    let mut copy: Vec<Option<usize>> = Vec::new();
    let mut i: usize = 0;
    while i < captures.len()
        invariant
            i <= captures.len(),
            copy@ == captures@.take(i as int),
        decreases captures.len() - i,
    {
        copy.push(captures[i]);
        i += 1;
    }
    copy
}

/// Whether two slots hold the same value.
fn same_slot(a: Option<usize>, b: Option<usize>) -> (same: bool)
    ensures
        same == (a == b),
{
    match (a, b) {
        (Some(x), Some(y)) => x == y,
        (None, None) => true,
        _ => false,
    }
}

/// Takes the groups that a lookaround captured over into `captures`, logging every slot
/// that changes.
fn adopt(captures: &mut Vec<Option<usize>>, undo_log: &mut Vec<UndoEntry>, sub: &Vec<Option<usize>>)
    requires
        sub.len() == old(captures).len(),
    ensures
        final(captures)@ == adopted(old(captures)@, sub@),
        final(undo_log)@ == old(undo_log)@ + changes(
            old(captures)@,
            adopted(old(captures)@, sub@),
            old(captures).len() as int,
        ),
        restores(old(captures)@, old(undo_log)@, final(captures)@, final(undo_log)@),
{
    let ghost slots0 = captures@;
    let ghost log0 = undo_log@;
    let n = captures.len();
    let mut i: usize = 2;
    proof {
        assert(undo_log@.take(log0.len() as int) == log0);
        assert(log0 + changes(slots0, adopted(slots0, sub@), 2) == log0);
    }
    while i < n
        invariant
            2 <= i,
            n == captures.len(),
            n == sub.len(),
            n == slots0.len(),
            i <= n || i == 2,
            restores(slots0, log0, captures@, undo_log@),
            undo_log@ == log0 + changes(slots0, adopted(slots0, sub@), i as int),
            forall|j: int| 0 <= j < n ==> #[trigger] captures@[j] == if 2 <= j < i {
                sub@[j]
            } else {
                slots0[j]
            },
        decreases n - i,
    {
        proof {
            let after = adopted(slots0, sub@);
            let so_far = changes(slots0, after, i as int);
            if after[i as int] != slots0[i as int] {
                assert((log0 + so_far).push((i, slots0[i as int])) == log0 + so_far.push(
                    (i, slots0[i as int]),
                ));
            }
        }
        if !same_slot(sub[i], captures[i]) {
            proof {
                lemma_restores_write(captures@, undo_log@, i, sub@[i as int]);
                lemma_restores_chain(
                    slots0,
                    log0,
                    captures@,
                    undo_log@,
                    captures@.update(i as int, sub@[i as int]),
                    undo_log@.push((i, captures@[i as int])),
                );
            }
            undo_log.push((i, captures[i]));
            captures.set(i, sub[i]);
        }
        i += 1;
    }
    proof {
        let after = adopted(slots0, sub@);
        assert(changes(slots0, after, n as int) == changes(slots0, after, i as int));
        assert(captures@ == after);
    }
}

/// Tests a backreference to `group` at `pos`: returns the length of the captured text if
/// both ends of the group are set and the text between them occurs again at `pos`.
fn backref_len(chars: &Vec<char>, captures: &Vec<Option<usize>>, group: usize, pos: usize) -> (len:
    Option<usize>)
    ensures
        match referenced(chars@, captures@, group as int, pos as int) {
            Some(n) => len == Some(n as usize) && n <= usize::MAX && pos + n <= chars.len(),
            None => len is None,
        },
{
    if group >= captures.len() / 2 {
        return None;
    }
    match (captures[2 * group], captures[2 * group + 1]) {
        (Some(start), Some(end)) => {
            if start > end || end > chars.len() || pos > chars.len() || end - start > chars.len()
                - pos {
                return None;
            }
            let n = end - start;
            let mut k: usize = 0;
            while k < n
                invariant
                    k <= n,
                    n == end - start,
                    start <= end <= chars.len(),
                    pos + n <= chars.len(),
                    2 * group + 1 < captures.len(),
                    captures@[2 * group] == Some(start),
                    captures@[2 * group + 1] == Some(end),
                    chars@.subrange(start as int, start + k) == chars@.subrange(
                        pos as int,
                        pos + k,
                    ),
                decreases n - k,
            {
                if chars[start + k] != chars[pos + k] {
                    proof {
                        let a = chars@.subrange(start as int, end as int);
                        let b = chars@.subrange(pos as int, pos + n);
                        assert(a[k as int] != b[k as int]);
                    }
                    return None;
                }
                k += 1;
            }
            Some(n)
        },
        _ => None,
    }
}

/// Tries the first branch of a `Split`, one level deeper.
///
/// Returns `true` with the slots of the match in `captures` if the branch reaches a
/// `Match`. If the branch fails, the undo log is unwound to where it stood when the
/// branch began: the slots and the log are then what they were at the `Split`.
#[inline]
fn try_branch(
    program: &Program,
    chars: &Vec<char>,
    pos: usize,
    first: usize,
    captures: &mut Vec<Option<usize>>,
    undo_log: &mut Vec<UndoEntry>,
    depth: usize,
) -> (ok: bool)
    requires
        depth <= MAX_DEPTH,
    ensures
        final(captures).len() == old(captures).len(),
        ok == outcome(
            program@.ops,
            chars@,
            pos as int,
            first as int,
            old(captures)@,
            old(undo_log)@,
            (depth + 1) as nat,
            0,
        ).matched,
        ok ==> final(captures)@ == outcome(
            program@.ops,
            chars@,
            pos as int,
            first as int,
            old(captures)@,
            old(undo_log)@,
            (depth + 1) as nat,
            0,
        ).slots && final(undo_log)@ == outcome(
            program@.ops,
            chars@,
            pos as int,
            first as int,
            old(captures)@,
            old(undo_log)@,
            (depth + 1) as nat,
            0,
        ).log,
        !ok ==> final(captures)@ == old(captures)@ && final(undo_log)@ == old(undo_log)@,
    decreases MAX_DEPTH + 1 - depth, 1nat,
{
    let mark = undo_log.len();
    if exec(program, chars, pos, first, captures, undo_log, depth + 1) {
        return true;
    }
    rollback(captures, undo_log, mark);
    false
}

/// Runs the sub-program of a lookaround from `sub_start` at `pos`. The end of the whole
/// match is cleared first, so that afterwards slot 1 holds where the sub-program stopped;
/// where the sub-program fails, slot 1 gets its value back.
fn exec_sub(
    program: &Program,
    chars: &Vec<char>,
    pos: usize,
    sub_start: usize,
    captures: &mut Vec<Option<usize>>,
    undo_log: &mut Vec<UndoEntry>,
    depth: usize,
) -> (ok: bool)
    requires
        old(captures).len() >= 2,
    ensures
        final(captures).len() == old(captures).len(),
        ok == outcome(
            program@.ops,
            chars@,
            pos as int,
            sub_start as int,
            old(captures)@.update(1, None),
            old(undo_log)@,
            depth as nat,
            0,
        ).matched,
        final(captures)@ == if ok {
            outcome(
                program@.ops,
                chars@,
                pos as int,
                sub_start as int,
                old(captures)@.update(1, None),
                old(undo_log)@,
                depth as nat,
                0,
            ).slots
        } else {
            outcome(
                program@.ops,
                chars@,
                pos as int,
                sub_start as int,
                old(captures)@.update(1, None),
                old(undo_log)@,
                depth as nat,
                0,
            ).slots.update(1, old(captures)@[1])
        },
        final(undo_log)@ == outcome(
            program@.ops,
            chars@,
            pos as int,
            sub_start as int,
            old(captures)@.update(1, None),
            old(undo_log)@,
            depth as nat,
            0,
        ).log,
        !ok ==> final(captures)@[1] == old(captures)@[1],
        extends(old(undo_log)@, final(undo_log)@),
        match run(
            program@.ops,
            chars@,
            pos as int,
            sub_start as int,
            old(captures)@.update(1, None),
            depth as nat,
            0,
        ) {
            Some(slots) => ok && final(captures)@ == slots,
            None => !ok,
        },
    decreases MAX_DEPTH + 1 - depth, 3nat,
{
    let old_end = captures[1];
    captures.set(1, None);
    let ok = exec(program, chars, pos, sub_start, captures, undo_log, depth);
    if !ok {
        captures.set(1, old_end);
    }
    ok
}

/// Runs the sub-program of a lookbehind from `pos`, `pos - 1`, and so on down to 0, each
/// time on a copy of the slots, and returns the slots of the first run that ends at `pos`.
fn look_behind(
    program: &Program,
    chars: &Vec<char>,
    pos: usize,
    sub_start: usize,
    captures: &Vec<Option<usize>>,
    depth: usize,
) -> (found: Option<Vec<Option<usize>>>)
    requires
        captures.len() >= 2,
        depth <= MAX_DEPTH,
    ensures
        match behind(program@.ops, chars@, pos as int, 0, sub_start as int, captures@, depth as nat) {
            Some(sub) => found matches Some(v) && v@ == sub && v.len() == captures.len(),
            None => found is None,
        },
    decreases MAX_DEPTH + 1 - depth, 1nat,
{
    let mut back: usize = 0;
    while back <= pos
        invariant
            captures.len() >= 2,
            depth <= MAX_DEPTH,
            back <= pos + 1,
            behind(
                program@.ops,
                chars@,
                pos as int,
                back as int,
                sub_start as int,
                captures@,
                depth as nat,
            ) == behind(program@.ops, chars@, pos as int, 0, sub_start as int, captures@, depth as nat),
        decreases pos + 1 - back,
    {
        let mut sub = copy_slots(captures);
        let mut sub_undo: Vec<UndoEntry> = Vec::new();
        if exec_sub(program, chars, pos - back, sub_start, &mut sub, &mut sub_undo, depth + 1) {
            let ends_here = match sub[1] {
                Some(end) => end == pos,
                None => false,
            };
            if ends_here {
                return Some(sub);
            }
        }
        if back == pos {
            assert(behind(
                program@.ops,
                chars@,
                pos as int,
                back + 1,
                sub_start as int,
                captures@,
                depth as nat,
            ) is None);
            return None;
        }
        back += 1;
    }
    None
}

/// Executes `program` on `chars` from position `pos` and instruction `pc`, at nesting
/// `depth`.
///
/// Returns `true` with the slots of the match in `captures` if a `Match` is reached, and
/// `false` if every branch fails. Either way the slots and the undo log are left as
/// [`outcome`] says, and the log has only grown. After a failure, unwinding `undo_log` to
/// the length it had at the call would put `captures` back as they were: a failed branch
/// leaves nothing behind that its caller cannot undo.
fn exec(
    program: &Program,
    chars: &Vec<char>,
    pos: usize,
    pc: usize,
    captures: &mut Vec<Option<usize>>,
    undo_log: &mut Vec<UndoEntry>,
    depth: usize,
) -> (ok: bool)
    ensures
        final(captures).len() == old(captures).len(),
        ok == outcome(
            program@.ops,
            chars@,
            pos as int,
            pc as int,
            old(captures)@,
            old(undo_log)@,
            depth as nat,
            0,
        ).matched,
        final(captures)@ == outcome(
            program@.ops,
            chars@,
            pos as int,
            pc as int,
            old(captures)@,
            old(undo_log)@,
            depth as nat,
            0,
        ).slots,
        final(undo_log)@ == outcome(
            program@.ops,
            chars@,
            pos as int,
            pc as int,
            old(captures)@,
            old(undo_log)@,
            depth as nat,
            0,
        ).log,
        extends(old(undo_log)@, final(undo_log)@),
        !ok ==> restores(old(captures)@, old(undo_log)@, final(captures)@, final(undo_log)@),
        match run(program@.ops, chars@, pos as int, pc as int, old(captures)@, depth as nat, 0) {
            Some(slots) => ok && final(captures)@ == slots,
            None => !ok,
        },
    decreases MAX_DEPTH + 1 - depth, 2nat,
{
    let ghost ops = program@.ops;
    let ghost text = chars@;
    let ghost slots0 = captures@;
    let ghost log0 = undo_log@;
    let ghost goal = outcome(ops, text, pos as int, pc as int, slots0, log0, depth as nat, 0);
    proof {
        assert(log0.take(log0.len() as int) == log0);
        lemma_outcome(ops, text, pos as int, pc as int, slots0, log0, depth as nat, 0);
    }
    if depth > MAX_DEPTH || captures.len() < 2 {
        return false;
    }
    let mut at = pos;
    let mut ip = pc;
    let mut idle: u64 = 0;
    loop
        invariant
            ops == program@.ops,
            text == chars@,
            depth <= MAX_DEPTH,
            captures.len() == slots0.len(),
            captures.len() >= 2,
            slots0 == old(captures)@,
            log0 == old(undo_log)@,
            restores(slots0, log0, captures@, undo_log@),
            outcome(ops, text, at as int, ip as int, captures@, undo_log@, depth as nat, idle as nat)
                == goal,
            goal == outcome(ops, text, pos as int, pc as int, slots0, log0, depth as nat, 0),
            extends(log0, goal.log),
            match run(ops, text, pos as int, pc as int, slots0, depth as nat, 0) {
                Some(found) => goal.matched && goal.slots == found,
                None => !goal.matched,
            },
        decreases chars.len() - at, MAX_IDLE - idle,
    {
        if ip >= program.insts.len() || idle >= MAX_IDLE {
            return false;
        }
        let ghost slots = captures@;
        let ghost log = undo_log@;
        match &program.insts[ip] {
            Inst::Match => {
                captures.set(1, Some(at));
                return true;
            },
            Inst::Char(expected) => {
                if at < chars.len() && chars[at] == *expected {
                    at += 1;
                    ip += 1;
                    idle = 0;
                } else {
                    return false;
                }
            },
            Inst::AnyChar => {
                if at < chars.len() && chars[at] != '\n' {
                    at += 1;
                    ip += 1;
                    idle = 0;
                } else {
                    return false;
                }
            },
            Inst::CharClass { ranges, negated } => {
                if at < chars.len() && char_class_matches(chars[at], ranges.as_slice(), *negated) {
                    at += 1;
                    ip += 1;
                    idle = 0;
                } else {
                    return false;
                }
            },
            Inst::ShorthandClass(kind) => {
                if at < chars.len() && shorthand_matches(chars[at], *kind) {
                    at += 1;
                    ip += 1;
                    idle = 0;
                } else {
                    return false;
                }
            },
            Inst::Jump(target) => {
                ip = *target;
                idle += 1;
            },
            Inst::Split(first, second) => {
                if try_branch(program, chars, at, *first, captures, undo_log, depth) {
                    return true;
                }
                ip = *second;
                idle += 1;
            },
            Inst::Save(slot) => {
                let slot = *slot;
                if slot >= captures.len() {
                    return false;
                }
                proof {
                    lemma_restores_write(slots, log, slot, Some(at));
                    lemma_restores_chain(
                        slots0,
                        log0,
                        slots,
                        log,
                        slots.update(slot as int, Some(at)),
                        log.push((slot, slots[slot as int])),
                    );
                }
                undo_log.push((slot, captures[slot]));
                captures.set(slot, Some(at));
                ip += 1;
                idle += 1;
            },
            Inst::AssertStart => {
                if at == 0 {
                    ip += 1;
                    idle += 1;
                } else {
                    return false;
                }
            },
            Inst::AssertEnd => {
                if at == chars.len() {
                    ip += 1;
                    idle += 1;
                } else {
                    return false;
                }
            },
            Inst::AssertWordBoundary => {
                if is_word_boundary(chars.as_slice(), at) {
                    ip += 1;
                    idle += 1;
                } else {
                    return false;
                }
            },
            Inst::AssertNonWordBoundary => {
                if !is_word_boundary(chars.as_slice(), at) {
                    ip += 1;
                    idle += 1;
                } else {
                    return false;
                }
            },
            Inst::Backref(group) => {
                match backref_len(chars, captures, *group, at) {
                    Some(len) => {
                        ip += 1;
                        if len > 0 {
                            at += len;
                            idle = 0;
                        } else {
                            idle += 1;
                        }
                    },
                    None => {
                        return false;
                    },
                }
            },
            Inst::LookaheadPositive(sub_start, sub_end) => {
                let mut sub = copy_slots(captures);
                let mut sub_undo: Vec<UndoEntry> = Vec::new();
                if exec_sub(program, chars, at, *sub_start, &mut sub, &mut sub_undo, depth + 1) {
                    adopt(captures, undo_log, &sub);
                    proof {
                        lemma_restores_chain(slots0, log0, slots, log, captures@, undo_log@);
                    }
                    ip = *sub_end;
                    idle += 1;
                } else {
                    return false;
                }
            },
            Inst::LookaheadNegative(sub_start, sub_end) => {
                let mut sub = copy_slots(captures);
                let mut sub_undo: Vec<UndoEntry> = Vec::new();
                if !exec_sub(program, chars, at, *sub_start, &mut sub, &mut sub_undo, depth + 1) {
                    ip = *sub_end;
                    idle += 1;
                } else {
                    return false;
                }
            },
            Inst::LookbehindPositive(sub_start, sub_end) => {
                match look_behind(program, chars, at, *sub_start, captures, depth) {
                    Some(sub) => {
                        adopt(captures, undo_log, &sub);
                        proof {
                            lemma_restores_chain(slots0, log0, slots, log, captures@, undo_log@);
                        }
                        ip = *sub_end;
                        idle += 1;
                    },
                    None => {
                        return false;
                    },
                }
            },
            Inst::LookbehindNegative(sub_start, sub_end) => {
                match look_behind(program, chars, at, *sub_start, captures, depth) {
                    Some(_) => {
                        return false;
                    },
                    None => {
                        ip = *sub_end;
                        idle += 1;
                    },
                }
            },
            Inst::Nop => {
                ip += 1;
                idle += 1;
            },
        }
    }
}

/// The slots for an attempt at `start`.
fn fresh_slots(count: usize, start: usize) -> (slots: Vec<Option<usize>>)
    requires
        count >= 1,
    ensures
        slots@ == fresh(count as nat, start as int),
{
    let mut slots: Vec<Option<usize>> = Vec::new();
    slots.push(Some(start));
    while slots.len() < count
        invariant
            1 <= slots.len() <= count,
            slots@[0] == Some(start),
            forall|i: int| 1 <= i < slots.len() ==> slots@[i] == None::<usize>,
        decreases count - slots.len(),
    {
        slots.push(None);
    }
    slots
}

/// Runs the program once, from its first instruction at `start`.
fn attempt_at(program: &Program, chars: &Vec<char>, start: usize) -> (found: Option<MatchResult>)
    requires
        program.well_formed(),
        start <= chars.len(),
    ensures
        match attempt(program@, chars@, start as int) {
            Some(f) => found matches Some(m) && m@ == f,
            None => found is None,
        },
        found matches Some(m) ==> m.start == start && m.captures.len() == 2 * (program.n_groups
            + 1),
{
    let n_slots = (program.n_groups + 1) * 2;
    let mut captures = fresh_slots(n_slots, start);
    let mut undo_log: Vec<UndoEntry> = Vec::new();
    if exec(program, chars, start, 0, &mut captures, &mut undo_log, 0) {
        let end = match captures[1] {
            Some(end) => end,
            None => start,
        };
        captures.set(1, Some(end));
        Some(MatchResult { start, end, captures })
    } else {
        None
    }
}

/// Searches `input` for the first match of `program`.
///
/// A program anchored at the start is tried at position 0 only. Any other is tried at
/// each position from 0 up to and including the end of the input, skipping the positions
/// that do not hold the program's first character where it names one; the first attempt
/// that matches is the result.
pub fn search(program: &Program, input: &str) -> (found: Option<MatchResult>)
    requires
        program.well_formed(),
    ensures
        match find(program@, input@) {
            Some(f) => found matches Some(m) && m@ == f,
            None => found is None,
        },
        found matches Some(m) ==> m.start <= input@.len() && m.captures.len() == 2 * (
        program.n_groups + 1),
{
    let chars = chars_of(input);
    if program.anchored_start {
        return attempt_at(program, &chars, 0);
    }
    let mut start: usize = 0;
    while start <= chars.len()
        invariant
            program.well_formed(),
            chars@ == input@,
            !program.anchored_start,
            start <= chars.len() + 1,
            scan(program@, chars@, start as int) == find(program@, input@),
        decreases chars.len() + 1 - start,
    {
        let tried = match program.first_char {
            Some(c) => start < chars.len() && chars[start] == c,
            None => true,
        };
        if tried {
            let found = attempt_at(program, &chars, start);
            if found.is_some() {
                return found;
            }
        }
        if start == chars.len() {
            assert(scan(program@, chars@, start + 1) is None);
            return None;
        }
        start += 1;
    }
    None
}

} // verus!
