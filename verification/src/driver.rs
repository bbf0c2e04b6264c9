//! What the command line answers for a pattern and an input: the match and its groups,
//! line by line, or that there is no match, or why the pattern was rejected.

use crate::compiler::{compile, compiled};
use crate::grammar::pattern;
use crate::laws::{
    every_reported_group_is_a_span, every_reported_match_is_accepted, group_is_span,
};
use crate::parser::Parser;
use crate::text::{append_decimal, chars_of, decimal, push_char};
use crate::vm::{find, search, Found, MatchResult};
use vstd::prelude::*;
use vstd::string::*;

verus! {

/// The text of the match.
pub open spec fn match_text(found: Found, text: Seq<char>) -> Seq<char> {
    text.subrange(found.start, found.end)
}

/// The text of the group `group`, which is empty where the group took no part in the
/// match.
pub open spec fn group_text(found: Found, group: int, text: Seq<char>) -> Seq<char> {
    match (found.slots[2 * group], found.slots[2 * group + 1]) {
        (Some(start), Some(end)) => text.subrange(start as int, end as int),
        _ => Seq::empty(),
    }
}

/// The line for the match, or for the group `group` where `group` is not 0.
pub open spec fn found_line(found: Found, group: int, text: Seq<char>) -> Seq<char> {
    if group == 0 {
        "MATCH:"@ + match_text(found, text)
    } else {
        "GROUP "@ + decimal(group as nat) + ":"@ + group_text(found, group, text)
    }
}

/// The lines of the answer: `ERROR:` and the diagnostic where the pattern is rejected,
/// `NO_MATCH` where the input has no match, and else `MATCH:` with the text of the match
/// and one line `GROUP i:` with the text of the group for each capturing group.
pub open spec fn answer(pat: Seq<char>, text: Seq<char>) -> Seq<Seq<char>> {
    match pattern(pat) {
        Err(error) => seq!["ERROR:"@ + error.text()],
        Ok((ast, groups)) => {
            match find(compiled(ast, groups), text) {
                None => seq!["NO_MATCH"@],
                Some(found) => Seq::new(groups + 1, |i: int| found_line(found, i, text)),
            }
        },
    }
}

/// Appends the characters of `chars` from `start` up to, but not including, `end`.
fn append_slice(line: &mut String, chars: &Vec<char>, start: usize, end: usize)
    requires
        start <= end <= chars.len(),
    ensures
        final(line)@ == old(line)@ + chars@.subrange(start as int, end as int),
{
    let ghost before = line@;
    let mut i = start;
    while i < end
        invariant
            start <= i <= end <= chars.len(),
            line@ == before + chars@.subrange(start as int, i as int),
        decreases end - i,
    {
        push_char(line, chars[i]);
        i += 1;
    }
}

/// The line for the match (`group` 0) or for a group.
fn line_for(found: &MatchResult, group: usize, chars: &Vec<char>) -> (line: String)
    requires
        2 * group + 1 < found.captures.len(),
        found.start <= found.end <= chars.len(),
        group > 0 ==> group_is_span(found@, group as int, chars@),
    ensures
        line@ == found_line(found@, group as int, chars@),
{
    if group == 0 {
        let mut line = String::from_str("MATCH:");
        append_slice(&mut line, chars, found.start, found.end);
        line
    } else {
        let mut line = String::from_str("GROUP ");
        append_decimal(&mut line, group);
        line.append(":");
        match (found.captures[2 * group], found.captures[2 * group + 1]) {
            (Some(start), Some(end)) => {
                append_slice(&mut line, chars, start, end);
            },
            _ => {
            },
        }
        line
    }
}

/// Answers for a pattern and an input: parses the pattern, compiles it, searches the
/// input, and returns the lines that report what was found.
pub fn respond(pat: &str, input: &str) -> (lines: Vec<String>)
    requires
        pat@.len() < usize::MAX / 2,
    ensures
        lines.len() == answer(pat@, input@).len(),
        forall|i: int| 0 <= i < lines.len() ==> (#[trigger] lines[i])@ == answer(pat@, input@)[i],
{
    let mut lines: Vec<String> = Vec::new();
    let mut parser = Parser::new(pat);
    let ast = match parser.parse() {
        Ok(ast) => ast,
        Err(message) => {
            let mut line = String::from_str("ERROR:");
            line.append(message.as_str());
            lines.push(line);
            return lines;
        },
    };
    let n_groups = parser.group_count();
    proof {
        parser.lemma_within();
    }
    let program = compile(&ast, n_groups);
    let chars = chars_of(input);
    let found = match search(&program, input) {
        Some(found) => found,
        None => {
            lines.push(String::from_str("NO_MATCH"));
            return lines;
        },
    };
    proof {
        assert(input@.len() == chars.len());
        every_reported_match_is_accepted(pat@, input@, found@);
        every_reported_group_is_a_span(pat@, input@, found@);
    }
    let mut group: usize = 0;
    while group <= n_groups
        invariant
            group <= n_groups + 1,
            n_groups < usize::MAX / 2,
            lines.len() == group,
            chars@ == input@,
            found.captures.len() == 2 * (n_groups + 1),
            found.start <= found.end <= chars.len(),
            forall|g: int| 1 <= g <= n_groups ==> #[trigger] group_is_span(found@, g, chars@),
            forall|i: int|
                0 <= i < lines.len() ==> (#[trigger] lines[i])@ == found_line(found@, i, chars@),
        decreases n_groups + 1 - group,
    {
        let line = line_for(&found, group, &chars);
        lines.push(line);
        group += 1;
    }
    lines
}

} // verus!
