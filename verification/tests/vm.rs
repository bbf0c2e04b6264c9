use regex_engine::compiler::{compile, Inst, Program};
use regex_engine::parser::Parser;
use regex_engine::vm::{search, MatchResult};

fn program(pattern: &str) -> Program {
    let mut parser = Parser::new(pattern);
    let ast = parser.parse().expect("pattern parses");
    compile(&ast, parser.group_count())
}

fn find(pattern: &str, input: &str) -> Option<MatchResult> {
    search(&program(pattern), input)
}

/// The bounds of the match, in code points.
fn span(pattern: &str, input: &str) -> Option<(usize, usize)> {
    find(pattern, input).map(|found| (found.start, found.end))
}

/// The bounds of group `i` of the match.
fn group(pattern: &str, input: &str, i: usize) -> Option<(usize, usize)> {
    let found = find(pattern, input).expect("pattern matches");
    match (found.captures[2 * i], found.captures[2 * i + 1]) {
        (Some(start), Some(end)) => Some((start, end)),
        _ => None,
    }
}

#[test]
fn match_reports_its_bounds_in_slots_zero_and_one() {
    let found = find("b+", "aabbbc").expect("pattern matches");
    assert_eq!(found.start, 2);
    assert_eq!(found.end, 5);
    assert_eq!(found.captures, vec![Some(2), Some(5)]);
}

#[test]
fn slots_come_in_pairs_for_each_group() {
    let found = find("(a)(x)?(b)", "ab").expect("pattern matches");
    assert_eq!(
        found.captures,
        vec![Some(0), Some(2), Some(0), Some(1), None, None, Some(1), Some(2)]
    );
}

#[test]
fn search_finds_the_leftmost_match() {
    assert_eq!(span("b", "abcb"), Some((1, 2)));
    assert_eq!(span("b|a", "ab"), Some((0, 1)));
}

#[test]
fn empty_pattern_matches_empty_at_the_start() {
    assert_eq!(span("", "abc"), Some((0, 0)));
    assert_eq!(span("", ""), Some((0, 0)));
}

#[test]
fn empty_match_at_the_end_of_input() {
    assert_eq!(span("$", "abc"), Some((3, 3)));
    assert_eq!(span("x*$", "abc"), Some((3, 3)));
}

#[test]
fn no_match() {
    assert_eq!(span("x", "abc"), None);
    assert_eq!(span("abcd", "abc"), None);
    assert_eq!(span("a", ""), None);
}

#[test]
fn dot_matches_anything_but_newline() {
    assert_eq!(span("a.c", "a\nc abc"), Some((4, 7)));
    assert_eq!(span(".", "\n"), None);
    assert_eq!(span(".", "\r"), Some((0, 1)));
}

#[test]
fn offsets_are_in_code_points() {
    assert_eq!(span("b", "ééb"), Some((2, 3)));
    assert_eq!(span(".", "𝄞"), Some((0, 1)));
}

#[test]
fn anchors() {
    assert_eq!(span("^b", "ab"), None);
    assert_eq!(span("^a", "ab"), Some((0, 1)));
    assert_eq!(span("a$", "aba"), Some((2, 3)));
    assert_eq!(span("b^", "b"), None);
    assert_eq!(span("a|^b", "cb"), None);
}

#[test]
fn anchored_program_is_tried_at_the_start_only() {
    assert_eq!(span("^a*", "baa"), Some((0, 0)));
    assert_eq!(span("^a+", "baa"), None);
}

#[test]
fn first_char_filter_skips_other_positions() {
    assert_eq!(span("ab", "aab"), Some((1, 3)));
    assert_eq!(span("ab", "ba"), None);
}

#[test]
fn search_obeys_the_filters_it_is_given() {
    let mut odd = program("b");
    odd.first_char = Some('a');
    assert_eq!(search(&odd, "ab").map(|found| found.start), None);
    odd.first_char = None;
    odd.anchored_start = true;
    assert_eq!(search(&odd, "ab").map(|found| found.start), None);
    odd.anchored_start = false;
    assert_eq!(search(&odd, "ab").map(|found| found.start), Some(1));
}

#[test]
fn word_boundaries() {
    assert_eq!(span("\\bfoo\\b", "a foo b"), Some((2, 5)));
    assert_eq!(span("\\bfoo\\b", "afoo"), None);
    assert_eq!(span("\\bfoo\\b", "foo"), Some((0, 3)));
    assert_eq!(span("\\Boo", "foo"), Some((1, 3)));
    assert_eq!(span("\\B", "a"), None);
    assert_eq!(span("\\B", ""), Some((0, 0)));
    assert_eq!(span("\\b", ""), None);
    assert_eq!(span("\\b_", "-_"), Some((1, 2)));
}

#[test]
fn shorthand_classes() {
    assert_eq!(span("\\d+", "ab123c"), Some((2, 5)));
    assert_eq!(span("\\D+", "12ab3"), Some((2, 4)));
    assert_eq!(span("\\w+", "-aZ_09-"), Some((1, 6)));
    assert_eq!(span("\\W+", "ab -!c"), Some((2, 5)));
    assert_eq!(span("\\s+", "a \t\n\r\u{b}\u{c}b"), Some((1, 7)));
    assert_eq!(span("\\S+", " ab "), Some((1, 3)));
}

#[test]
fn shorthands_are_ascii() {
    assert_eq!(span("\\d", "٣"), None);
    assert_eq!(span("\\w", "é"), None);
    assert_eq!(span("\\s", "\u{a0}"), None);
    assert_eq!(span("\\W", "é"), Some((0, 1)));
}

#[test]
fn classes() {
    assert_eq!(span("[abc]+", "xbcay"), Some((1, 4)));
    assert_eq!(span("[a-c]+", "xbcay"), Some((1, 4)));
    assert_eq!(span("[^a-c]+", "abxyc"), Some((2, 4)));
    assert_eq!(span("[\\d_]+", "a1_2b"), Some((1, 4)));
    assert_eq!(span("[z-a]", "m"), None);
    assert_eq!(span("[^z-a]", "m"), Some((0, 1)));
    assert_eq!(span("[a-a]", "a"), Some((0, 1)));
    assert_eq!(span("[]]", "]"), Some((0, 1)));
}

#[test]
fn greedy_and_lazy_quantifiers() {
    assert_eq!(span("a.*b", "axxbxxb"), Some((0, 7)));
    assert_eq!(span("a.*?b", "axxbxxb"), Some((0, 4)));
    assert_eq!(span("a+", "caaat"), Some((1, 4)));
    assert_eq!(span("a+?", "caaat"), Some((1, 2)));
    assert_eq!(span("a?", "a"), Some((0, 1)));
    assert_eq!(span("a??", "a"), Some((0, 0)));
    assert_eq!(span("a*", "aaa"), Some((0, 3)));
    assert_eq!(span("a*?", "aaa"), Some((0, 0)));
}

#[test]
fn star_greedy_and_lazy_start_at_the_same_place() {
    for input in ["", "aaa", "baa", "xyz"] {
        let greedy = find("a*", input).expect("a star matches everywhere");
        let lazy = find("a*?", input).expect("a lazy star matches everywhere");
        assert_eq!(greedy.start, 0);
        assert_eq!(lazy.start, 0);
        assert_eq!(lazy.end, 0);
    }
}

#[test]
fn bounded_repetition() {
    assert_eq!(span("a{2}", "aaaa"), Some((0, 2)));
    assert_eq!(span("a{2,}", "aaaa"), Some((0, 4)));
    assert_eq!(span("a{2,3}", "aaaa"), Some((0, 3)));
    assert_eq!(span("a{2,3}?", "aaaa"), Some((0, 2)));
    assert_eq!(span("a{2,}?", "aaaa"), Some((0, 2)));
    assert_eq!(span("a{3}", "aa"), None);
    assert_eq!(span("a{0}", "aa"), Some((0, 0)));
    assert_eq!(span("a{0,1}b", "ab"), Some((0, 2)));
}

#[test]
fn exact_range_matches_like_exact() {
    for input in ["", "a", "aa", "aaa", "baab"] {
        assert_eq!(span("a{2,2}", input), span("a{2}", input));
    }
}

#[test]
fn range_with_smaller_upper_bound_matches_the_lower_bound() {
    assert_eq!(span("a{3,1}", "aaaa"), Some((0, 3)));
    assert_eq!(span("a{3,1}", "aa"), None);
}

#[test]
fn non_capturing_group_matches_like_its_body() {
    for input in ["", "a", "b", "ab", "ba", "cab"] {
        assert_eq!(span("(?:a|b)", input), span("a|b", input));
    }
}

#[test]
fn alternation_prefers_the_first_branch_that_leads_to_a_match() {
    assert_eq!(span("a|ab", "ab"), Some((0, 1)));
    assert_eq!(span("(?:a|ab)c", "abc"), Some((0, 3)));
    assert_eq!(span("ab|a", "ab"), Some((0, 2)));
}

#[test]
fn nested_groups() {
    assert_eq!(span("((a)(b))c", "xabc"), Some((1, 4)));
    assert_eq!(group("((a)(b))c", "xabc", 1), Some((1, 3)));
    assert_eq!(group("((a)(b))c", "xabc", 2), Some((1, 2)));
    assert_eq!(group("((a)(b))c", "xabc", 3), Some((2, 3)));
}

#[test]
fn group_in_a_branch_not_taken_is_absent() {
    assert_eq!(group("(a)|(b)", "b", 1), None);
    assert_eq!(group("(a)|(b)", "b", 2), Some((0, 1)));
}

#[test]
fn group_in_a_loop_keeps_its_last_iteration() {
    assert_eq!(group("(a|b)*", "abab", 1), Some((3, 4)));
    assert_eq!(group("(?:(a)|b)*", "ab", 1), Some((0, 1)));
}

#[test]
fn failed_branch_leaves_no_capture_behind() {
    assert_eq!(span("(?:(a)b|ac)", "ac"), Some((0, 2)));
    assert_eq!(group("(?:(a)b|ac)", "ac", 1), None);
    assert_eq!(group("(?:(a)(b)x|(a)b)", "ab", 1), None);
    assert_eq!(group("(?:(a)(b)x|(a)b)", "ab", 2), None);
    assert_eq!(group("(?:(a)(b)x|(a)b)", "ab", 3), Some((0, 1)));
}

#[test]
fn backreference_matches_the_captured_text() {
    assert_eq!(span("(a+)b\\1", "aabaa"), Some((0, 5)));
    assert_eq!(span("(a+)b\\1", "aaba"), Some((1, 4)));
    assert_eq!(span("(a|b)\\1", "abba"), Some((1, 3)));
    assert_eq!(span("(a*)\\1", "b"), Some((0, 0)));
}

#[test]
fn backreference_to_an_unset_group_fails() {
    assert_eq!(span("(?:(a)|b)\\1", "b"), None);
    assert_eq!(span("\\1(a)", "aa"), None);
}

#[test]
fn backreference_to_an_absent_group_fails() {
    assert_eq!(span("\\1", "a"), None);
    assert_eq!(span("(a)\\2", "aa"), None);
    assert_eq!(span("a|\\9", "a"), Some((0, 1)));
}

#[test]
fn backreference_to_a_group_reopened_after_its_end_fails() {
    assert_eq!(span("(?:x(a|b\\1))+", "xaxb"), Some((0, 2)));
    assert_eq!(group("(?:x(a|b\\1))+", "xaxb", 1), Some((1, 2)));
}

#[test]
fn lookahead() {
    assert_eq!(span("a(?=b)", "acab"), Some((2, 3)));
    assert_eq!(span("a(?!b)", "abac"), Some((2, 3)));
    assert_eq!(span("a(?!b)", "ab"), None);
    assert_eq!(span("(?=a)", "ba"), Some((1, 1)));
}

#[test]
fn lookbehind() {
    assert_eq!(span("(?<=a)b", "bab"), Some((2, 3)));
    assert_eq!(span("(?<!a)b", "abcb"), Some((3, 4)));
    assert_eq!(span("(?<=ab+)c", "abbbc"), Some((4, 5)));
    assert_eq!(span("(?<=a)", "ba"), Some((2, 2)));
    assert_eq!(span("(?<=^)a", "ba"), None);
    assert_eq!(span("(?<!x)", ""), Some((0, 0)));
}

#[test]
fn group_inside_a_lookaround_may_lie_outside_the_match() {
    assert_eq!(span("(?<=(a))b", "ab"), Some((1, 2)));
    assert_eq!(group("(?<=(a))b", "ab", 1), Some((0, 1)));
    assert_eq!(span("a(?=(b))", "ab"), Some((0, 1)));
    assert_eq!(group("a(?=(b))", "ab", 1), Some((1, 2)));
}

#[test]
fn group_outside_a_lookaround_lies_within_the_match_beside_one_inside() {
    let found = find("(?<=(a))(b+)(?=(c))", "abbc").expect("pattern matches");
    assert_eq!((found.start, found.end), (1, 3));
    assert_eq!((found.captures[2], found.captures[3]), (Some(0), Some(1)));
    assert_eq!((found.captures[4], found.captures[5]), (Some(1), Some(3)));
    assert_eq!((found.captures[6], found.captures[7]), (Some(3), Some(4)));
}

#[test]
fn group_inside_a_negative_lookaround_is_absent() {
    assert_eq!(span("a(?!(c))", "ab"), Some((0, 1)));
    assert_eq!(group("a(?!(c))", "ab", 1), None);
}

#[test]
fn groups_outside_lookarounds_lie_within_the_match() {
    let cases = [
        ("x(a+)(b*)y", "zzxaabby"),
        ("((a)|(b))+", "cabba"),
        ("(a(b(c)?)?)+d", "abcabad"),
        ("(?=a)(a)(?<=a)", "ba"),
    ];
    for (pattern, input) in cases {
        let found = find(pattern, input).expect("pattern matches");
        assert_eq!(found.captures[0], Some(found.start));
        assert_eq!(found.captures[1], Some(found.end));
        for pair in found.captures.chunks(2).skip(1) {
            match (pair[0], pair[1]) {
                (Some(start), Some(end)) => {
                    assert!(found.start <= start && start <= end && end <= found.end);
                }
                (None, None) => {}
                _ => panic!("a group with one end only"),
            }
        }
    }
}

#[test]
fn lazy_loop_over_a_loop_reads_on() {
    assert_eq!(span("(?:a*)*?b", "aab"), Some((0, 3)));
}

#[test]
fn loop_that_only_sets_groups_goes_round_again() {
    let found = find("(?:\\B\\B\\B\\B\\B\\B\\B(?=\\2()|()))*?\\1", "")
        .expect("the third round sets the group that the pattern ends on");
    assert_eq!((found.start, found.end), (0, 0));
    assert_eq!(found.captures, vec![Some(0); 6]);
}

#[test]
fn lazy_loop_over_a_long_input() {
    let input = "a".repeat(5_000) + "b";
    assert_eq!(span("a*?b", &input), Some((0, 5_001)));
    assert_eq!(span(".*?b", &input), Some((0, 5_001)));
}

#[test]
fn jump_out_of_the_program_fails() {
    let outside = Program {
        insts: vec![Inst::Jump(7)],
        n_groups: 0,
        first_char: None,
        anchored_start: false,
    };
    assert_eq!(search(&outside, "ab").map(|found| found.start), None);
}

#[test]
fn hand_made_program_runs() {
    let program = Program {
        insts: vec![
            Inst::Save(2),
            Inst::Char('a'),
            Inst::Save(3),
            Inst::Nop,
            Inst::Match,
        ],
        n_groups: 1,
        first_char: Some('a'),
        anchored_start: false,
    };
    let found = search(&program, "ba").expect("program matches");
    assert_eq!((found.start, found.end), (1, 2));
    assert_eq!(found.captures, vec![Some(1), Some(2), Some(1), Some(2)]);
}
