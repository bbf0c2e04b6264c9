use regex_engine::driver::respond;

/// What the command line answers for a pattern and an input, line by line.
fn report(pattern: &str, input: &str) -> Vec<String> {
    respond(pattern, input)
}

#[test]
fn group_with_plus() {
    assert_eq!(report("a(b+)c", "xxabbbcx"), vec!["MATCH:abbbc", "GROUP 1:bbb"]);
}

#[test]
fn anchored_both_ends_matches() {
    assert_eq!(report("^hello$", "hello"), vec!["MATCH:hello"]);
}

#[test]
fn anchored_both_ends_rejects_longer_input() {
    assert_eq!(report("^hello$", "hello!"), vec!["NO_MATCH"]);
}

#[test]
fn bounded_repetition_is_greedy() {
    assert_eq!(report("\\d{2,4}", "x12345"), vec!["MATCH:1234"]);
}

#[test]
fn backreference_repeats_group() {
    assert_eq!(report("(foo)\\1", "foofoo"), vec!["MATCH:foofoo", "GROUP 1:foo"]);
}

#[test]
fn lookahead_consumes_nothing() {
    assert_eq!(report("a(?=b)", "ab"), vec!["MATCH:a"]);
}

#[test]
fn lookbehind_finds_what_precedes() {
    assert_eq!(report("(?<=@)\\w+", "u@host"), vec!["MATCH:host"]);
}

#[test]
fn negated_class() {
    assert_eq!(report("[^0-9]+", "abc123"), vec!["MATCH:abc"]);
}

#[test]
fn first_alternative_wins() {
    assert_eq!(report("a|ab", "ab"), vec!["MATCH:a"]);
}

#[test]
fn lazy_star_stops_early() {
    assert_eq!(report("a.*?b", "axxbxxb"), vec!["MATCH:axxb"]);
}

#[test]
fn unterminated_group_is_an_error() {
    let lines = report("(abc", "anything");
    assert_eq!(lines.len(), 1);
    assert!(lines[0].starts_with("ERROR:"));
    assert_eq!(lines[0], "ERROR:Expected ')', got end of pattern at position 4");
}

#[test]
fn absent_group_prints_empty() {
    assert_eq!(report("(a)|(b)", "b"), vec!["MATCH:b", "GROUP 1:", "GROUP 2:b"]);
}

#[test]
fn empty_match_prints_empty() {
    assert_eq!(report("x*", "abc"), vec!["MATCH:"]);
    assert_eq!(report("", ""), vec!["MATCH:"]);
}

#[test]
fn group_lines_are_numbered_in_decimal() {
    let pattern = "(a)(b)(c)(d)(e)(f)(g)(h)(i)(j)(k)";
    assert_eq!(
        report(pattern, "abcdefghijk"),
        vec![
            "MATCH:abcdefghijk",
            "GROUP 1:a",
            "GROUP 2:b",
            "GROUP 3:c",
            "GROUP 4:d",
            "GROUP 5:e",
            "GROUP 6:f",
            "GROUP 7:g",
            "GROUP 8:h",
            "GROUP 9:i",
            "GROUP 10:j",
            "GROUP 11:k",
        ]
    );
}

#[test]
fn texts_are_cut_by_code_points() {
    assert_eq!(report("(é+)ß", "aééßb"), vec!["MATCH:ééß", "GROUP 1:éé"]);
}

#[test]
fn group_of_a_lookbehind_prints_what_was_looked_at() {
    assert_eq!(report("(?<=(a))b", "ab"), vec!["MATCH:b", "GROUP 1:a"]);
}

#[test]
fn rejected_patterns_print_their_diagnostic() {
    assert_eq!(report("a)", "a"), vec!["ERROR:Unexpected character ')' at position 1"]);
    assert_eq!(report("[a", "a"), vec!["ERROR:Unterminated character class at position 2"]);
    assert_eq!(report("(?<a)", "a"), vec!["ERROR:Invalid lookbehind syntax at position 3"]);
}

#[test]
fn no_match_prints_no_match() {
    assert_eq!(report("abc", "ab"), vec!["NO_MATCH"]);
}
