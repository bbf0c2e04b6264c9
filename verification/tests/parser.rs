use regex_engine::ast::{AnchorKind, AstNode, ClassItem, QuantifierKind, ShorthandKind};
use regex_engine::parser::Parser;

fn parse(pattern: &str) -> Result<AstNode, String> {
    Parser::new(pattern).parse()
}

fn tree(pattern: &str) -> AstNode {
    parse(pattern).expect("pattern parses")
}

fn error(pattern: &str) -> String {
    parse(pattern).expect_err("pattern is rejected")
}

fn lit(c: char) -> AstNode {
    AstNode::Literal(c)
}

fn quantified(node: AstNode, kind: QuantifierKind, greedy: bool) -> AstNode {
    AstNode::Quantifier { node: Box::new(node), kind, greedy }
}

fn groups(pattern: &str) -> usize {
    let mut parser = Parser::new(pattern);
    parser.parse().expect("pattern parses");
    parser.group_count()
}

#[test]
fn single_literal_stands_for_itself() {
    assert_eq!(tree("a"), lit('a'));
}

#[test]
fn empty_pattern_is_an_empty_concatenation() {
    assert_eq!(tree(""), AstNode::Concat(vec![]));
}

#[test]
fn literals_concatenate() {
    assert_eq!(tree("abc"), AstNode::Concat(vec![lit('a'), lit('b'), lit('c')]));
}

#[test]
fn alternation_binds_weaker_than_concatenation() {
    assert_eq!(
        tree("ab|c"),
        AstNode::Alternation(vec![AstNode::Concat(vec![lit('a'), lit('b')]), lit('c')])
    );
}

#[test]
fn alternation_keeps_empty_branches() {
    assert_eq!(
        tree("|a|"),
        AstNode::Alternation(vec![AstNode::Concat(vec![]), lit('a'), AstNode::Concat(vec![])])
    );
}

#[test]
fn quantifier_binds_stronger_than_concatenation() {
    assert_eq!(
        tree("ab*"),
        AstNode::Concat(vec![lit('a'), quantified(lit('b'), QuantifierKind::Star, true)])
    );
}

#[test]
fn star_plus_question_greedy_and_lazy() {
    assert_eq!(tree("a*"), quantified(lit('a'), QuantifierKind::Star, true));
    assert_eq!(tree("a+"), quantified(lit('a'), QuantifierKind::Plus, true));
    assert_eq!(tree("a?"), quantified(lit('a'), QuantifierKind::Question, true));
    assert_eq!(tree("a*?"), quantified(lit('a'), QuantifierKind::Star, false));
    assert_eq!(tree("a+?"), quantified(lit('a'), QuantifierKind::Plus, false));
    assert_eq!(tree("a??"), quantified(lit('a'), QuantifierKind::Question, false));
}

#[test]
fn quantifier_at_the_start_is_a_literal() {
    assert_eq!(tree("*a"), AstNode::Concat(vec![lit('*'), lit('a')]));
}

#[test]
fn quantifier_after_a_quantifier_is_a_literal() {
    assert_eq!(
        tree("a**"),
        AstNode::Concat(vec![quantified(lit('a'), QuantifierKind::Star, true), lit('*')])
    );
    assert_eq!(
        tree("a*+?"),
        AstNode::Concat(vec![
            quantified(lit('a'), QuantifierKind::Star, true),
            quantified(lit('+'), QuantifierKind::Question, true),
        ])
    );
}

#[test]
fn brace_quantifiers() {
    assert_eq!(tree("a{3}"), quantified(lit('a'), QuantifierKind::Exact(3), true));
    assert_eq!(tree("a{3,}"), quantified(lit('a'), QuantifierKind::AtLeast(3), true));
    assert_eq!(tree("a{3,5}"), quantified(lit('a'), QuantifierKind::Range(3, 5), true));
    assert_eq!(tree("a{3}?"), quantified(lit('a'), QuantifierKind::Exact(3), false));
    assert_eq!(tree("a{3,}?"), quantified(lit('a'), QuantifierKind::AtLeast(3), false));
    assert_eq!(tree("a{3,5}?"), quantified(lit('a'), QuantifierKind::Range(3, 5), false));
    assert_eq!(tree("a{007}"), quantified(lit('a'), QuantifierKind::Exact(7), true));
    assert_eq!(tree("a{0}"), quantified(lit('a'), QuantifierKind::Exact(0), true));
}

#[test]
fn range_with_smaller_upper_bound_is_read_as_written() {
    assert_eq!(tree("a{5,3}"), quantified(lit('a'), QuantifierKind::Range(5, 3), true));
}

#[test]
fn brace_that_is_no_quantifier_is_a_literal() {
    assert_eq!(tree("a{"), AstNode::Concat(vec![lit('a'), lit('{')]));
    assert_eq!(tree("a{}"), AstNode::Concat(vec![lit('a'), lit('{'), lit('}')]));
    assert_eq!(
        tree("a{x}"),
        AstNode::Concat(vec![lit('a'), lit('{'), lit('x'), lit('}')])
    );
    assert_eq!(
        tree("a{1,2"),
        AstNode::Concat(vec![lit('a'), lit('{'), lit('1'), lit(','), lit('2')])
    );
    assert_eq!(
        tree("a{1,x}"),
        AstNode::Concat(vec![lit('a'), lit('{'), lit('1'), lit(','), lit('x'), lit('}')])
    );
    assert_eq!(
        tree("a{,2}"),
        AstNode::Concat(vec![lit('a'), lit('{'), lit(','), lit('2'), lit('}')])
    );
}

#[test]
fn brace_with_a_number_too_large_is_a_literal() {
    let pattern = "a{99999999999999999999999999}";
    let mut expected = vec![lit('a'), lit('{')];
    for _ in 0..26 {
        expected.push(lit('9'));
    }
    expected.push(lit('}'));
    assert_eq!(tree(pattern), AstNode::Concat(expected));
}

#[test]
fn brace_with_the_largest_number_is_a_quantifier() {
    let pattern = format!("a{{{}}}", usize::MAX);
    assert_eq!(tree(&pattern), quantified(lit('a'), QuantifierKind::Exact(usize::MAX), true));
}

#[test]
fn dot_and_anchors() {
    assert_eq!(
        tree("^.$"),
        AstNode::Concat(vec![
            AstNode::Anchor(AnchorKind::Start),
            AstNode::Dot,
            AstNode::Anchor(AnchorKind::End),
        ])
    );
}

#[test]
fn escapes_outside_a_class() {
    assert_eq!(tree("\\d"), AstNode::ShorthandClass(ShorthandKind::Digit));
    assert_eq!(tree("\\D"), AstNode::ShorthandClass(ShorthandKind::NonDigit));
    assert_eq!(tree("\\w"), AstNode::ShorthandClass(ShorthandKind::Word));
    assert_eq!(tree("\\W"), AstNode::ShorthandClass(ShorthandKind::NonWord));
    assert_eq!(tree("\\s"), AstNode::ShorthandClass(ShorthandKind::Space));
    assert_eq!(tree("\\S"), AstNode::ShorthandClass(ShorthandKind::NonSpace));
    assert_eq!(tree("\\b"), AstNode::Anchor(AnchorKind::WordBoundary));
    assert_eq!(tree("\\B"), AstNode::Anchor(AnchorKind::NonWordBoundary));
    assert_eq!(tree("\\n"), lit('\n'));
    assert_eq!(tree("\\r"), lit('\r'));
    assert_eq!(tree("\\t"), lit('\t'));
    assert_eq!(tree("\\."), lit('.'));
    assert_eq!(tree("\\\\"), lit('\\'));
    assert_eq!(tree("\\("), lit('('));
    assert_eq!(tree("\\x"), lit('x'));
}

#[test]
fn backreferences_one_to_nine() {
    for (digit, index) in "123456789".chars().zip(1usize..) {
        assert_eq!(tree(&format!("\\{}", digit)), AstNode::Backreference(index));
    }
    assert_eq!(tree("\\0"), lit('0'));
    assert_eq!(tree("\\12"), AstNode::Concat(vec![AstNode::Backreference(1), lit('2')]));
}

#[test]
fn character_classes() {
    assert_eq!(
        tree("[abc]"),
        AstNode::CharClass {
            ranges: vec![ClassItem::Literal('a'), ClassItem::Literal('b'), ClassItem::Literal('c')],
            negated: false,
        }
    );
    assert_eq!(
        tree("[^a-z0-9_]"),
        AstNode::CharClass {
            ranges: vec![
                ClassItem::Range('a', 'z'),
                ClassItem::Range('0', '9'),
                ClassItem::Literal('_'),
            ],
            negated: true,
        }
    );
}

#[test]
fn class_with_leading_bracket_and_dashes() {
    assert_eq!(
        tree("[]a]"),
        AstNode::CharClass {
            ranges: vec![ClassItem::Literal(']'), ClassItem::Literal('a')],
            negated: false,
        }
    );
    assert_eq!(
        tree("[^]]"),
        AstNode::CharClass { ranges: vec![ClassItem::Literal(']')], negated: true }
    );
    assert_eq!(
        tree("[a-]"),
        AstNode::CharClass {
            ranges: vec![ClassItem::Literal('a'), ClassItem::Literal('-')],
            negated: false,
        }
    );
    assert_eq!(
        tree("[-a]"),
        AstNode::CharClass {
            ranges: vec![ClassItem::Literal('-'), ClassItem::Literal('a')],
            negated: false,
        }
    );
    assert_eq!(
        tree("[a^]"),
        AstNode::CharClass {
            ranges: vec![ClassItem::Literal('a'), ClassItem::Literal('^')],
            negated: false,
        }
    );
}

#[test]
fn class_escapes_and_ranges() {
    assert_eq!(
        tree("[\\d\\D\\w\\W\\s\\S\\n\\r\\t\\]\\-]"),
        AstNode::CharClass {
            ranges: vec![
                ClassItem::Shorthand(ShorthandKind::Digit),
                ClassItem::Shorthand(ShorthandKind::NonDigit),
                ClassItem::Shorthand(ShorthandKind::Word),
                ClassItem::Shorthand(ShorthandKind::NonWord),
                ClassItem::Shorthand(ShorthandKind::Space),
                ClassItem::Shorthand(ShorthandKind::NonSpace),
                ClassItem::Literal('\n'),
                ClassItem::Literal('\r'),
                ClassItem::Literal('\t'),
                ClassItem::Literal(']'),
                ClassItem::Literal('-'),
            ],
            negated: false,
        }
    );
    assert_eq!(
        tree("[a-\\]]"),
        AstNode::CharClass { ranges: vec![ClassItem::Range('a', ']')], negated: false }
    );
    assert_eq!(
        tree("[a-\\d]"),
        AstNode::CharClass { ranges: vec![ClassItem::Range('a', 'd')], negated: false }
    );
    assert_eq!(
        tree("[z-a]"),
        AstNode::CharClass { ranges: vec![ClassItem::Range('z', 'a')], negated: false }
    );
}

#[test]
fn groups_are_numbered_by_their_opening() {
    assert_eq!(
        tree("((a)(b))"),
        AstNode::Group {
            index: 1,
            node: Box::new(AstNode::Concat(vec![
                AstNode::Group { index: 2, node: Box::new(lit('a')) },
                AstNode::Group { index: 3, node: Box::new(lit('b')) },
            ])),
        }
    );
    assert_eq!(groups("((a)(b))"), 3);
}

#[test]
fn group_prefixes() {
    assert_eq!(tree("(?:a)"), AstNode::NonCapturingGroup { node: Box::new(lit('a')) });
    assert_eq!(tree("(?=a)"), AstNode::Lookahead { node: Box::new(lit('a')), positive: true });
    assert_eq!(tree("(?!a)"), AstNode::Lookahead { node: Box::new(lit('a')), positive: false });
    assert_eq!(tree("(?<=a)"), AstNode::Lookbehind { node: Box::new(lit('a')), positive: true });
    assert_eq!(tree("(?<!a)"), AstNode::Lookbehind { node: Box::new(lit('a')), positive: false });
    assert_eq!(groups("(?:a)(?=b)(?!c)(?<=d)(?<!e)"), 0);
}

#[test]
fn empty_group() {
    assert_eq!(tree("()"), AstNode::Group { index: 1, node: Box::new(AstNode::Concat(vec![])) });
}

#[test]
fn non_capturing_alternation_wraps_the_alternation() {
    assert_eq!(
        tree("(?:a|b)"),
        AstNode::NonCapturingGroup {
            node: Box::new(AstNode::Alternation(vec![lit('a'), lit('b')])),
        }
    );
    assert_eq!(tree("a|b"), AstNode::Alternation(vec![lit('a'), lit('b')]));
}

#[test]
fn group_count_counts_unescaped_openers() {
    assert_eq!(groups("a(b)(?:c)(d(e))(?=f)"), 3);
    assert_eq!(groups("abc"), 0);
    assert_eq!(groups("(((())))"), 4);
}

#[test]
fn escaped_or_bracketed_paren_opens_no_group() {
    assert_eq!(groups("\\("), 0);
    assert_eq!(groups("[(]"), 0);
    assert_eq!(groups("\\((a)"), 1);
}

#[test]
fn group_count_counts_the_unescaped_openers() {
    assert_eq!(groups("\\d(a)[b](?:c)(d)"), 2);
    assert_eq!(groups("\\\\(a)"), 1);
    assert_eq!(groups("[a](\\(?)"), 1);
}

#[test]
fn group_count_is_kept_after_an_error() {
    let mut parser = Parser::new("(a)(b");
    assert!(parser.parse().is_err());
    assert_eq!(parser.group_count(), 2);
}

#[test]
fn invalid_opening_opens_no_group() {
    let mut parser = Parser::new("(?<a)");
    assert!(parser.parse().is_err());
    assert_eq!(parser.group_count(), 0);
    let mut parser = Parser::new("(a)(?x)");
    assert!(parser.parse().is_err());
    assert_eq!(parser.group_count(), 1);
}

#[test]
fn error_unterminated_group() {
    assert_eq!(error("(abc"), "Expected ')', got end of pattern at position 4");
    assert_eq!(error("(?:a"), "Expected ')', got end of pattern at position 4");
    assert_eq!(error("("), "Expected ')', got end of pattern at position 1");
}

#[test]
fn error_dangling_escape() {
    assert_eq!(error("a\\"), "Unexpected end of pattern after '\\' at position 2");
}

#[test]
fn error_invalid_group_prefix() {
    assert_eq!(error("(?a)"), "Invalid group syntax after '(?' at position 2");
    assert_eq!(error("(?"), "Invalid group syntax after '(?' at position 2");
    assert_eq!(error("(?i:a)"), "Invalid group syntax after '(?' at position 2");
}

#[test]
fn error_invalid_lookbehind_prefix() {
    assert_eq!(error("(?<a)"), "Invalid lookbehind syntax at position 3");
    assert_eq!(error("(?<"), "Invalid lookbehind syntax at position 3");
}

#[test]
fn error_unterminated_class() {
    assert_eq!(error("[abc"), "Unterminated character class at position 4");
    assert_eq!(error("["), "Unterminated character class at position 1");
    assert_eq!(error("[]"), "Unterminated character class at position 2");
    assert_eq!(error("[^"), "Unterminated character class at position 2");
}

#[test]
fn error_escape_at_end_of_class() {
    assert_eq!(error("[a\\"), "Unexpected end in character class escape at position 3");
}

#[test]
fn error_range_at_end_of_class() {
    assert_eq!(error("[a-\\"), "Unexpected end in range at position 4");
}

#[test]
fn error_trailing_character() {
    assert_eq!(error(")"), "Unexpected character ')' at position 0");
    assert_eq!(error("ab)c"), "Unexpected character ')' at position 2");
    assert_eq!(error("(a))"), "Unexpected character ')' at position 3");
    assert_eq!(error("0123456789)"), "Unexpected character ')' at position 10");
}

#[test]
fn positions_count_code_points() {
    assert_eq!(error("é€𝄞)"), "Unexpected character ')' at position 3");
}

#[test]
fn parsing_again_from_the_end_reads_nothing() {
    let mut parser = Parser::new("ab");
    assert_eq!(parser.parse(), Ok(AstNode::Concat(vec![lit('a'), lit('b')])));
    assert_eq!(parser.parse(), Ok(AstNode::Concat(vec![])));
}

#[test]
fn parsing_is_deterministic() {
    let pattern = "a(b|c)*?[^x-z]{2,3}(?<=d)\\1";
    assert_eq!(tree(pattern), tree(pattern));
}

#[test]
fn clone_is_a_deep_copy() {
    let node = tree("a(b|[c-d])*(?=e)");
    assert_eq!(node.clone(), node);
}
