use regex_engine::ast::{AnchorKind, AstNode, ClassItem, QuantifierKind, RegexFlags, ShorthandKind};
use regex_engine::compiler::{compile, Inst, Program};
use regex_engine::parser::Parser;

fn program(pattern: &str) -> Program {
    let mut parser = Parser::new(pattern);
    let ast = parser.parse().expect("pattern parses");
    compile(&ast, parser.group_count())
}

fn insts(pattern: &str) -> Vec<Inst> {
    program(pattern).insts
}

#[test]
fn literal_compiles_to_char_and_match() {
    assert_eq!(insts("a"), vec![Inst::Char('a'), Inst::Match]);
}

#[test]
fn empty_pattern_compiles_to_match() {
    let program = program("");
    assert_eq!(program.insts, vec![Inst::Match]);
    assert_eq!(program.first_char, None);
    assert!(!program.anchored_start);
}

#[test]
fn single_instruction_nodes() {
    assert_eq!(
        insts(".\\d[^a-c]^$\\b\\B\\3"),
        vec![
            Inst::AnyChar,
            Inst::ShorthandClass(ShorthandKind::Digit),
            Inst::CharClass { ranges: vec![ClassItem::Range('a', 'c')], negated: true },
            Inst::AssertStart,
            Inst::AssertEnd,
            Inst::AssertWordBoundary,
            Inst::AssertNonWordBoundary,
            Inst::Backref(3),
            Inst::Match,
        ]
    );
}

#[test]
fn star_greedy_and_lazy() {
    assert_eq!(
        insts("a*"),
        vec![Inst::Split(1, 3), Inst::Char('a'), Inst::Jump(0), Inst::Match]
    );
    assert_eq!(
        insts("a*?"),
        vec![Inst::Split(3, 1), Inst::Char('a'), Inst::Jump(0), Inst::Match]
    );
}

#[test]
fn plus_greedy_and_lazy() {
    assert_eq!(insts("a+"), vec![Inst::Char('a'), Inst::Split(0, 2), Inst::Match]);
    assert_eq!(insts("a+?"), vec![Inst::Char('a'), Inst::Split(2, 0), Inst::Match]);
}

#[test]
fn question_greedy_and_lazy() {
    assert_eq!(insts("a?"), vec![Inst::Split(1, 2), Inst::Char('a'), Inst::Match]);
    assert_eq!(insts("a??"), vec![Inst::Split(2, 1), Inst::Char('a'), Inst::Match]);
}

#[test]
fn exact_repeats_the_code() {
    assert_eq!(
        insts("a{3}"),
        vec![Inst::Char('a'), Inst::Char('a'), Inst::Char('a'), Inst::Match]
    );
    assert_eq!(insts("a{0}"), vec![Inst::Match]);
}

#[test]
fn at_least_repeats_then_loops() {
    assert_eq!(
        insts("a{2,}"),
        vec![
            Inst::Char('a'),
            Inst::Char('a'),
            Inst::Split(3, 5),
            Inst::Char('a'),
            Inst::Jump(2),
            Inst::Match,
        ]
    );
}

#[test]
fn range_repeats_then_allows_more() {
    assert_eq!(
        insts("a{1,3}"),
        vec![
            Inst::Char('a'),
            Inst::Split(2, 3),
            Inst::Char('a'),
            Inst::Split(4, 5),
            Inst::Char('a'),
            Inst::Match,
        ]
    );
    assert_eq!(
        insts("a{1,2}?"),
        vec![Inst::Char('a'), Inst::Split(3, 2), Inst::Char('a'), Inst::Match]
    );
}

#[test]
fn range_with_equal_bounds_is_exact() {
    assert_eq!(insts("a{2,2}"), insts("a{2}"));
    assert_eq!(insts("(a|b){3,3}?"), insts("(a|b){3}"));
}

#[test]
fn range_with_smaller_upper_bound_repeats_the_lower_bound() {
    assert_eq!(insts("a{3,1}"), insts("a{3}"));
}

#[test]
fn alternation_chains_splits_and_jumps_to_the_end() {
    assert_eq!(
        insts("a|b|c"),
        vec![
            Inst::Split(1, 3),
            Inst::Char('a'),
            Inst::Jump(7),
            Inst::Split(4, 6),
            Inst::Char('b'),
            Inst::Jump(7),
            Inst::Char('c'),
            Inst::Match,
        ]
    );
}

#[test]
fn alternation_inside_a_concatenation() {
    assert_eq!(
        insts("x(?:a|bc)y"),
        vec![
            Inst::Char('x'),
            Inst::Split(2, 4),
            Inst::Char('a'),
            Inst::Jump(6),
            Inst::Char('b'),
            Inst::Char('c'),
            Inst::Char('y'),
            Inst::Match,
        ]
    );
}

#[test]
fn group_saves_around_its_body() {
    assert_eq!(
        insts("(a)(b)"),
        vec![
            Inst::Save(2),
            Inst::Char('a'),
            Inst::Save(3),
            Inst::Save(4),
            Inst::Char('b'),
            Inst::Save(5),
            Inst::Match,
        ]
    );
}

#[test]
fn non_capturing_group_compiles_as_its_body() {
    assert_eq!(insts("(?:a|b)"), insts("a|b"));
    assert_eq!(insts("(?:a)*"), insts("a*"));
}

#[test]
fn lookarounds_embed_a_sub_program() {
    assert_eq!(
        insts("a(?=b)"),
        vec![
            Inst::Char('a'),
            Inst::LookaheadPositive(2, 4),
            Inst::Char('b'),
            Inst::Match,
            Inst::Match,
        ]
    );
    assert_eq!(
        insts("(?!b)"),
        vec![Inst::LookaheadNegative(1, 3), Inst::Char('b'), Inst::Match, Inst::Match]
    );
    assert_eq!(
        insts("(?<=b)"),
        vec![Inst::LookbehindPositive(1, 3), Inst::Char('b'), Inst::Match, Inst::Match]
    );
    assert_eq!(
        insts("(?<!bc)"),
        vec![
            Inst::LookbehindNegative(1, 4),
            Inst::Char('b'),
            Inst::Char('c'),
            Inst::Match,
            Inst::Match,
        ]
    );
}

#[test]
fn first_char_is_extracted() {
    assert_eq!(program("abc").first_char, Some('a'));
    assert_eq!(program("^abc").first_char, Some('a'));
    assert_eq!(program("a*").first_char, None);
    assert_eq!(program("(a)").first_char, None);
    assert_eq!(program("^").first_char, None);
    assert_eq!(program("^\\d").first_char, None);
    assert_eq!(program(".a").first_char, None);
}

#[test]
fn anchor_at_start_is_extracted() {
    assert!(program("^a").anchored_start);
    assert!(program("^").anchored_start);
    assert!(!program("a^").anchored_start);
    assert!(!program("(^a)").anchored_start);
    assert!(!program("^a|b").anchored_start);
}

#[test]
fn group_number_is_recorded() {
    assert_eq!(program("(a)(b)(?:c)").n_groups, 2);
}

#[test]
fn compiling_twice_gives_the_same_program() {
    let pattern = "^(a|b+)*?c{2,4}(?<=d)[e-g]\\1$";
    assert_eq!(program(pattern), program(pattern));
}

#[test]
fn compiling_a_hand_made_tree() {
    let tree = AstNode::Concat(vec![
        AstNode::Anchor(AnchorKind::Start),
        AstNode::Group {
            index: 1,
            node: Box::new(AstNode::Quantifier {
                node: Box::new(AstNode::Literal('a')),
                kind: QuantifierKind::Plus,
                greedy: true,
            }),
        },
    ]);
    let program = compile(&tree, 1);
    assert_eq!(
        program.insts,
        vec![
            Inst::AssertStart,
            Inst::Save(2),
            Inst::Char('a'),
            Inst::Split(2, 4),
            Inst::Save(3),
            Inst::Match,
        ]
    );
    assert!(program.anchored_start);
    assert_eq!(program.first_char, None);
    assert_eq!(program.n_groups, 1);
}

#[test]
fn alternation_of_one_or_no_branch() {
    assert_eq!(
        compile(&AstNode::Alternation(vec![]), 0).insts,
        vec![Inst::Match]
    );
    assert_eq!(
        compile(&AstNode::Alternation(vec![AstNode::Literal('a')]), 0).insts,
        vec![Inst::Char('a'), Inst::Match]
    );
}

#[test]
fn flags_default_to_off() {
    let flags = RegexFlags::default();
    assert!(!flags.case_insensitive);
    assert!(!flags.dotall);
    assert!(!flags.multiline);
}

fn swapped(inst: &Inst) -> Inst {
    match inst {
        Inst::Split(first, second) => Inst::Split(*second, *first),
        other => other.clone(),
    }
}

#[test]
fn lazy_quantifier_swaps_the_targets_of_its_split() {
    assert_eq!(insts("a*?")[0], swapped(&insts("a*")[0]));
    assert_eq!(insts("a*?")[1..], insts("a*")[1..]);
    assert_eq!(insts("a??")[0], swapped(&insts("a?")[0]));
    assert_eq!(insts("a??")[1..], insts("a?")[1..]);
    assert_eq!(insts("a+?")[1], swapped(&insts("a+")[1]));
    assert_eq!(insts("a+?")[0], insts("a+")[0]);
    for (lazy, greedy) in [("a{2,}?", "a{2,}"), ("a{1,3}?", "a{1,3}"), ("(?:ab){0,2}?", "(?:ab){0,2}")] {
        let lazy = insts(lazy);
        let greedy = insts(greedy);
        assert_eq!(lazy.len(), greedy.len());
        for (l, g) in lazy.iter().zip(greedy.iter()) {
            match g {
                Inst::Split(..) => assert_eq!(*l, swapped(g)),
                _ => assert_eq!(l, g),
            }
        }
    }
    assert_eq!(insts("a{3}?"), insts("a{3}"));
}
