use kxparser::chart::Chart;
use kxparser::chart_parsing::{earley, extract_tree, parse, success, ParseTreeIterator, Tree};
use kxparser::container::leftcorners_dict;
use kxparser::edge::Edge;
use kxparser::grammar::{validate_grammar, Grammar, GrammarError, Rule};
use kxparser::naive::earley1;

#[test]
fn new_creates_chart() {
    let chart = Chart::new();

    assert_eq!(chart.chart.len(), 0);
}

#[test]
fn empty_chart_has_size_zero() {
    let chart = Chart::new();

    assert_eq!(chart.chartsize(), 0);
}

#[test]
fn new_with_rhs_creates_edge() {
    let lhs = "S";
    let rhs = vec!["NP".to_string(), "VP".to_string()];
    let edge = Edge::new(0, 2, lhs, Some(&rhs), 1);

    assert_eq!(edge.start, 0);
    assert_eq!(edge.end, 2);
    assert_eq!(edge.lhs, lhs);
    assert_eq!(edge.rhs, rhs);
    assert_eq!(edge.dot, 1);
}

#[test]
fn new_without_rhs_creates_edge() {
    let edge = Edge::new(0, 2, "S", None, 1);

    assert_eq!(edge.start, 0);
    assert_eq!(edge.end, 2);
    assert_eq!(edge.lhs, "S");
    assert_eq!(edge.rhs, Vec::<String>::new());
    assert_eq!(edge.dot, 1);
}

#[test]
fn format_edge_with_rhs_and_dot_less_than_rhs_len() {
    let rhs = vec!["NP".to_string(), "VP".to_string()];
    let edge = Edge::new(0, 2, "S", Some(&rhs), 1);

    assert_eq!(edge.to_display_string(), "[0-2: S --> NP . VP]");
}

#[test]
fn format_edge_with_rhs_and_dot_equal_to_rhs_len() {
    let rhs = vec!["NP".to_string(), "VP".to_string()];
    let edge = Edge::new(0, 2, "S", Some(&rhs), 2);

    assert_eq!(edge.to_display_string(), "[0-2: S --> NP VP . ]");
}

#[test]
fn format_edge_without_rhs() {
    let edge = Edge::new(0, 2, "S", None, 0);

    assert_eq!(edge.to_display_string(), "[0-2: S -->  . ]");
}

#[test]
fn format_edge_renders_multi_digit_positions() {
    let rhs = vec!["Noun".to_string()];
    let edge = Edge::new(10, 123, "NP", Some(&rhs), 1);

    assert_eq!(edge.to_display_string(), "[10-123: NP --> Noun . ]");
}

#[test]
fn edge_with_dot_less_than_rhs_len_is_not_passive() {
    let rhs = vec!["NP".to_string(), "VP".to_string()];
    let edge = Edge::new(0, 2, "S", Some(&rhs), 1);

    assert!(!edge.is_passive());
}

#[test]
fn edge_with_dot_equal_to_rhs_len_is_passive() {
    let rhs = vec!["NP".to_string(), "VP".to_string()];
    let edge = Edge::new(0, 2, "S", Some(&rhs), 2);

    assert!(edge.is_passive());
}

#[test]
fn edge_without_rhs_is_passive() {
    let edge = Edge::new(0, 2, "S", None, 0);

    assert!(edge.is_passive());
}

#[test]
fn test_cmp() {
    let e1 = Edge::new(0, 2, "D", None, 0);
    let e2 = Edge::new(1, 2, "D", None, 0);
    let e3 = Edge::new(1, 3, "D", None, 0);
    let e4 = Edge::new(0, 1, "D", None, 0);
    let e5 = Edge::new(0, 3, "D", None, 0);

    assert!(e1 < e2);
    assert!(e1 == e1);
    assert!(e1 < e3);
    assert!(e4 < e1);
    assert!(e1 < e5);
}

#[test]
fn new_creates_rule() {
    let rule = Rule::new("test", Vec::new());

    assert_eq!(rule.lhs, "test");
    assert_eq!(rule.rhs, Vec::<String>::new());
    assert_eq!(rule.to_display_string(), "test --> ");
}

#[test]
fn new_creates_empty_grammar() {
    let grammar = Grammar::new();

    assert_eq!(grammar.rules.len(), 0);
    assert_eq!(grammar.to_display_string(), "grammar rules:");
}

#[test]
fn from_rules_creates_grammar() {
    let rules = vec![Rule::new("S", Vec::new())];
    let grammar = Grammar::from_rules(rules);

    assert_eq!(grammar.rules.len(), 1);
    assert_eq!(grammar.to_display_string(), "grammar rules:\n  S --> ");
}

fn rule(lhs: &str, rhs: &[&str]) -> Rule {
    Rule::new(lhs, rhs.iter().map(|s| s.to_string()).collect())
}

fn toy_grammar() -> Vec<Rule> {
    vec![
        rule("S", &["NP", "VP"]),
        rule("VP", &["Verb"]),
        rule("VP", &["Verb", "NP"]),
        rule("VP", &["VP", "PP"]),
        rule("NP", &["Det", "Noun"]),
        rule("NP", &["NP", "PP"]),
        rule("PP", &["Prep", "NP"]),
        rule("Verb", &["sees"]),
        rule("Det", &["the"]),
        rule("Det", &["a"]),
        rule("Prep", &["under"]),
        rule("Prep", &["with"]),
        rule("Prep", &["in"]),
        rule("Noun", &["zebra"]),
        rule("Noun", &["lion"]),
        rule("Noun", &["tree"]),
        rule("Noun", &["park"]),
        rule("Noun", &["telescope"]),
    ]
}

fn words(s: &str) -> Vec<String> {
    s.split_whitespace().map(|w| w.to_string()).collect()
}

#[test]
fn validate_accepts_the_toy_grammar_and_rejects_an_empty_rhs() {
    assert_eq!(validate_grammar(&toy_grammar()), Ok(()));

    let mut bad = toy_grammar();
    bad.push(Rule::new("X", Vec::new()));
    assert_eq!(validate_grammar(&bad), Err(GrammarError::InvalidGrammar));
}

#[test]
fn leftcorner_lookup_returns_rules_in_declaration_order() {
    let grammar = toy_grammar();
    let dict = leftcorners_dict(&grammar);

    let np_rules = dict.lookup(&"NP".to_string()).expect("rules starting with NP");
    assert_eq!(np_rules.len(), 2);
    assert_eq!(np_rules[0].lhs, "S");
    assert_eq!(np_rules[1].lhs, "NP");

    assert!(dict.lookup(&"zebra".to_string()).is_some());
    assert!(dict.lookup(&"S".to_string()).is_none());
}

#[test]
fn toy_sentence_parses_with_a_passive_start_edge_over_the_whole_span() {
    let grammar = toy_grammar();
    let input = words("the lion sees a zebra");
    let chart = earley(&grammar, &input);

    assert_eq!(chart.chart.len(), 6);
    assert!(success(&chart, "S", 0));
    let last = chart.chart.last().unwrap();
    assert!(last.iter().any(|e| e.start == 0 && e.lhs == "S" && e.is_passive()));
    assert!(chart.chartsize() > 0);
}

#[test]
fn unknown_words_make_the_parse_fail_without_an_error() {
    let grammar = toy_grammar();
    let input = words("colourless green ideas");
    let chart = earley(&grammar, &input);

    assert_eq!(chart.chart.len(), 4);
    assert!(!success(&chart, "S", 0));
    assert_eq!(extract_tree(&chart, "S").len(), 0);
}

#[test]
fn success_is_sensitive_to_the_start_position() {
    let grammar = toy_grammar();
    let input = words("the lion sees a zebra");
    let chart = earley(&grammar, &input);

    assert!(success(&chart, "S", 0));
    assert!(!success(&chart, "S", 1));
    assert!(!success(&chart, "NP", 0));
    assert!(success(&chart, "VP", 2));
}

fn edge_in(e: &Edge, bucket: &[Edge]) -> usize {
    bucket.iter().filter(|o| *o == e).count()
}

fn same_edge_multiset(a: &[Edge], b: &[Edge]) -> bool {
    a.len() == b.len() && a.iter().all(|e| edge_in(e, a) == edge_in(e, b))
}

#[test]
fn indexed_and_naive_builders_agree_bucket_by_bucket() {
    let grammar = toy_grammar();
    for sentence in [
        "the lion sees a zebra",
        "the lion sees a zebra under a tree with a telescope",
        "the the the",
        "sees",
    ] {
        let input = words(sentence);
        let c1 = earley(&grammar, &input);
        let c2 = earley1(&grammar, &input);
        assert_eq!(c1.chart.len(), c2.chart.len());
        for k in 0..c1.chart.len() {
            assert!(same_edge_multiset(&c1.chart[k], &c2.chart[k]));
        }
        assert_eq!(success(&c1, "S", 0), success(&c2, "S", 0));
    }
}

#[test]
fn two_builds_over_the_same_input_yield_identical_buckets() {
    let grammar = toy_grammar();
    let input = words("the lion sees a zebra under a tree");
    let c1 = earley(&grammar, &input);
    let c2 = earley(&grammar, &input);

    assert_eq!(c1.chart.len(), c2.chart.len());
    for k in 0..c1.chart.len() {
        assert!(same_edge_multiset(&c1.chart[k], &c2.chart[k]));
    }
}

fn leaves(tree: &Tree) -> Vec<String> {
    if tree.children.is_empty() {
        vec![tree.root.clone()]
    } else {
        let mut out = Vec::new();
        for child in &tree.children {
            out.extend(leaves(child));
        }
        out
    }
}

#[test]
fn unambiguous_sentence_yields_exactly_one_tree() {
    let grammar = toy_grammar();
    let input = words("the lion sees a zebra");
    let trees = parse(&grammar, "S", &input);

    assert_eq!(trees.len(), 1);
    assert_eq!(trees[0].root, "S");
    assert_eq!(leaves(&trees[0]), input);
}

#[test]
fn attachment_ambiguity_yields_several_distinct_trees() {
    let grammar = toy_grammar();
    let input = words("the lion sees a zebra under a tree with a telescope");
    let chart = earley(&grammar, &input);
    assert!(success(&chart, "S", 0));
    let trees = extract_tree(&chart, "S");

    assert!(trees.len() > 1);
    for i in 0..trees.len() {
        assert_eq!(trees[i].root, "S");
        assert_eq!(leaves(&trees[i]), input);
        for j in 0..trees.len() {
            if i != j {
                assert!(trees[i] != trees[j]);
            }
        }
    }
}

#[test]
fn extraction_twice_from_one_chart_yields_the_same_trees() {
    let grammar = toy_grammar();
    let input = words("the lion sees a zebra under a tree with a telescope");
    let chart = earley(&grammar, &input);

    let first = extract_tree(&chart, "S");
    let second = extract_tree(&chart, "S");
    assert_eq!(first, second);
}

#[test]
fn parse_tree_iterator_hands_out_every_tree_and_restarts() {
    let grammar = toy_grammar();
    let input = words("the lion sees a zebra");
    let chart = earley(&grammar, &input);

    let mut it = ParseTreeIterator::new(&chart, "S");
    let mut pulled = Vec::new();
    while let Some(tree) = it.next() {
        pulled.push(tree);
    }
    assert_eq!(pulled, extract_tree(&chart, "S"));

    let mut again = ParseTreeIterator::new(&chart, "S");
    assert!(again.next().is_some());
}

#[test]
fn tree_new_and_leaf_build_the_display_structure() {
    let leaf = Tree::leaf("lion");
    assert_eq!(leaf.root, "lion");
    assert!(leaf.children.is_empty());

    let parent = Tree::new("Noun", vec![leaf]);
    assert_eq!(parent.root, "Noun");
    assert_eq!(parent.children.len(), 1);
    assert_eq!(parent.children[0].root, "lion");
}
