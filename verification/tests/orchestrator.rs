use slice_eval::config::{build_config, matches_selector, parse_selector, ConfigError, RunSelector};
use slice_eval::lines::LineTable;
use slice_eval::metrics::{EvalDirection, FunctionRecord, SliceSample};
use slice_eval::span::SourceSpan;
use slice_eval::tokens::{TokenTree, Tokens};
use slice_eval::visitor::{BodyKind, BodyVerdict, EvalCrateVisitor, ItemCounter};

/// A file of `n` lines, one hundred bytes each.
fn table(n: usize) -> LineTable {
    let starts: Vec<usize> = (0..n).map(|i| i * 100).collect();
    LineTable::new(starts).unwrap()
}

/// A body on lines `first..=last`, one token per line.
fn one_token_per_line(first: usize, last: usize) -> (Tokens, SourceSpan) {
    let span = SourceSpan { lo: first * 100, hi: last * 100 + 99 };
    let mut trees: Vec<TokenTree> = Vec::new();
    for k in 0..=(last - first) {
        trees.push(TokenTree::Leaf(SourceSpan { lo: 100 * k, hi: 100 * k + 10 }));
    }
    (Tokens::build(&trees, span), span)
}

#[test]
fn scenario_function_on_ten_lines_with_a_three_line_forward_slice() {
    // A function occupying lines 10..=19, tokens evenly one per line; a
    // slice sample whose forward ranges cover lines 12..=14 only.
    let t = table(20);
    let (tokens, span) = one_token_per_line(10, 19);
    let record =
        FunctionRecord::compute(span, String::from("pkg::scenario_a"), 7, &tokens, &t);
    assert_eq!(record.num_tokens, 10);
    assert_eq!(record.num_lines, 10);

    let sample = SliceSample {
        range: SourceSpan { lo: 1200, hi: 1210 },
        forward: vec![SourceSpan { lo: 1200, hi: 1499 }],
        backward: vec![],
    };
    let mut visitor = EvalCrateVisitor::new(1);
    visitor.analyze(&record, &tokens, &t, &vec![sample]);
    assert_eq!(visitor.eval_results.len(), 3);

    let forward = &visitor.eval_results[0];
    assert!(matches!(forward.direction, EvalDirection::Forward));
    assert_eq!(forward.num_tokens, 10);
    assert_eq!(forward.num_lines, 10);
    assert_eq!(forward.num_relevant_tokens, 3);
    assert_eq!(forward.num_relevant_lines, 3);
    // Relevant lines are [12, 13, 14]; quartile bound [12, 14]; three of
    // the function's lines 10..=19 lie within it.
    assert_eq!(forward.line_iqr, 3);
    assert_eq!(forward.function_path, "pkg::scenario_a");
    assert_eq!(forward.num_instructions, 7);

    let backward = &visitor.eval_results[1];
    assert!(matches!(backward.direction, EvalDirection::Backward));
    assert_eq!(backward.num_relevant_tokens, 0);
    assert_eq!(backward.num_relevant_lines, 0);
    assert_eq!(backward.line_iqr, 0);

    let both = &visitor.eval_results[2];
    assert!(matches!(both.direction, EvalDirection::Both));
    assert_eq!(both.num_relevant_tokens, 3);
    assert_eq!(both.num_relevant_lines, 3);
    assert_eq!(both.line_iqr, 3);
}

#[test]
fn scenario_empty_slice_lists_give_zero_metrics_in_all_directions() {
    let t = table(10);
    let (tokens, span) = one_token_per_line(0, 9);
    let record = FunctionRecord::compute(span, String::from("pkg::scenario_b"), 3, &tokens, &t);
    let sample = SliceSample {
        range: SourceSpan { lo: 0, hi: 10 },
        forward: vec![],
        backward: vec![],
    };
    let mut visitor = EvalCrateVisitor::new(1);
    visitor.analyze(&record, &tokens, &t, &vec![sample]);
    assert_eq!(visitor.eval_results.len(), 3);
    for r in &visitor.eval_results {
        assert_eq!(r.num_relevant_tokens, 0);
        assert_eq!(r.num_relevant_lines, 0);
        assert_eq!(r.line_iqr, 0);
    }
}

#[test]
fn scenario_identical_forward_and_backward_ranges_do_not_double_count() {
    let t = table(10);
    let (tokens, span) = one_token_per_line(0, 9);
    let record = FunctionRecord::compute(span, String::from("pkg::scenario_c"), 3, &tokens, &t);
    let line5 = SourceSpan { lo: 500, hi: 599 };
    let sample = SliceSample { range: line5, forward: vec![line5], backward: vec![line5] };
    let mut visitor = EvalCrateVisitor::new(1);
    visitor.analyze(&record, &tokens, &t, &vec![sample]);
    let forward = &visitor.eval_results[0];
    let both = &visitor.eval_results[2];
    assert_eq!(forward.num_relevant_tokens, 1);
    assert_eq!(both.num_relevant_tokens, forward.num_relevant_tokens);
    assert_eq!(both.num_relevant_lines, forward.num_relevant_lines);
}

#[test]
fn numeric_run_selector_analyzes_only_the_matching_counted_body() {
    let selector = Some(parse_selector(String::from("3")));
    let mut visitor = EvalCrateVisitor::new(5);
    let mut verdicts = Vec::new();
    for i in 0..5 {
        let path = format!("pkg::f{}", i);
        verdicts.push(visitor.triage(false, true, true, &path, &selector));
    }
    assert_eq!(
        verdicts,
        vec![
            BodyVerdict::Filtered,
            BodyVerdict::Filtered,
            BodyVerdict::Analyze,
            BodyVerdict::Filtered,
            BodyVerdict::Filtered,
        ]
    );
    assert_eq!(visitor.count, 5);
}

#[test]
fn path_run_selector_matches_exactly_not_by_substring() {
    let selector = Some(parse_selector(String::from("pkg::foo")));
    let mut visitor = EvalCrateVisitor::new(3);
    let v1 = visitor.triage(false, true, true, &String::from("pkg::foobar"), &selector);
    let v2 = visitor.triage(false, true, true, &String::from("pkg::foo"), &selector);
    let v3 = visitor.triage(false, true, true, &String::from("pkg::fo"), &selector);
    assert_eq!(v1, BodyVerdict::Filtered);
    assert_eq!(v2, BodyVerdict::Analyze);
    assert_eq!(v3, BodyVerdict::Filtered);
}

#[test]
fn triage_skips_precede_and_follow_index_assignment_as_specified() {
    let mut visitor = EvalCrateVisitor::new(4);
    let none: Option<RunSelector> = None;
    // Macro-expanded and missing-source bodies are skipped before the
    // index is assigned.
    assert_eq!(
        visitor.triage(true, true, true, &String::from("pkg::a"), &none),
        BodyVerdict::SkipExpansion
    );
    assert_eq!(visitor.count, 0);
    assert_eq!(
        visitor.triage(false, false, true, &String::from("pkg::b"), &none),
        BodyVerdict::SkipNoSource
    );
    assert_eq!(visitor.count, 0);
    // A range conversion failure comes after, and still consumes an index.
    assert_eq!(
        visitor.triage(false, true, false, &String::from("pkg::c"), &none),
        BodyVerdict::SkipRange
    );
    assert_eq!(visitor.count, 1);
    assert_eq!(
        visitor.triage(false, true, true, &String::from("pkg::d"), &none),
        BodyVerdict::Analyze
    );
    assert_eq!(visitor.count, 2);
}

#[test]
fn trait_and_foreign_items_are_never_visited() {
    let mut visitor = EvalCrateVisitor::new(2);
    let none: Option<RunSelector> = None;
    let path = String::from("pkg::t");
    assert!(visitor.visit(BodyKind::TraitItem, false, true, true, &path, &none).is_none());
    assert!(visitor.visit(BodyKind::ForeignItem, false, true, true, &path, &none).is_none());
    assert_eq!(visitor.count, 0);
    let v = visitor.visit(BodyKind::Method, false, true, true, &path, &none);
    assert_eq!(v, Some(BodyVerdict::Analyze));
    assert_eq!(visitor.count, 1);

    let mut counter = ItemCounter { count: 0 };
    counter.visit(BodyKind::Function, false, true);
    counter.visit(BodyKind::Method, false, true);
    counter.visit(BodyKind::TraitItem, false, true);
    counter.visit(BodyKind::ForeignItem, false, true);
    counter.visit(BodyKind::Function, true, true);
    counter.visit(BodyKind::Function, false, false);
    assert_eq!(counter.count, 2);
}

#[test]
fn selector_parsing_distinguishes_indices_from_paths() {
    assert!(matches!(parse_selector(String::from("3")), RunSelector::Index(3)));
    assert!(matches!(parse_selector(String::from("0")), RunSelector::Index(0)));
    assert!(matches!(parse_selector(String::from("pkg::foo")), RunSelector::Path(_)));
    assert!(matches!(parse_selector(String::from("")), RunSelector::Path(_)));
    assert!(matches!(parse_selector(String::from("12a")), RunSelector::Path(_)));
    // A number too large for an index falls back to a path selector.
    let big = "99999999999999999999999999999999";
    match parse_selector(String::from(big)) {
        RunSelector::Path(p) => assert_eq!(p, big),
        RunSelector::Index(_) => panic!("overflowing digits must not parse as an index"),
    }
}

#[test]
fn selector_matching_is_by_index_or_exact_path() {
    let by_index = RunSelector::Index(2);
    assert!(matches_selector(&by_index, 2, &String::from("anything")));
    assert!(!matches_selector(&by_index, 3, &String::from("anything")));
    let by_path = parse_selector(String::from("pkg::foo"));
    assert!(matches_selector(&by_path, 9, &String::from("pkg::foo")));
    assert!(!matches_selector(&by_path, 9, &String::from("pkg::foo::bar")));
}

#[test]
fn missing_output_path_is_a_configuration_error() {
    let r = build_config(None, Some(String::from("3")));
    assert_eq!(r.err(), Some(ConfigError::MissingOutputPath));
    let ok = build_config(Some(String::from("/tmp/out.json")), Some(String::from("3")))
        .expect("an output path was given");
    assert_eq!(ok.output_path, "/tmp/out.json");
    assert!(matches!(ok.only_run, Some(RunSelector::Index(3))));
    let bare = build_config(Some(String::from("out.json")), None).unwrap();
    assert!(bare.only_run.is_none());
}

#[test]
fn two_samples_produce_six_records_in_order() {
    let t = table(10);
    let (tokens, span) = one_token_per_line(0, 9);
    let record = FunctionRecord::compute(span, String::from("pkg::two"), 1, &tokens, &t);
    let s1 = SliceSample {
        range: SourceSpan { lo: 0, hi: 99 },
        forward: vec![SourceSpan { lo: 0, hi: 99 }],
        backward: vec![],
    };
    let s2 = SliceSample {
        range: SourceSpan { lo: 900, hi: 999 },
        forward: vec![],
        backward: vec![SourceSpan { lo: 900, hi: 999 }],
    };
    let mut visitor = EvalCrateVisitor::new(1);
    visitor.analyze(&record, &tokens, &t, &vec![s1, s2]);
    assert_eq!(visitor.eval_results.len(), 6);
    assert_eq!(visitor.eval_results[0].range.lo, 0);
    assert_eq!(visitor.eval_results[3].range.lo, 900);
    // First sample: only the forward direction sees its one token.
    assert_eq!(visitor.eval_results[0].num_relevant_tokens, 1);
    assert_eq!(visitor.eval_results[1].num_relevant_tokens, 0);
    assert_eq!(visitor.eval_results[2].num_relevant_tokens, 1);
    // Second sample: only the backward direction sees its one token.
    assert_eq!(visitor.eval_results[3].num_relevant_tokens, 0);
    assert_eq!(visitor.eval_results[4].num_relevant_tokens, 1);
    assert_eq!(visitor.eval_results[5].num_relevant_tokens, 1);
}
