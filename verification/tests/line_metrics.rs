use slice_eval::lines::{line_set, LineTable};
use slice_eval::metrics::line_iqr;
use slice_eval::span::SourceSpan;
use slice_eval::tokens::{TokenTree, Tokens};

/// A file of `n` lines, one hundred bytes each.
fn table(n: usize) -> LineTable {
    let starts: Vec<usize> = (0..n).map(|i| i * 100).collect();
    LineTable::new(starts).unwrap()
}

#[test]
fn line_table_rejects_bad_start_lists() {
    assert!(LineTable::new(vec![]).is_none());
    assert!(LineTable::new(vec![5, 10]).is_none());
    assert!(LineTable::new(vec![0, 10, 10]).is_none());
    assert!(LineTable::new(vec![0, 20, 10]).is_none());
    assert!(LineTable::new(vec![0, 10, 20]).is_some());
}

#[test]
fn line_of_finds_the_greatest_start_at_or_before_the_offset() {
    let t = table(10);
    assert_eq!(t.line_of(0), 0);
    assert_eq!(t.line_of(99), 0);
    assert_eq!(t.line_of(100), 1);
    assert_eq!(t.line_of(950), 9);
    assert_eq!(t.line_of(5000), 9);
}

#[test]
fn line_sets_are_strictly_ascending_with_no_duplicates() {
    let t = table(10);
    // Two tokens on line 4, one spanning lines 6..8, one on line 2.
    let trees = vec![
        TokenTree::Leaf(SourceSpan { lo: 200, hi: 210 }),
        TokenTree::Leaf(SourceSpan { lo: 400, hi: 405 }),
        TokenTree::Leaf(SourceSpan { lo: 420, hi: 430 }),
        TokenTree::Leaf(SourceSpan { lo: 600, hi: 850 }),
    ];
    let tokens = Tokens::build(&trees, SourceSpan { lo: 0, hi: 999 });
    let lines = line_set(tokens.all(), &t);
    assert_eq!(lines, vec![2, 4, 6, 7, 8]);
    for w in lines.windows(2) {
        assert!(w[0] < w[1]);
    }
}

#[test]
fn a_multi_line_token_contributes_its_inclusive_line_range() {
    let t = table(10);
    let trees = vec![TokenTree::Leaf(SourceSpan { lo: 150, hi: 350 })];
    let tokens = Tokens::build(&trees, SourceSpan { lo: 0, hi: 999 });
    assert_eq!(line_set(tokens.all(), &t), vec![1, 2, 3]);
}

#[test]
fn line_iqr_is_zero_for_an_empty_relevant_set() {
    let body: Vec<usize> = (10..20).collect();
    assert_eq!(line_iqr(&Vec::new(), &body), 0);
}

#[test]
fn line_iqr_never_exceeds_the_total_line_count() {
    let body: Vec<usize> = (10..20).collect();
    let relevant: Vec<usize> = (10..20).collect();
    let iqr = line_iqr(&relevant, &body);
    assert!(iqr <= body.len());
}

#[test]
fn line_iqr_single_relevant_line_uses_index_zero_twice() {
    // With one relevant line both floor quartile indices are 0, so the
    // bound is [line, line] and only that line of the body is counted.
    let body: Vec<usize> = (10..20).collect();
    let relevant = vec![13];
    assert_eq!(line_iqr(&relevant, &body), 1);
}

#[test]
fn line_iqr_counts_body_lines_inside_the_quartile_bound() {
    // n = 4: indices 1 and 3, bound [12, 19]; the body holds 10..=19,
    // eight of which lie in the bound.
    let body: Vec<usize> = (10..20).collect();
    let relevant = vec![11, 12, 15, 19];
    assert_eq!(line_iqr(&relevant, &body), 8);
}

#[test]
fn line_iqr_counts_function_lines_not_bound_width() {
    // The bound is [2, 8] but the body only has lines 2, 5 and 8 in it.
    let body = vec![0, 2, 5, 8, 20];
    let relevant = vec![2, 5, 8];
    // n = 3: lo index 0 -> 2, hi index 2 -> 8.
    assert_eq!(line_iqr(&relevant, &body), 3);
}
