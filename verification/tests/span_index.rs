use slice_eval::span::SourceSpan;
use slice_eval::tokens::{TokenTree, Tokens};

fn leaf(lo: usize, hi: usize) -> TokenTree {
    TokenTree::Leaf(SourceSpan { lo, hi })
}

/// Ten leaves, one per hundred bytes, as a body starting at `base`.
fn ten_token_store(base: usize) -> Tokens {
    let mut trees: Vec<TokenTree> = Vec::new();
    for k in 0..10 {
        trees.push(leaf(100 * k, 100 * k + 10));
    }
    Tokens::build(&trees, SourceSpan { lo: base, hi: base + 999 })
}

#[test]
fn rebased_tokens_lie_within_the_body_span() {
    let tokens = ten_token_store(1000);
    assert_eq!(tokens.total_tokens(), 10);
    for t in tokens.all() {
        assert!(t.span.lo >= 1000);
        assert!(t.span.hi <= 1999);
    }
}

#[test]
fn rebasing_adds_the_global_start_offset() {
    let tokens = ten_token_store(1000);
    let all = tokens.all();
    for (k, t) in all.iter().enumerate() {
        assert_eq!(t.index, k);
        assert_eq!(t.span.lo, 1000 + 100 * k);
        assert_eq!(t.span.hi, 1000 + 100 * k + 10);
    }
}

#[test]
fn delimited_groups_flatten_in_lexical_order() {
    let trees = vec![
        leaf(0, 5),
        TokenTree::Delimited(vec![leaf(10, 15), TokenTree::Delimited(vec![leaf(20, 25)])]),
        leaf(30, 35),
    ];
    let tokens = Tokens::build(&trees, SourceSpan { lo: 100, hi: 200 });
    assert_eq!(tokens.total_tokens(), 4);
    let los: Vec<usize> = tokens.all().iter().map(|t| t.span.lo).collect();
    assert_eq!(los, vec![100, 110, 120, 130]);
}

#[test]
fn query_returns_overlapping_tokens_in_index_order() {
    let tokens = ten_token_store(0);
    let qs = vec![SourceSpan { lo: 205, hi: 410 }];
    let hits = tokens.query(&qs);
    let idx: Vec<usize> = hits.iter().map(|t| t.index).collect();
    assert_eq!(idx, vec![2, 3, 4]);
}

#[test]
fn query_boundary_touch_counts_as_overlap() {
    let tokens = ten_token_store(0);
    // Token 3 spans 300..310; a zero-length point at 300 touches it.
    let hits = tokens.query(&vec![SourceSpan { lo: 300, hi: 300 }]);
    let idx: Vec<usize> = hits.iter().map(|t| t.index).collect();
    assert_eq!(idx, vec![3]);
    // A range ending exactly at a token's start still overlaps it.
    let hits = tokens.query(&vec![SourceSpan { lo: 290, hi: 300 }]);
    let idx: Vec<usize> = hits.iter().map(|t| t.index).collect();
    assert_eq!(idx, vec![3]);
}

#[test]
fn query_is_idempotent() {
    let tokens = ten_token_store(0);
    let qs = vec![SourceSpan { lo: 0, hi: 150 }, SourceSpan { lo: 400, hi: 450 }];
    let first = tokens.query(&qs);
    let second = tokens.query(&qs);
    assert_eq!(first, second);
}

#[test]
fn query_is_order_independent_in_its_input_spans() {
    let tokens = ten_token_store(0);
    let qs1 = vec![SourceSpan { lo: 0, hi: 150 }, SourceSpan { lo: 400, hi: 450 }];
    let qs2 = vec![SourceSpan { lo: 400, hi: 450 }, SourceSpan { lo: 0, hi: 150 }];
    assert_eq!(tokens.query(&qs1), tokens.query(&qs2));
}

#[test]
fn query_of_concatenated_ranges_is_the_union_by_token_index() {
    let tokens = ten_token_store(0);
    let qs1 = vec![SourceSpan { lo: 0, hi: 150 }];
    let qs2 = vec![SourceSpan { lo: 100, hi: 250 }];
    let mut concat = qs1.clone();
    concat.extend(qs2.iter().cloned());
    let both = tokens.query(&concat);
    let first = tokens.query(&qs1);
    let second = tokens.query(&qs2);
    let mut union: Vec<usize> = first.iter().chain(second.iter()).map(|t| t.index).collect();
    union.sort();
    union.dedup();
    let both_idx: Vec<usize> = both.iter().map(|t| t.index).collect();
    assert_eq!(both_idx, union);
}

#[test]
fn query_deduplicates_across_overlapping_input_spans() {
    let tokens = ten_token_store(0);
    let qs = vec![SourceSpan { lo: 100, hi: 120 }, SourceSpan { lo: 105, hi: 130 }];
    let hits = tokens.query(&qs);
    let idx: Vec<usize> = hits.iter().map(|t| t.index).collect();
    assert_eq!(idx, vec![1]);
}

#[test]
fn query_with_no_spans_returns_nothing() {
    let tokens = ten_token_store(0);
    let hits = tokens.query(&Vec::new());
    assert!(hits.is_empty());
}
