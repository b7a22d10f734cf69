//! Re-lexed token trees, their flattening and rebasing into global file
//! coordinates, and the overlap-queryable token store.

use vstd::prelude::*;

use crate::seq_util::{lemma_filter_membership, lemma_filter_push};
use crate::span::{SourceSpan, Token};

verus! {

/// One tree of the re-lexed snippet: a leaf token carrying its
/// snippet-local span, or a delimited group of sub-trees. Nesting is
/// discarded by flattening; only linear order and span matter.
pub enum TokenTree {
    Leaf(SourceSpan),
    Delimited(Vec<TokenTree>),
}

/// The leaf spans of one tree, in lexical order.
pub open spec fn flat_tree(t: TokenTree) -> Seq<SourceSpan>
    decreases t,
{
    match t {
        TokenTree::Leaf(s) => seq![s],
        TokenTree::Delimited(ts) => flat_trees(ts@),
    }
}

/// The leaf spans of a forest, in lexical order.
pub open spec fn flat_trees(ts: Seq<TokenTree>) -> Seq<SourceSpan>
    decreases ts,
{
    if ts.len() == 0 {
        Seq::empty()
    } else {
        flat_trees(ts.drop_last()) + flat_tree(ts.last())
    }
}

/// Depth-first flattening of one tree, appending each leaf span to `out`
/// in lexical order.
fn flatten_tree(t: &TokenTree, out: &mut Vec<SourceSpan>)
    ensures
        final(out)@ == old(out)@ + flat_tree(*t),
    decreases *t,
{
    match t {
        TokenTree::Leaf(s) => {
            out.push(*s);
            assert(out@ =~= old(out)@ + flat_tree(*t));
        },
        TokenTree::Delimited(ts) => {
            let ghost base = out@;
            let mut j: usize = 0;
            while j < ts.len()
                invariant
                    j <= ts@.len(),
                    out@ == base + flat_trees(ts@.subrange(0, j as int)),
                    (decreases_to!(*t => ts@)),
                decreases ts@.len() - j,
            {
                proof {
                    assert(decreases_to!(ts@ => ts@[j as int]));
                }
                flatten_tree(&ts[j], out);
                proof {
                    let sub1 = ts@.subrange(0, j + 1 as int);
                    assert(sub1.drop_last() =~= ts@.subrange(0, j as int));
                    assert(sub1.last() == ts@[j as int]);
                }
                j = j + 1;
            }
            proof {
                assert(ts@.subrange(0, ts@.len() as int) =~= ts@);
                assert(out@ =~= old(out)@ + flat_tree(*t));
            }
        },
    }
}

/// Whether `s` overlaps at least one span of `qs`.
pub open spec fn overlaps_any(s: SourceSpan, qs: Seq<SourceSpan>) -> bool {
    exists|j: int| 0 <= j < qs.len() && s.overlaps(qs[j])
}

/// The tokens of `tokens` whose span overlaps some span of `qs`, in
/// lexical order with no duplicates.
pub open spec fn query_spec(tokens: Seq<Token>, qs: Seq<SourceSpan>) -> Seq<Token> {
    tokens.filter(|t: Token| overlaps_any(t.span, qs))
}

/// The rebased tokens of one function body, stored in lexical order —
/// which is also ascending start-offset order, so an overlap query can
/// narrow its scan by binary search over the start offsets.
pub struct Tokens {
    tokens: Vec<Token>,
}

impl Tokens {
    /// The stored tokens, in lexical order.
    pub closed spec fn view(self) -> Seq<Token> {
        self.tokens@
    }

    /// Each token's ordinal is its position, spans are ordered pairs, and
    /// start offsets never decrease along the lexical order.
    pub closed spec fn wf(self) -> bool {
        &&& forall|i: int| 0 <= i < self.tokens@.len() ==> #[trigger] self.tokens@[i].index == i
        &&& forall|i: int|
            0 <= i < self.tokens@.len() ==> (#[trigger] self.tokens@[i].span).wf()
        &&& forall|i: int, j: int|
            0 <= i < j < self.tokens@.len() ==> self.tokens@[i].span.lo <= self.tokens@[j].span.lo
    }

    /// All token spans are well formed; exported from the closed
    /// invariant for callers that pass the tokens on.
    pub proof fn lemma_wf_spans(self)
        requires
            self.wf(),
        ensures
            forall|i: int| 0 <= i < self@.len() ==> (#[trigger] self@[i].span).wf(),
            forall|i: int| 0 <= i < self@.len() ==> #[trigger] self@[i].index == i,
    {
    }

    /// Builds the store for one function body: flattens the re-lexed
    /// trees depth-first and translates each snippet-local leaf span to
    /// global coordinates by adding the body's global start offset.
    ///
    /// The leaf spans must be ordered pairs lying within the snippet, in
    /// lexical order (start offsets never decrease) — which any lexer's
    /// token stream satisfies.
    pub fn build(trees: &Vec<TokenTree>, span: SourceSpan) -> (t: Tokens)
        requires
            span.wf(),
            forall|i: int|
                0 <= i < flat_trees(trees@).len() ==> (#[trigger] flat_trees(trees@)[i]).lo
                    <= flat_trees(trees@)[i].hi <= span.hi - span.lo,
            forall|i: int, j: int|
                0 <= i < j < flat_trees(trees@).len() ==> flat_trees(trees@)[i].lo <= flat_trees(
                    trees@,
                )[j].lo,
        ensures
            t.wf(),
            t@.len() == flat_trees(trees@).len(),
            forall|i: int|
                0 <= i < t@.len() ==> #[trigger] t@[i] == (Token {
                    index: i as usize,
                    span: SourceSpan {
                        lo: (span.lo + flat_trees(trees@)[i].lo) as usize,
                        hi: (span.lo + flat_trees(trees@)[i].hi) as usize,
                    },
                }),
            forall|i: int|
                0 <= i < t@.len() ==> span.lo <= (#[trigger] t@[i].span).lo && t@[i].span.hi
                    <= span.hi,
    {
        let ghost flat = flat_trees(trees@);
        let mut local: Vec<SourceSpan> = Vec::new();
        let mut k: usize = 0;
        while k < trees.len()
            invariant
                k <= trees@.len(),
                local@ == flat_trees(trees@.subrange(0, k as int)),
            decreases trees@.len() - k,
        {
            proof {
                assert(decreases_to!(trees@ => trees@[k as int]));
            }
            flatten_tree(&trees[k], &mut local);
            proof {
                let sub1 = trees@.subrange(0, k + 1 as int);
                assert(sub1.drop_last() =~= trees@.subrange(0, k as int));
                assert(sub1.last() == trees@[k as int]);
            }
            k = k + 1;
        }
        proof {
            assert(trees@.subrange(0, trees@.len() as int) =~= trees@);
        }

        let mut toks: Vec<Token> = Vec::new();
        let mut i: usize = 0;
        while i < local.len()
            invariant
                i <= local@.len(),
                local@ == flat,
                span.wf(),
                forall|a: int|
                    0 <= a < flat.len() ==> (#[trigger] flat[a]).lo <= flat[a].hi <= span.hi
                        - span.lo,
                toks@.len() == i,
                forall|a: int|
                    0 <= a < i ==> #[trigger] toks@[a] == (Token {
                        index: a as usize,
                        span: SourceSpan {
                            lo: (span.lo + flat[a].lo) as usize,
                            hi: (span.lo + flat[a].hi) as usize,
                        },
                    }),
            decreases local@.len() - i,
        {
            let s = local[i];
            let t = Token { index: i, span: SourceSpan { lo: span.lo + s.lo, hi: span.lo + s.hi } };
            toks.push(t);
            i = i + 1;
        }
        let r = Tokens { tokens: toks };
        proof {
            assert forall|a: int, b: int|
                0 <= a < b < r.tokens@.len() implies r.tokens@[a].span.lo
                <= r.tokens@[b].span.lo by {
                assert(flat[a].lo <= flat[b].lo);
            }
        }
        r
    }

    /// The stored tokens, for line translation.
    pub fn all(&self) -> (r: &Vec<Token>)
        ensures
            r@ == self@,
    {
        &self.tokens
    }

    /// Total number of tokens in the store.
    pub fn total_tokens(&self) -> (r: usize)
        ensures
            r == self@.len(),
    {
        self.tokens.len()
    }

    /// The first position whose token starts after byte offset `x`; all
    /// earlier tokens start at or before `x`.
    fn upper_bound(&self, x: usize) -> (ub: usize)
        requires
            self.wf(),
        ensures
            ub <= self@.len(),
            forall|i: int| 0 <= i < ub ==> (#[trigger] self@[i].span).lo <= x,
            forall|i: int| ub <= i < self@.len() ==> (#[trigger] self@[i].span).lo > x,
    {
        let mut lo: usize = 0;
        let mut hi: usize = self.tokens.len();
        while lo < hi
            invariant
                self.wf(),
                lo <= hi <= self@.len(),
                forall|i: int| 0 <= i < lo ==> (#[trigger] self@[i].span).lo <= x,
                forall|i: int| hi <= i < self@.len() ==> (#[trigger] self@[i].span).lo > x,
            decreases hi - lo,
        {
            let mid: usize = lo + (hi - lo) / 2;
            if self.tokens[mid].span.lo <= x {
                assert forall|i: int| 0 <= i < mid + 1 implies (#[trigger] self@[i].span).lo
                    <= x by {
                    if i < mid {
                        assert(self@[i].span.lo <= self@[mid as int].span.lo);
                    }
                }
                lo = mid + 1;
            } else {
                assert forall|i: int| mid <= i < self@.len() implies (#[trigger] self@[i].span).lo
                    > x by {
                    if i > mid {
                        assert(self@[mid as int].span.lo <= self@[i].span.lo);
                    }
                }
                hi = mid;
            }
        }
        lo
    }

    /// Every distinct token overlapping any of the input spans, in
    /// lexical (token-index) order, with no duplicates even if several
    /// input spans overlap the same token.
    pub fn query(&self, qs: &Vec<SourceSpan>) -> (r: Vec<Token>)
        requires
            self.wf(),
        ensures
            r@ == query_spec(self@, qs@),
            forall|a: int, b: int| 0 <= a < b < r@.len() ==> r@[a].index < r@[b].index,
            forall|t: Token| r@.contains(t) <==> (self@.contains(t) && overlaps_any(t.span, qs@)),
    {
        let n: usize = self.tokens.len();
        let mut marks: Vec<bool> = Vec::new();
        let mut f: usize = 0;
        while f < n
            invariant
                marks@.len() == f <= n,
                forall|m: int| 0 <= m < f ==> marks@[m] == false,
            decreases n - f,
        {
            marks.push(false);
            f = f + 1;
        }

        let mut qi: usize = 0;
        while qi < qs.len()
            invariant
                self.wf(),
                n == self@.len(),
                marks@.len() == n,
                qi <= qs@.len(),
                forall|m: int|
                    0 <= m < n ==> marks@[m] == overlaps_any(
                        (#[trigger] self@[m]).span,
                        qs@.subrange(0, qi as int),
                    ),
            decreases qs@.len() - qi,
        {
            let q = qs[qi];
            let ghost prior = qs@.subrange(0, qi as int);
            let ub = self.upper_bound(q.hi);
            let mut i: usize = 0;
            while i < ub
                invariant
                    self.wf(),
                    n == self@.len(),
                    marks@.len() == n,
                    ub <= n,
                    q == qs@[qi as int],
                    0 <= qi < qs@.len(),
                    prior == qs@.subrange(0, qi as int),
                    i <= ub,
                    forall|m: int|
                        0 <= m < n ==> marks@[m] == (overlaps_any(
                            (#[trigger] self@[m]).span,
                            prior,
                        ) || (m < i && self@[m].span.overlaps(q))),
                decreases ub - i,
            {
                if self.tokens[i].span.overlaps_with(&q) {
                    marks.set(i, true);
                }
                i = i + 1;
            }
            proof {
                let sub1 = qs@.subrange(0, qi + 1 as int);
                assert forall|m: int| 0 <= m < n implies marks@[m] == overlaps_any(
                    (#[trigger] self@[m]).span,
                    sub1,
                ) by {
                    let s = self@[m].span;
                    if marks@[m] {
                        if overlaps_any(s, prior) {
                            let j = choose|j: int| 0 <= j < prior.len() && s.overlaps(prior[j]);
                            assert(sub1[j] == prior[j]);
                            assert(s.overlaps(sub1[j]));
                        } else {
                            assert(s.overlaps(q));
                            assert(sub1[qi as int] == q);
                        }
                    } else {
                        if m >= ub {
                            assert(s.lo > q.hi);
                        }
                        assert(!s.overlaps(q));
                        assert forall|j: int| 0 <= j < sub1.len() implies !s.overlaps(
                            sub1[j],
                        ) by {
                            if j < qi {
                                assert(sub1[j] == prior[j]);
                                assert(!overlaps_any(s, prior));
                            }
                        }
                    }
                }
            }
            qi = qi + 1;
        }
        proof {
            assert(qs@.subrange(0, qs@.len() as int) =~= qs@);
        }

        let ghost pred = |t: Token| overlaps_any(t.span, qs@);
        let mut r: Vec<Token> = Vec::new();
        let mut i: usize = 0;
        proof {
            assert(self@.subrange(0, 0) =~= Seq::<Token>::empty());
            assert(Seq::<Token>::empty().filter(pred) =~= Seq::<Token>::empty()) by {
                reveal(Seq::filter);
            }
        }
        while i < n
            invariant
                self.wf(),
                n == self@.len(),
                marks@.len() == n,
                i <= n,
                pred == (|t: Token| overlaps_any(t.span, qs@)),
                forall|m: int|
                    0 <= m < n ==> marks@[m] == overlaps_any((#[trigger] self@[m]).span, qs@),
                r@ == self@.subrange(0, i as int).filter(pred),
                forall|a: int| 0 <= a < r@.len() ==> (#[trigger] r@[a]).index < i,
                forall|a: int, b: int| 0 <= a < b < r@.len() ==> r@[a].index < r@[b].index,
                forall|t: Token|
                    r@.contains(t) <==> exists|m: int|
                        0 <= m < i && #[trigger] self@[m] == t && overlaps_any(t.span, qs@),
            decreases n - i,
        {
            let ghost r_old = r@;
            let ghost prefix = self@.subrange(0, i as int);
            let tok = self.tokens[i];
            if marks[i] {
                r.push(tok);
            }
            proof {
                assert(self@.subrange(0, i + 1 as int) =~= prefix.push(self@[i as int]));
                lemma_filter_push(prefix, self@[i as int], pred);
                if marks@[i as int] {
                    assert(r@ == r_old.push(self@[i as int]));
                    assert forall|t: Token| r@.contains(t) implies exists|m: int|
                        0 <= m < i + 1 && #[trigger] self@[m] == t && overlaps_any(
                            t.span,
                            qs@,
                        ) by {
                        if t != self@[i as int] {
                            let a = choose|a: int| 0 <= a < r@.len() && r@[a] == t;
                            assert(r_old[a] == t);
                            assert(r_old.contains(t));
                        } else {
                            assert(self@[i as int] == t);
                        }
                    }
                    assert forall|t: Token|
                        (exists|m: int|
                            0 <= m < i + 1 && #[trigger] self@[m] == t && overlaps_any(
                                t.span,
                                qs@,
                            )) implies r@.contains(t) by {
                        let m = choose|m: int|
                            0 <= m < i + 1 && #[trigger] self@[m] == t && overlaps_any(
                                t.span,
                                qs@,
                            );
                        if m < i {
                            assert(r_old.contains(t));
                            let a = choose|a: int| 0 <= a < r_old.len() && r_old[a] == t;
                            assert(r@[a] == t);
                        } else {
                            assert(r@[r@.len() - 1] == t);
                        }
                    }
                } else {
                    assert forall|t: Token|
                        (exists|m: int|
                            0 <= m < i + 1 && #[trigger] self@[m] == t && overlaps_any(
                                t.span,
                                qs@,
                            )) implies r@.contains(t) by {
                        let m = choose|m: int|
                            0 <= m < i + 1 && #[trigger] self@[m] == t && overlaps_any(
                                t.span,
                                qs@,
                            );
                        if m == i {
                            assert(marks@[i as int] == overlaps_any(self@[i as int].span, qs@));
                        }
                    }
                }
            }
            i = i + 1;
        }
        proof {
            assert(self@.subrange(0, n as int) =~= self@);
            assert forall|t: Token| r@.contains(t) implies (self@.contains(t) && overlaps_any(
                t.span,
                qs@,
            )) by {
                let m = choose|m: int|
                    0 <= m < n && #[trigger] self@[m] == t && overlaps_any(t.span, qs@);
                assert(self@.contains(t));
            }
            assert forall|t: Token| (self@.contains(t) && overlaps_any(t.span, qs@)) implies r@
                .contains(t) by {
                let m = choose|m: int| 0 <= m < self@.len() && self@[m] == t;
            }
        }
        r
    }
}

/// Order-independence of `query`: two query lists with the same members
/// select the same tokens, in the same order. With the same list given
/// twice, this is idempotence: repeating a query changes nothing.
pub proof fn lemma_query_order_independent(
    tokens: Seq<Token>,
    qs1: Seq<SourceSpan>,
    qs2: Seq<SourceSpan>,
)
    requires
        forall|s: SourceSpan| qs1.contains(s) <==> qs2.contains(s),
    ensures
        query_spec(tokens, qs1) == query_spec(tokens, qs2),
{
    assert forall|t: Token| #[trigger] overlaps_any(t.span, qs1) == overlaps_any(t.span, qs2) by {
        if overlaps_any(t.span, qs1) {
            let j = choose|j: int| 0 <= j < qs1.len() && t.span.overlaps(qs1[j]);
            assert(qs1.contains(qs1[j]));
            assert(qs2.contains(qs1[j]));
            let k = choose|k: int| 0 <= k < qs2.len() && qs2[k] == qs1[j];
            assert(t.span.overlaps(qs2[k]));
        }
        if overlaps_any(t.span, qs2) {
            let j = choose|j: int| 0 <= j < qs2.len() && t.span.overlaps(qs2[j]);
            assert(qs2.contains(qs2[j]));
            assert(qs1.contains(qs2[j]));
            let k = choose|k: int| 0 <= k < qs1.len() && qs1[k] == qs2[j];
            assert(t.span.overlaps(qs1[k]));
        }
    }
    crate::seq_util::lemma_filter_congruent(
        tokens,
        |t: Token| overlaps_any(t.span, qs1),
        |t: Token| overlaps_any(t.span, qs2),
    );
}

/// Union semantics of a concatenated query: a token is selected by the
/// concatenation of two span lists exactly when it is selected by one of
/// them — the `Both` direction equals the union, by token, of `Forward`
/// and `Backward`.
pub proof fn lemma_query_union(tokens: Seq<Token>, qs1: Seq<SourceSpan>, qs2: Seq<SourceSpan>)
    ensures
        forall|t: Token|
            query_spec(tokens, qs1 + qs2).contains(t) <==> (query_spec(tokens, qs1).contains(t)
                || query_spec(tokens, qs2).contains(t)),
{
    let qs12 = qs1 + qs2;
    let p12 = |t: Token| overlaps_any(t.span, qs12);
    let p1 = |t: Token| overlaps_any(t.span, qs1);
    let p2 = |t: Token| overlaps_any(t.span, qs2);
    lemma_filter_membership(tokens, p12);
    lemma_filter_membership(tokens, p1);
    lemma_filter_membership(tokens, p2);
    assert forall|t: Token| #[trigger]
        query_spec(tokens, qs1 + qs2).contains(t) <==> (query_spec(tokens, qs1).contains(t)
        || query_spec(tokens, qs2).contains(t)) by {
        assert(query_spec(tokens, qs1 + qs2) == tokens.filter(p12));
        assert(query_spec(tokens, qs1) == tokens.filter(p1));
        assert(query_spec(tokens, qs2) == tokens.filter(p2));
        if overlaps_any(t.span, qs1 + qs2) {
            let j = choose|j: int| 0 <= j < (qs1 + qs2).len() && t.span.overlaps((qs1 + qs2)[j]);
            if j < qs1.len() {
                assert(t.span.overlaps(qs1[j]));
            } else {
                assert(t.span.overlaps(qs2[j - qs1.len()]));
            }
        }
        if overlaps_any(t.span, qs1) {
            let j = choose|j: int| 0 <= j < qs1.len() && t.span.overlaps(qs1[j]);
            assert(t.span.overlaps((qs1 + qs2)[j]));
        }
        if overlaps_any(t.span, qs2) {
            let j = choose|j: int| 0 <= j < qs2.len() && t.span.overlaps(qs2[j]);
            assert(t.span.overlaps((qs1 + qs2)[j + qs1.len()]));
        }
        assert(p12(t) == (p1(t) || p2(t)));
        assert(tokens.filter(p12).contains(t) <==> (tokens.contains(t) && p12(t)));
        assert(tokens.filter(p1).contains(t) <==> (tokens.contains(t) && p1(t)));
        assert(tokens.filter(p2).contains(t) <==> (tokens.contains(t) && p2(t)));
    }
}

} // verus!
