//! A small fact about `Seq::filter` used when a loop grows a filtered
//! sequence one element at a time.

use vstd::prelude::*;

verus! {

/// Filtering a sequence extended by one element keeps the old filtered
/// prefix and appends the new element exactly when it satisfies the
/// predicate.
pub proof fn lemma_filter_push<A>(s: Seq<A>, x: A, pred: spec_fn(A) -> bool)
    ensures
        s.push(x).filter(pred) == if pred(x) {
            s.filter(pred).push(x)
        } else {
            s.filter(pred)
        },
{
    reveal(Seq::filter);
    assert(s.push(x).drop_last() =~= s);
    assert(s.push(x).last() == x);
}

/// Two predicates that agree on every element of a sequence filter it to
/// the same sequence.
pub proof fn lemma_filter_congruent<A>(s: Seq<A>, p1: spec_fn(A) -> bool, p2: spec_fn(A) -> bool)
    requires
        forall|x: A| s.contains(x) ==> p1(x) == p2(x),
    ensures
        s.filter(p1) == s.filter(p2),
    decreases s.len(),
{
    reveal(Seq::filter);
    if s.len() > 0 {
        assert forall|x: A| s.drop_last().contains(x) implies p1(x) == p2(x) by {
            let i = choose|i: int| 0 <= i < s.drop_last().len() && s.drop_last()[i] == x;
            assert(s[i] == x);
            assert(s.contains(x));
        }
        lemma_filter_congruent(s.drop_last(), p1, p2);
        assert(s.contains(s.last()));
    }
}

/// An element is in the filtered sequence exactly when it is in the
/// original and satisfies the predicate.
pub proof fn lemma_filter_membership<A>(s: Seq<A>, pred: spec_fn(A) -> bool)
    ensures
        forall|x: A| s.filter(pred).contains(x) <==> (s.contains(x) && pred(x)),
    decreases s.len(),
{
    reveal(Seq::filter);
    if s.len() == 0 {
        assert forall|x: A| !s.filter(pred).contains(x) && !s.contains(x) by {}
    } else {
        lemma_filter_membership(s.drop_last(), pred);
        lemma_filter_push(s.drop_last(), s.last(), pred);
        assert(s.drop_last().push(s.last()) =~= s);
        assert forall|x: A| s.filter(pred).contains(x) implies (s.contains(x) && pred(x)) by {
            if pred(s.last()) {
                let f = s.drop_last().filter(pred);
                if x != s.last() {
                    let i = choose|i: int| 0 <= i < f.push(s.last()).len() && f.push(s.last())[i] == x;
                    assert(f[i] == x);
                    assert(f.contains(x));
                    assert(s.drop_last().contains(x));
                    let j = choose|j: int| 0 <= j < s.drop_last().len() && s.drop_last()[j] == x;
                    assert(s[j] == x);
                } else {
                    assert(s[s.len() - 1] == x);
                }
            } else {
                assert(s.drop_last().contains(x));
                let j = choose|j: int| 0 <= j < s.drop_last().len() && s.drop_last()[j] == x;
                assert(s[j] == x);
            }
        }
        assert forall|x: A| (s.contains(x) && pred(x)) implies s.filter(pred).contains(x) by {
            let i = choose|i: int| 0 <= i < s.len() && s[i] == x;
            if i < s.len() - 1 {
                assert(s.drop_last()[i] == x);
                assert(s.drop_last().contains(x));
                assert(s.drop_last().filter(pred).contains(x));
                let f = s.drop_last().filter(pred);
                let k = choose|k: int| 0 <= k < f.len() && f[k] == x;
                if pred(s.last()) {
                    assert(s.filter(pred)[k] == x);
                } else {
                    assert(s.filter(pred)[k] == x);
                }
            } else {
                assert(x == s.last());
                assert(s.filter(pred).last() == x);
            }
        }
    }
}

} // verus!
