//! Mapping byte offsets to source line indices, and the deduplicated,
//! ascending line sets touched by a group of tokens.

use vstd::prelude::*;

use crate::seq_util::lemma_filter_push;
use crate::span::Token;

verus! {

/// The greatest line index whose start offset is at or before `off`.
/// `starts` must be a well-formed line table for the bounds below to hold.
pub open spec fn line_index(starts: Seq<usize>, off: int) -> int
    decreases starts.len(),
{
    if starts.len() <= 1 {
        0
    } else if starts[starts.len() - 1] <= off {
        starts.len() - 1
    } else {
        line_index(starts.drop_last(), off)
    }
}

/// A well-formed line table: at least one line, the first line starts at
/// offset zero, and line starts strictly increase.
pub open spec fn wf_starts(starts: Seq<usize>) -> bool {
    &&& starts.len() >= 1
    &&& starts[0] == 0
    &&& forall|i: int, j: int| 0 <= i < j < starts.len() ==> starts[i] < starts[j]
}

/// `line_index` is the maximal line whose start is at or before `off`.
pub proof fn lemma_line_index_bounds(starts: Seq<usize>, off: int)
    requires
        wf_starts(starts),
        off >= 0,
    ensures
        0 <= line_index(starts, off) < starts.len(),
        starts[line_index(starts, off)] <= off,
        forall|i: int| 0 <= i < starts.len() && starts[i] <= off ==> i <= line_index(starts, off),
    decreases starts.len(),
{
    if starts.len() <= 1 {
    } else if starts[starts.len() - 1] <= off {
    } else {
        let prefix = starts.drop_last();
        assert(wf_starts(prefix));
        lemma_line_index_bounds(prefix, off);
        assert forall|i: int| 0 <= i < starts.len() && starts[i] <= off implies i <= line_index(
            starts,
            off,
        ) by {
            if i < starts.len() - 1 {
                assert(prefix[i] == starts[i]);
            }
        }
    }
}

/// A later offset never lies on an earlier line.
pub proof fn lemma_line_index_monotone(starts: Seq<usize>, a: int, b: int)
    requires
        wf_starts(starts),
        0 <= a <= b,
    ensures
        line_index(starts, a) <= line_index(starts, b),
{
    lemma_line_index_bounds(starts, a);
    lemma_line_index_bounds(starts, b);
    assert(starts[line_index(starts, a)] <= b);
}

/// The source-map collaborator's line lookup, modelled as the ascending
/// list of byte offsets at which each line begins.
pub struct LineTable {
    pub starts: Vec<usize>,
}

impl LineTable {
    pub open spec fn wf(self) -> bool {
        wf_starts(self.starts@)
    }

    /// Number of lines the table describes.
    pub open spec fn spec_len(self) -> nat {
        self.starts@.len()
    }

    /// Builds a table from line-start offsets, rejecting a list that is
    /// empty, does not begin at offset zero, or is not strictly ascending.
    pub fn new(starts: Vec<usize>) -> (r: Option<LineTable>)
        ensures
            r is Some <==> wf_starts(starts@),
            r is Some ==> r->0 == (LineTable { starts }),
    {
        if starts.len() == 0 || starts[0] != 0 {
            return None;
        }
        let mut i: usize = 1;
        while i < starts.len()
            invariant
                1 <= i <= starts@.len(),
                forall|a: int, b: int| 0 <= a < b < i ==> starts@[a] < starts@[b],
            decreases starts@.len() - i,
        {
            if starts[i - 1] >= starts[i] {
                return None;
            }
            assert forall|a: int, b: int| 0 <= a < b < i + 1 implies starts@[a] < starts@[b] by {
                if b == i && a < i - 1 {
                    assert(starts@[a] < starts@[i - 1]);
                }
            }
            i = i + 1;
        }
        Some(LineTable { starts })
    }

    pub fn len(&self) -> (r: usize)
        ensures
            r == self.spec_len(),
    {
        self.starts.len()
    }

    /// The line containing byte offset `off`: the greatest line whose
    /// start offset is at or before `off`.
    pub fn line_of(&self, off: usize) -> (r: usize)
        requires
            self.wf(),
        ensures
            r == line_index(self.starts@, off as int),
            r < self.starts@.len(),
            self.starts@[r as int] <= off,
    {
        proof {
            lemma_line_index_bounds(self.starts@, off as int);
        }
        let mut lo: usize = 0;
        let mut hi: usize = self.starts.len() - 1;
        while lo < hi
            invariant
                self.wf(),
                0 <= lo <= hi < self.starts@.len(),
                self.starts@[lo as int] <= off,
                forall|i: int| hi < i < self.starts@.len() ==> self.starts@[i] > off,
            decreases hi - lo,
        {
            let mid: usize = hi - (hi - lo) / 2;
            if self.starts[mid] <= off {
                lo = mid;
            } else {
                assert forall|i: int| mid - 1 < i < self.starts@.len() implies self.starts@[i]
                    > off by {
                    if i > mid {
                        assert(self.starts@[mid as int] < self.starts@[i]);
                    }
                }
                hi = mid - 1;
            }
        }
        proof {
            let li = line_index(self.starts@, off as int);
            assert(lo <= li);
            assert(li <= lo) by {
                if li > lo {
                    assert(self.starts@[li] > off);
                }
            }
        }
        lo
    }
}

/// Whether token `t`'s span touches line `l`: a token contributes the
/// inclusive range of lines from its start offset's line to its end
/// offset's line.
pub open spec fn token_covers_line(t: Token, starts: Seq<usize>, l: int) -> bool {
    line_index(starts, t.span.lo as int) <= l <= line_index(starts, t.span.hi as int)
}

/// Whether any token of the group touches line `l`.
pub open spec fn line_covered(tokens: Seq<Token>, starts: Seq<usize>, l: int) -> bool {
    exists|k: int| 0 <= k < tokens.len() && token_covers_line(tokens[k], starts, l)
}

/// The deduplicated, ascending set of line indices touched by the tokens:
/// all lines of the table, kept when some token covers them.
pub open spec fn line_seq(tokens: Seq<Token>, starts: Seq<usize>) -> Seq<usize> {
    Seq::new(starts.len(), |i: int| i as usize).filter(
        |l: usize| line_covered(tokens, starts, l as int),
    )
}

/// Collects the distinct source lines touched by any token span, sorted
/// strictly ascending with no duplicates.
pub fn line_set(tokens: &Vec<Token>, table: &LineTable) -> (r: Vec<usize>)
    requires
        table.wf(),
        forall|k: int| 0 <= k < tokens@.len() ==> (#[trigger] tokens@[k].span).wf(),
    ensures
        r@ == line_seq(tokens@, table.starts@),
        forall|a: int, b: int| 0 <= a < b < r@.len() ==> r@[a] < r@[b],
        forall|l: usize|
            r@.contains(l) <==> (l < table.starts@.len() && line_covered(
                tokens@,
                table.starts@,
                l as int,
            )),
{
    let ghost starts = table.starts@;
    let total: usize = table.len();
    let mut marks: Vec<bool> = Vec::new();
    let mut f: usize = 0;
    while f < total
        invariant
            marks@.len() == f <= total,
            forall|m: int| 0 <= m < f ==> marks@[m] == false,
        decreases total - f,
    {
        marks.push(false);
        f = f + 1;
    }

    let mut i: usize = 0;
    while i < tokens.len()
        invariant
            table.wf(),
            starts == table.starts@,
            marks@.len() == total == starts.len(),
            i <= tokens@.len(),
            forall|k: int| 0 <= k < tokens@.len() ==> (#[trigger] tokens@[k].span).wf(),
            forall|m: int|
                0 <= m < total ==> marks@[m] == line_covered(
                    tokens@.subrange(0, i as int),
                    starts,
                    m,
                ),
        decreases tokens@.len() - i,
    {
        let t = tokens[i];
        let fl = table.line_of(t.span.lo);
        let ll = table.line_of(t.span.hi);
        proof {
            lemma_line_index_monotone(starts, t.span.lo as int, t.span.hi as int);
        }
        let ghost sub = tokens@.subrange(0, i as int);
        let mut l: usize = fl;
        while l <= ll
            invariant
                fl <= l <= ll + 1,
                ll < total,
                marks@.len() == total,
                0 <= i < tokens@.len(),
                sub == tokens@.subrange(0, i as int),
                fl == line_index(starts, tokens@[i as int].span.lo as int),
                ll == line_index(starts, tokens@[i as int].span.hi as int),
                forall|m: int|
                    0 <= m < total ==> marks@[m] == (line_covered(sub, starts, m) || (fl <= m
                        < l)),
            decreases ll + 1 - l,
        {
            marks.set(l, true);
            l = l + 1;
        }
        proof {
            let sub1 = tokens@.subrange(0, i + 1 as int);
            assert(sub1.drop_last() =~= sub);
            assert(sub1.last() == tokens@[i as int]);
            assert forall|m: int| 0 <= m < total implies marks@[m] == line_covered(
                sub1,
                starts,
                m,
            ) by {
                if marks@[m] {
                    if line_covered(sub, starts, m) {
                        let k = choose|k: int|
                            0 <= k < sub.len() && token_covers_line(sub[k], starts, m);
                        assert(token_covers_line(sub1[k], starts, m));
                    } else {
                        assert(token_covers_line(sub1[i as int], starts, m));
                    }
                } else {
                    assert(!line_covered(sub, starts, m));
                    assert(!token_covers_line(tokens@[i as int], starts, m));
                    assert forall|k: int|
                        0 <= k < sub1.len() implies !token_covers_line(sub1[k], starts, m) by {
                        if k < i {
                            assert(sub1[k] == sub[k]);
                            assert(!line_covered(sub, starts, m));
                        }
                    }
                }
            }
        }
        i = i + 1;
    }
    proof {
        assert(tokens@.subrange(0, tokens@.len() as int) =~= tokens@);
    }

    let ghost all = Seq::new(starts.len(), |i: int| i as usize);
    let ghost pred = |l: usize| line_covered(tokens@, starts, l as int);
    let mut r: Vec<usize> = Vec::new();
    let mut l: usize = 0;
    proof {
        assert(all.subrange(0, 0) =~= Seq::<usize>::empty());
        assert(Seq::<usize>::empty().filter(pred) =~= Seq::<usize>::empty()) by {
            reveal(Seq::filter);
        }
    }
    while l < total
        invariant
            marks@.len() == total == starts.len(),
            l <= total,
            all == Seq::new(starts.len(), |i: int| i as usize),
            pred == (|m: usize| line_covered(tokens@, starts, m as int)),
            forall|m: int| 0 <= m < total ==> marks@[m] == line_covered(tokens@, starts, m),
            r@ == all.subrange(0, l as int).filter(pred),
            forall|a: int| 0 <= a < r@.len() ==> r@[a] < l,
            forall|a: int, b: int| 0 <= a < b < r@.len() ==> r@[a] < r@[b],
            forall|m: usize| r@.contains(m) <==> (m < l && line_covered(tokens@, starts, m as int)),
        decreases total - l,
    {
        let ghost r_old = r@;
        let ghost prefix = all.subrange(0, l as int);
        if marks[l] {
            r.push(l);
        }
        proof {
            assert(all.subrange(0, l + 1 as int) =~= prefix.push(l as usize));
            lemma_filter_push(prefix, l as usize, pred);
            if marks@[l as int] {
                assert(r@ == r_old.push(l as usize));
                assert forall|m: usize| r@.contains(m) implies (m < l + 1 && line_covered(
                    tokens@,
                    starts,
                    m as int,
                )) by {
                    if m != l {
                        let a = choose|a: int| 0 <= a < r@.len() && r@[a] == m;
                        assert(r_old[a] == m);
                        assert(r_old.contains(m));
                    }
                }
                assert forall|m: usize|
                    (m < l + 1 && line_covered(tokens@, starts, m as int)) implies r@.contains(
                    m,
                ) by {
                    if m < l {
                        assert(r_old.contains(m));
                        let a = choose|a: int| 0 <= a < r_old.len() && r_old[a] == m;
                        assert(r@[a] == m);
                    } else {
                        assert(r@[r@.len() - 1] == m);
                    }
                }
            } else {
                assert forall|m: usize|
                    (m < l + 1 && line_covered(tokens@, starts, m as int)) implies r@.contains(
                    m,
                ) by {
                    if m == l {
                        assert(marks@[l as int] == line_covered(tokens@, starts, l as int));
                    }
                }
            }
        }
        l = l + 1;
    }
    proof {
        assert(all.subrange(0, total as int) =~= all);
    }
    r
}

} // verus!
