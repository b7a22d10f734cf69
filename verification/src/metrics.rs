//! Per-slice metrics: relevant tokens, relevant lines, and the
//! quartile-bound line dispersion measure.

use vstd::prelude::*;

use crate::seq_util::lemma_filter_push;
use crate::span::SourceSpan;

verus! {

/// Which dataflow pass a slice's relevance ranges are drawn from:
/// forward, backward, or the union of the two.
#[derive(Clone, Copy, Debug, PartialEq, Eq, Structural)]
pub enum EvalDirection {
    Forward,
    Backward,
    Both,
}

/// One candidate place produced by the external slicer: its own range
/// and the forward- and backward-relevant ranges to intersect with the
/// function's tokens.
pub struct SliceSample {
    pub range: SourceSpan,
    pub forward: Vec<SourceSpan>,
    pub backward: Vec<SourceSpan>,
}

/// The ranges a direction draws on: `Forward` and `Backward` use their
/// own list; `Both` is the concatenation of the two, not pre-deduplicated
/// — the query deduplicates.
pub open spec fn ranges_spec(sample: SliceSample, direction: EvalDirection) -> Seq<SourceSpan> {
    match direction {
        EvalDirection::Forward => sample.forward@,
        EvalDirection::Backward => sample.backward@,
        EvalDirection::Both => sample.forward@ + sample.backward@,
    }
}

/// Materialises `ranges_spec` for one direction.
pub fn ranges_for(sample: &SliceSample, direction: EvalDirection) -> (r: Vec<SourceSpan>)
    ensures
        r@ == ranges_spec(*sample, direction),
{
    let mut r: Vec<SourceSpan> = Vec::new();
    match direction {
        EvalDirection::Forward => {
            append_spans(&mut r, &sample.forward);
        },
        EvalDirection::Backward => {
            append_spans(&mut r, &sample.backward);
        },
        EvalDirection::Both => {
            append_spans(&mut r, &sample.forward);
            append_spans(&mut r, &sample.backward);
        },
    }
    proof {
        assert(r@ =~= ranges_spec(*sample, direction));
    }
    r
}

/// Appends every span of `src` to `dst`, in order.
fn append_spans(dst: &mut Vec<SourceSpan>, src: &Vec<SourceSpan>)
    ensures
        final(dst)@ == old(dst)@ + src@,
{
    let ghost base = dst@;
    let mut i: usize = 0;
    while i < src.len()
        invariant
            i <= src@.len(),
            dst@ == base + src@.subrange(0, i as int),
        decreases src@.len() - i,
    {
        dst.push(src[i]);
        proof {
            assert(base + src@.subrange(0, i + 1 as int) =~= (base + src@.subrange(0, i as int)).push(
                src@[i as int],
            ));
        }
        i = i + 1;
    }
    proof {
        assert(src@.subrange(0, src@.len() as int) =~= src@);
    }
}

/// How many entries of `s` lie in the inclusive range `[lo, hi]`.
pub open spec fn count_in_range(s: Seq<usize>, lo: usize, hi: usize) -> int {
    s.filter(|x: usize| lo <= x && x <= hi).len() as int
}

/// The line dispersion measure: zero when no line is relevant; otherwise
/// the number of entries of the function's full line set lying between
/// the relevant lines at the floor quartile positions, inclusive. It
/// counts function lines inside the slice's quartile bound, not the
/// width of the bound.
pub open spec fn iqr_spec(relevant: Seq<usize>, body: Seq<usize>) -> int {
    if relevant.len() == 0 {
        0
    } else {
        count_in_range(
            body,
            relevant[relevant.len() as int / 4],
            relevant[relevant.len() as int * 3 / 4],
        )
    }
}

/// Quartile index selection: for `n >= 1` relevant lines, the floor
/// quartile positions `n / 4` and `3 * n / 4` are valid indices into the
/// ascending relevant-line array; for `n == 1` both are zero.
pub proof fn lemma_quartile_bounds(n: int)
    requires
        n >= 1,
    ensures
        0 <= n / 4 < n,
        0 <= n * 3 / 4 < n,
        n == 1 ==> n / 4 == 0 && n * 3 / 4 == 0,
{
}

/// Computes the dispersion measure for one slice's relevant lines against
/// the function's full line set. It never exceeds the function's total
/// line count, and is zero when no line is relevant.
pub fn line_iqr(relevant: &Vec<usize>, body: &Vec<usize>) -> (r: usize)
    ensures
        r == iqr_spec(relevant@, body@),
        r <= body@.len(),
        relevant@.len() == 0 ==> r == 0,
{
    let n: usize = relevant.len();
    if n == 0 {
        return 0;
    }
    proof {
        lemma_quartile_bounds(n as int);
    }
    let q: usize = n / 4;
    let rem: usize = n % 4;
    let i3: usize = 3 * q + (3 * rem) / 4;
    proof {
        assert(n == 4 * (n as int / 4) + n as int % 4);
        assert(i3 == n as int * 3 / 4);
    }
    let lo: usize = relevant[q];
    let hi: usize = relevant[i3];
    let ghost pred = |x: usize| lo <= x && x <= hi;
    let mut count: usize = 0;
    let mut i: usize = 0;
    proof {
        assert(body@.subrange(0, 0) =~= Seq::<usize>::empty());
        assert(Seq::<usize>::empty().filter(pred) =~= Seq::<usize>::empty()) by {
            reveal(Seq::filter);
        }
    }
    while i < body.len()
        invariant
            i <= body@.len(),
            pred == (|x: usize| lo <= x && x <= hi),
            count == body@.subrange(0, i as int).filter(pred).len(),
            count <= i,
        decreases body@.len() - i,
    {
        let ghost prefix = body@.subrange(0, i as int);
        if lo <= body[i] && body[i] <= hi {
            count = count + 1;
        }
        proof {
            assert(body@.subrange(0, i + 1 as int) =~= prefix.push(body@[i as int]));
            lemma_filter_push(prefix, body@[i as int], pred);
        }
        i = i + 1;
    }
    proof {
        assert(body@.subrange(0, body@.len() as int) =~= body@);
    }
    count
}

/// The per-function aggregates, computed once per body and independent of
/// slice direction.
pub struct FunctionRecord {
    pub function_range: SourceSpan,
    pub function_path: String,
    pub num_instructions: usize,
    pub num_tokens: usize,
    pub num_lines: usize,
}

impl FunctionRecord {
    /// Computes one body's aggregates: the token count, and the count of
    /// distinct source lines touched by any token span. The instruction
    /// count is passed through unchanged from the fact-extraction
    /// collaborator, not recomputed here.
    pub fn compute(
        function_range: SourceSpan,
        function_path: String,
        num_instructions: usize,
        tokens: &crate::tokens::Tokens,
        table: &crate::lines::LineTable,
    ) -> (r: FunctionRecord)
        requires
            tokens.wf(),
            table.wf(),
        ensures
            r.function_range == function_range,
            r.function_path == function_path,
            r.num_instructions == num_instructions,
            r.num_tokens == tokens@.len(),
            r.num_lines == crate::lines::line_seq(tokens@, table.starts@).len(),
    {
        proof {
            tokens.lemma_wf_spans();
        }
        let body_lines = crate::lines::line_set(tokens.all(), table);
        FunctionRecord {
            function_range,
            function_path,
            num_instructions,
            num_tokens: tokens.total_tokens(),
            num_lines: body_lines.len(),
        }
    }
}

/// One output record: one function's aggregates combined with the metrics
/// of one slice sample in one direction.
#[derive(Debug)]
pub struct EvalResult {
    pub function_range: SourceSpan,
    pub function_path: String,
    pub range: SourceSpan,
    pub num_instructions: usize,
    pub num_tokens: usize,
    pub num_lines: usize,
    pub direction: EvalDirection,
    pub num_relevant_tokens: usize,
    pub num_relevant_lines: usize,
    pub line_iqr: usize,
}

} // verus!
