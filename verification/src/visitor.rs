//! The orchestrator: per-body skip and filter policy, the per-sample,
//! per-direction metrics computation, and the body counter that sizes a
//! run up front.

use vstd::prelude::*;

use crate::config::{selector_matches, matches_selector, RunSelector};
use crate::lines::{line_seq, line_set, LineTable};
use crate::metrics::{
    iqr_spec, line_iqr, ranges_for, ranges_spec, EvalDirection, EvalResult, FunctionRecord,
    SliceSample,
};
use crate::span::SourceSpan;
use crate::tokens::{overlaps_any, query_spec, Tokens};

verus! {

/// The kind of item a discovered body belongs to. Only free functions
/// and methods carry an analyzable body; trait-item and foreign-item
/// declarations are never analyzed.
#[derive(Clone, Copy, Debug, PartialEq, Eq, Structural)]
pub enum BodyKind {
    Function,
    Method,
    TraitItem,
    ForeignItem,
}

/// Whether a body of this kind is ever analyzed.
pub open spec fn has_analyzable_body(kind: BodyKind) -> bool {
    kind == BodyKind::Function || kind == BodyKind::Method
}

/// What became of one discovered body: skipped before counting (a
/// macro-expanded span, or no retrievable source text), skipped after
/// counting (its span could not be converted to a range, or the run
/// selector ruled it out), or accepted for analysis.
#[derive(Clone, Copy, Debug, PartialEq, Eq, Structural)]
pub enum BodyVerdict {
    SkipExpansion,
    SkipNoSource,
    SkipRange,
    Filtered,
    Analyze,
}

/// The triage state machine for one counted-or-skipped body: expansion
/// and missing-source skips come before the index is assigned; a range
/// conversion failure comes after, and still consumes that index; a
/// selector mismatch skips an already counted body.
pub open spec fn triage_spec(
    count0: usize,
    from_expansion: bool,
    has_source: bool,
    range_ok: bool,
    path: Seq<char>,
    selector: Option<RunSelector>,
) -> (BodyVerdict, usize) {
    if from_expansion {
        (BodyVerdict::SkipExpansion, count0)
    } else if !has_source {
        (BodyVerdict::SkipNoSource, count0)
    } else {
        let c = (count0 + 1) as usize;
        if !range_ok {
            (BodyVerdict::SkipRange, c)
        } else if selector is Some && !selector_matches(selector->0, c, path) {
            (BodyVerdict::Filtered, c)
        } else {
            (BodyVerdict::Analyze, c)
        }
    }
}

/// The record one body contributes for one sample and one direction.
pub open spec fn result_spec(
    record: FunctionRecord,
    tokens: Seq<crate::span::Token>,
    starts: Seq<usize>,
    sample: SliceSample,
    direction: EvalDirection,
) -> EvalResult {
    let rel = query_spec(tokens, ranges_spec(sample, direction));
    let rel_lines = line_seq(rel, starts);
    let body_lines = line_seq(tokens, starts);
    EvalResult {
        function_range: record.function_range,
        function_path: record.function_path,
        range: sample.range,
        num_instructions: record.num_instructions,
        num_tokens: tokens.len() as usize,
        num_lines: body_lines.len() as usize,
        direction,
        num_relevant_tokens: rel.len() as usize,
        num_relevant_lines: rel_lines.len() as usize,
        line_iqr: iqr_spec(rel_lines, body_lines) as usize,
    }
}

/// The three records of one sample, in direction order: forward,
/// backward, both.
pub open spec fn sample_results(
    record: FunctionRecord,
    tokens: Seq<crate::span::Token>,
    starts: Seq<usize>,
    sample: SliceSample,
) -> Seq<EvalResult> {
    seq![
        result_spec(record, tokens, starts, sample, EvalDirection::Forward),
        result_spec(record, tokens, starts, sample, EvalDirection::Backward),
        result_spec(record, tokens, starts, sample, EvalDirection::Both),
    ]
}

/// All records of one body, sample by sample in input order.
pub open spec fn expected_results(
    record: FunctionRecord,
    tokens: Seq<crate::span::Token>,
    starts: Seq<usize>,
    samples: Seq<SliceSample>,
) -> Seq<EvalResult>
    decreases samples.len(),
{
    if samples.len() == 0 {
        Seq::empty()
    } else {
        expected_results(record, tokens, starts, samples.drop_last()) + sample_results(
            record,
            tokens,
            starts,
            samples.last(),
        )
    }
}

/// The orchestrator's per-run state: how many bodies were counted so
/// far, how many the counter found in all, and the accumulated records.
pub struct EvalCrateVisitor {
    pub count: usize,
    pub total: usize,
    pub eval_results: Vec<EvalResult>,
}

impl EvalCrateVisitor {
    /// A fresh visitor for a run over `total` counted bodies.
    pub fn new(total: usize) -> (r: EvalCrateVisitor)
        ensures
            r.count == 0,
            r.total == total,
            r.eval_results@ == Seq::<EvalResult>::empty(),
    {
        EvalCrateVisitor { count: 0, total, eval_results: Vec::new() }
    }

    /// Dispatch over the item kind: only free functions and methods are
    /// triaged; trait items and foreign items have no body and change
    /// nothing.
    pub fn visit(
        &mut self,
        kind: BodyKind,
        from_expansion: bool,
        has_source: bool,
        range_ok: bool,
        path: &String,
        selector: &Option<RunSelector>,
    ) -> (v: Option<BodyVerdict>)
        requires
            old(self).count < usize::MAX,
        ensures
            final(self).total == old(self).total,
            final(self).eval_results == old(self).eval_results,
            !has_analyzable_body(kind) ==> v is None && final(self).count == old(self).count,
            has_analyzable_body(kind) ==> v is Some && (v->0, final(self).count) == triage_spec(
                old(self).count,
                from_expansion,
                has_source,
                range_ok,
                path@,
                *selector,
            ),
    {
        match kind {
            BodyKind::Function => Some(
                self.triage(from_expansion, has_source, range_ok, path, selector),
            ),
            BodyKind::Method => Some(
                self.triage(from_expansion, has_source, range_ok, path, selector),
            ),
            BodyKind::TraitItem => None,
            BodyKind::ForeignItem => None,
        }
    }

    /// Applies the skip and filter policy to one discovered body and
    /// assigns its 1-based index, before any analysis cost is spent.
    pub fn triage(
        &mut self,
        from_expansion: bool,
        has_source: bool,
        range_ok: bool,
        path: &String,
        selector: &Option<RunSelector>,
    ) -> (v: BodyVerdict)
        requires
            old(self).count < usize::MAX,
        ensures
            final(self).total == old(self).total,
            final(self).eval_results == old(self).eval_results,
            (v, final(self).count) == triage_spec(
                old(self).count,
                from_expansion,
                has_source,
                range_ok,
                path@,
                *selector,
            ),
    {
        if from_expansion {
            return BodyVerdict::SkipExpansion;
        }
        if !has_source {
            return BodyVerdict::SkipNoSource;
        }
        self.count = self.count + 1;
        if !range_ok {
            return BodyVerdict::SkipRange;
        }
        match selector {
            Some(sel) => {
                if !matches_selector(sel, self.count, path) {
                    return BodyVerdict::Filtered;
                }
            },
            None => {},
        }
        BodyVerdict::Analyze
    }

    /// Analyzes one accepted body: for every slice sample, in input
    /// order, appends the three direction records — forward, backward,
    /// then both — each carrying the function's aggregates and the
    /// sample's relevant-token count, relevant-line count and line
    /// dispersion.
    pub fn analyze(
        &mut self,
        record: &FunctionRecord,
        tokens: &Tokens,
        table: &LineTable,
        samples: &Vec<SliceSample>,
    )
        requires
            tokens.wf(),
            table.wf(),
            record.num_tokens == tokens@.len(),
            record.num_lines == line_seq(tokens@, table.starts@).len(),
        ensures
            final(self).count == old(self).count,
            final(self).total == old(self).total,
            final(self).eval_results@ == old(self).eval_results@ + expected_results(
                *record,
                tokens@,
                table.starts@,
                samples@,
            ),
    {
        let ghost results0 = self.eval_results@;
        let ghost count0 = self.count;
        let ghost total0 = self.total;
        let ghost starts = table.starts@;
        proof {
            tokens.lemma_wf_spans();
        }
        let body_lines = line_set(tokens.all(), table);
        let num_lines = body_lines.len();
        let num_tokens = tokens.total_tokens();

        let mut si: usize = 0;
        proof {
            assert(samples@.subrange(0, 0) =~= Seq::<SliceSample>::empty());
        }
        while si < samples.len()
            invariant
                si <= samples@.len(),
                tokens.wf(),
                table.wf(),
                starts == table.starts@,
                record.num_tokens == tokens@.len(),
                record.num_lines == line_seq(tokens@, starts).len(),
                num_tokens == tokens@.len(),
                num_lines == line_seq(tokens@, starts).len(),
                body_lines@ == line_seq(tokens@, starts),
                self.count == count0,
                self.total == total0,
                self.eval_results@ == results0 + expected_results(
                    *record,
                    tokens@,
                    starts,
                    samples@.subrange(0, si as int),
                ),
            decreases samples@.len() - si,
        {
            let sample = &samples[si];
            let ghost results_before = self.eval_results@;
            self.analyze_direction(record, tokens, table, &body_lines, sample, EvalDirection::Forward);
            self.analyze_direction(
                record,
                tokens,
                table,
                &body_lines,
                sample,
                EvalDirection::Backward,
            );
            self.analyze_direction(record, tokens, table, &body_lines, sample, EvalDirection::Both);
            proof {
                let sub = samples@.subrange(0, si as int);
                let sub1 = samples@.subrange(0, si + 1 as int);
                assert(sub1.drop_last() =~= sub);
                assert(sub1.last() == samples@[si as int]);
                assert(self.eval_results@ =~= results0 + expected_results(
                    *record,
                    tokens@,
                    starts,
                    sub1,
                ));
            }
            si = si + 1;
        }
        proof {
            assert(samples@.subrange(0, samples@.len() as int) =~= samples@);
        }
    }

    /// Computes and appends one direction's record for one sample.
    fn analyze_direction(
        &mut self,
        record: &FunctionRecord,
        tokens: &Tokens,
        table: &LineTable,
        body_lines: &Vec<usize>,
        sample: &SliceSample,
        direction: EvalDirection,
    )
        requires
            tokens.wf(),
            table.wf(),
            record.num_tokens == tokens@.len(),
            record.num_lines == line_seq(tokens@, table.starts@).len(),
            body_lines@ == line_seq(tokens@, table.starts@),
        ensures
            final(self).count == old(self).count,
            final(self).total == old(self).total,
            final(self).eval_results@ == old(self).eval_results@.push(
                result_spec(*record, tokens@, table.starts@, *sample, direction),
            ),
    {
        let qs = ranges_for(sample, direction);
        let relevant_tokens = tokens.query(&qs);
        proof {
            tokens.lemma_wf_spans();
            assert forall|k: int|
                0 <= k < relevant_tokens@.len() implies (#[trigger] relevant_tokens@[k].span).wf() by {
                assert(relevant_tokens@.contains(relevant_tokens@[k]));
                let m = choose|m: int|
                    0 <= m < tokens@.len() && tokens@[m] == relevant_tokens@[k];
            }
        }
        let num_relevant_tokens = relevant_tokens.len();
        let relevant_lines = line_set(&relevant_tokens, table);
        let num_relevant_lines = relevant_lines.len();
        let iqr = line_iqr(&relevant_lines, body_lines);
        let out = EvalResult {
            function_range: record.function_range,
            function_path: record.function_path.clone(),
            range: sample.range,
            num_instructions: record.num_instructions,
            num_tokens: record.num_tokens,
            num_lines: record.num_lines,
            direction,
            num_relevant_tokens,
            num_relevant_lines,
            line_iqr: iqr,
        };
        self.eval_results.push(out);
    }
}

/// Counts the bodies a run will visit, so that progress can be reported
/// against a known total: a body counts when its span is not the result
/// of macro expansion and its source text is retrievable.
pub struct ItemCounter {
    pub count: usize,
}

impl ItemCounter {
    /// Counts one body with the same pre-index skip policy as the
    /// orchestrator.
    pub fn analyze(&mut self, from_expansion: bool, has_source: bool)
        requires
            old(self).count < usize::MAX,
        ensures
            final(self).count == if !from_expansion && has_source {
                (old(self).count + 1) as usize
            } else {
                old(self).count
            },
    {
        if from_expansion {
            return ;
        }
        if !has_source {
            return ;
        }
        self.count = self.count + 1;
    }

    /// Dispatch over the item kind: only function and method bodies are
    /// counted; trait items and foreign items carry no body.
    pub fn visit(&mut self, kind: BodyKind, from_expansion: bool, has_source: bool)
        requires
            old(self).count < usize::MAX,
        ensures
            final(self).count == if has_analyzable_body(kind) && !from_expansion && has_source {
                (old(self).count + 1) as usize
            } else {
                old(self).count
            },
    {
        match kind {
            BodyKind::Function => self.analyze(from_expansion, has_source),
            BodyKind::Method => self.analyze(from_expansion, has_source),
            BodyKind::TraitItem => {},
            BodyKind::ForeignItem => {},
        }
    }
}

} // verus!
