//! What a run makes of one source file.

use vstd::prelude::*;
use crate::classify::{is_complex, spec_is_complex};
use crate::coverage::{
    covered_lines, span_bounds, spec_covered, spec_lookup, spec_span, CoverageReport, FileLines,
};
use crate::formulas::{coverage, spec_counted, spec_coverage, spec_scores, Scores};
use crate::metric::{
    spec_ignored, spec_rows, FunctionId, FunctionRow, IgnoreReason, IgnoredEntry, IgnoredRow,
    MetricResult, MetricRow,
};
use crate::options::{Complexity, Mode, Sort};
use crate::paths::spec_normalize;
use crate::source::{FunctionSpan, Measure, SourceFile};
use crate::text::copy_bytes;
use crate::thresholds::Thresholds;

verus! {

/// The choices of a run, taken once and handed to every part of it.
#[derive(Clone, Copy, Debug, PartialEq, Eq, Structural)]
pub struct RunConfig {
    pub complexity: Complexity,
    pub mode: Mode,
    pub thresholds: Thresholds,
    pub sort: Sort,
    /// Number of workers asked for; a run uses at least one.
    pub workers: usize,
}

/// What one file adds to the result of a run.
#[derive(Debug, PartialEq, Eq)]
pub struct FileOutcome {
    pub metrics: Vec<MetricResult>,
    pub ignored: Vec<IgnoredEntry>,
}

/// The mathematical model of a [`FileOutcome`].
pub struct FileOutcomeRows {
    pub metrics: Seq<MetricRow>,
    pub ignored: Seq<IgnoredRow>,
}

impl View for FileOutcome {
    type V = FileOutcomeRows;

    open spec fn view(&self) -> FileOutcomeRows {
        FileOutcomeRows { metrics: spec_rows(self.metrics@), ignored: spec_ignored(self.ignored@) }
    }
}

/// The row of a unit with coverable lines: its covered lines counted up to
/// the coverable ones, the ratio of the two, and the scores and the mark
/// that follow from complexity and ratio.
pub open spec fn spec_row(
    path: Seq<u8>,
    function: Option<FunctionRow>,
    measure: Measure,
    lines: Seq<Option<u64>>,
    kind: Complexity,
    thresholds: Thresholds,
) -> MetricRow {
    let covered = spec_counted(measure.ploc as nat, spec_covered(lines));
    let cov = spec_coverage(measure.ploc as nat, covered);
    let comp = kind.spec_pick(measure);
    let scores = spec_scores(comp as nat, cov);
    MetricRow {
        path,
        function,
        sloc: measure.sloc,
        ploc: measure.ploc,
        covered: covered as u32,
        complexity: comp,
        coverage: cov as u32,
        scores,
        is_complex: spec_is_complex(scores, thresholds),
    }
}

/// What a unit adds: its row, or an entry that leaves it out where none of
/// its lines can be covered.
pub open spec fn spec_unit(
    path: Seq<u8>,
    function: Option<FunctionRow>,
    measure: Measure,
    lines: Seq<Option<u64>>,
    kind: Complexity,
    thresholds: Thresholds,
) -> FileOutcomeRows {
    if measure.ploc == 0 {
        FileOutcomeRows {
            metrics: Seq::empty(),
            ignored: seq![
                IgnoredRow {
                    path,
                    function: match function {
                        Some(f) => Some(f.name),
                        None => None,
                    },
                    reason: IgnoreReason::ZeroCoverable,
                },
            ],
        }
    } else {
        FileOutcomeRows {
            metrics: seq![spec_row(path, function, measure, lines, kind, thresholds)],
            ignored: Seq::empty(),
        }
    }
}

/// The identity of a function as a row carries it.
pub open spec fn spec_function_row(f: FunctionSpan) -> FunctionRow {
    FunctionRow { name: f.name@, start_line: f.start_line, end_line: f.end_line }
}

/// What the functions of a file add, one after the other; each is judged by
/// the lines of the file within its span.
pub open spec fn spec_functions(
    path: Seq<u8>,
    functions: Seq<FunctionSpan>,
    lines: Seq<Option<u64>>,
    kind: Complexity,
    thresholds: Thresholds,
) -> FileOutcomeRows
    decreases functions.len(),
{
    if functions.len() == 0 {
        FileOutcomeRows { metrics: Seq::empty(), ignored: Seq::empty() }
    } else {
        let before = spec_functions(path, functions.drop_last(), lines, kind, thresholds);
        let f = functions.last();
        let unit = spec_unit(
            path,
            Some(spec_function_row(f)),
            f.measure,
            spec_span(lines, f.start_line as nat, f.end_line as nat),
            kind,
            thresholds,
        );
        FileOutcomeRows {
            metrics: before.metrics + unit.metrics,
            ignored: before.ignored + unit.ignored,
        }
    }
}

/// An outcome that leaves the whole file out.
pub open spec fn spec_left_out(path: Seq<u8>, reason: IgnoreReason) -> FileOutcomeRows {
    FileOutcomeRows {
        metrics: Seq::empty(),
        ignored: seq![IgnoredRow { path, function: None, reason }],
    }
}

/// What a file adds to a run. A file that the report does not hold is left
/// out for want of coverage data, whatever else is true of it; one that the
/// report holds but that could not be analysed is left out as unparsable;
/// one none of whose lines can be covered is left out for that. Any other
/// adds its row in a run by files, and its functions one by one in a run by
/// functions.
pub open spec fn spec_evaluate(
    file: SourceFile,
    report: Seq<FileLines>,
    mode: Mode,
    kind: Complexity,
    thresholds: Thresholds,
) -> FileOutcomeRows {
    let found = spec_lookup(report, spec_normalize(file.path@));
    if !(0 <= found < report.len()) {
        spec_left_out(file.path@, IgnoreReason::NoCoverage)
    } else {
        match file.analysis {
            None => spec_left_out(file.path@, IgnoreReason::Unparsable),
            Some(analysis) => if analysis.measure.ploc == 0 {
                spec_left_out(file.path@, IgnoreReason::ZeroCoverable)
            } else {
                match mode {
                    Mode::Files => spec_unit(
                        file.path@,
                        None,
                        analysis.measure,
                        report[found].lines,
                        kind,
                        thresholds,
                    ),
                    Mode::Functions => spec_functions(
                        file.path@,
                        analysis.functions@,
                        report[found].lines,
                        kind,
                        thresholds,
                    ),
                }
            },
        }
    }
}

/// Computes the row of a unit with coverable lines from the lines
/// `lines[from..to]`.
pub fn compute_row(
    path: &Vec<u8>,
    function: Option<FunctionId>,
    measure: &Measure,
    lines: &[Option<u64>],
    from: usize,
    to: usize,
    kind: Complexity,
    thresholds: &Thresholds,
) -> (row: MetricResult)
    requires
        from <= to <= lines.len(),
    ensures
        row@ == spec_row(
            path@,
            match function {
                Some(f) => Some(f@),
                None => None,
            },
            *measure,
            lines@.subrange(from as int, to as int),
            kind,
            *thresholds,
        ),
{
    let ran = covered_lines(lines, from, to);
    let covered: u32 = if ran > measure.ploc as usize {
        measure.ploc
    } else {
        ran as u32
    };
    let cov = coverage(measure.ploc as u64, covered as u64);
    let comp = kind.pick(measure);
    let scores = Scores::compute(comp, cov);
    let flagged = is_complex(&scores, thresholds);
    proof {
        let part = lines@.subrange(from as int, to as int);
        assert(spec_counted(measure.ploc as nat, spec_covered(part)) == covered);
        assert(spec_counted(measure.ploc as nat, covered as nat) == covered);
    }
    MetricResult {
        path: copy_bytes(path),
        function,
        sloc: measure.sloc,
        ploc: measure.ploc,
        covered,
        complexity: comp,
        coverage: cov,
        scores,
        is_complex: flagged,
    }
}

/// An outcome that leaves the whole file out.
pub fn left_out(path: &Vec<u8>, reason: IgnoreReason) -> (r: FileOutcome)
    ensures
        r@ == spec_left_out(path@, reason),
{
    let mut ignored: Vec<IgnoredEntry> = Vec::new();
    ignored.push(IgnoredEntry { path: copy_bytes(path), function: None, reason });
    let r = FileOutcome { metrics: Vec::new(), ignored };
    proof {
        assert(r@.metrics =~= Seq::<MetricRow>::empty());
        assert(r@.ignored =~= seq![r.ignored@[0]@]);
    }
    r
}

/// Adds one unit, judged by the lines `lines[from..to]`, to an outcome.
pub fn add_unit(
    outcome: &mut FileOutcome,
    path: &Vec<u8>,
    function: Option<FunctionId>,
    measure: &Measure,
    lines: &[Option<u64>],
    from: usize,
    to: usize,
    kind: Complexity,
    thresholds: &Thresholds,
)
    requires
        from <= to <= lines.len(),
    ensures
        final(outcome)@.metrics == old(outcome)@.metrics + spec_unit(
            path@,
            match function {
                Some(f) => Some(f@),
                None => None,
            },
            *measure,
            lines@.subrange(from as int, to as int),
            kind,
            *thresholds,
        ).metrics,
        final(outcome)@.ignored == old(outcome)@.ignored + spec_unit(
            path@,
            match function {
                Some(f) => Some(f@),
                None => None,
            },
            *measure,
            lines@.subrange(from as int, to as int),
            kind,
            *thresholds,
        ).ignored,
{
    if measure.ploc == 0 {
        let name = match function {
            Some(f) => Some(f.name),
            None => None,
        };
        let entry = IgnoredEntry {
            path: copy_bytes(path),
            function: name,
            reason: IgnoreReason::ZeroCoverable,
        };
        proof {
            assert(spec_ignored(outcome.ignored@.push(entry)) =~= spec_ignored(
                outcome.ignored@,
            ) + seq![entry@]);
            assert(spec_rows(outcome.metrics@) + Seq::<MetricRow>::empty() =~= spec_rows(
                outcome.metrics@,
            ));
        }
        outcome.ignored.push(entry);
    } else {
        let row = compute_row(path, function, measure, lines, from, to, kind, thresholds);
        proof {
            assert(spec_rows(outcome.metrics@.push(row)) =~= spec_rows(outcome.metrics@)
                + seq![row@]);
            assert(spec_ignored(outcome.ignored@) + Seq::<IgnoredRow>::empty() =~= spec_ignored(
                outcome.ignored@,
            ));
        }
        outcome.metrics.push(row);
    }
}

/// What a file adds to a run.
pub fn evaluate(file: &SourceFile, report: &CoverageReport, config: &RunConfig) -> (r: FileOutcome)
    ensures
        r@ == spec_evaluate(*file, report@, config.mode, config.complexity, config.thresholds),
{
    let found = match report.lookup(file.path.as_slice()) {
        Some(i) => i,
        None => {
            return left_out(&file.path, IgnoreReason::NoCoverage);
        },
    };
    let analysis = match &file.analysis {
        Some(a) => a,
        None => {
            return left_out(&file.path, IgnoreReason::Unparsable);
        },
    };
    if analysis.measure.ploc == 0 {
        return left_out(&file.path, IgnoreReason::ZeroCoverable);
    }
    let lines = report.file(found).lines.as_slice();
    let mut outcome = FileOutcome { metrics: Vec::new(), ignored: Vec::new() };
    proof {
        assert(outcome@.metrics =~= Seq::<MetricRow>::empty());
        assert(outcome@.ignored =~= Seq::<IgnoredRow>::empty());
    }
    match config.mode {
        Mode::Files => {
            proof {
                assert(lines@.subrange(0, lines.len() as int) == lines@);
            }
            add_unit(
                &mut outcome,
                &file.path,
                None,
                &analysis.measure,
                lines,
                0,
                lines.len(),
                config.complexity,
                &config.thresholds,
            );
            proof {
                let unit = spec_unit(
                    file.path@,
                    None,
                    analysis.measure,
                    lines@,
                    config.complexity,
                    config.thresholds,
                );
                assert(Seq::<MetricRow>::empty() + unit.metrics =~= unit.metrics);
                assert(Seq::<IgnoredRow>::empty() + unit.ignored =~= unit.ignored);
            }
        },
        Mode::Functions => {
            let ghost all = analysis.functions@;
            let mut i: usize = 0;
            proof {
                assert(all.take(0) == Seq::<FunctionSpan>::empty());
            }
            while i < analysis.functions.len()
                invariant
                    i <= analysis.functions.len(),
                    all == analysis.functions@,
                    outcome@ == spec_functions(
                        file.path@,
                        all.take(i as int),
                        lines@,
                        config.complexity,
                        config.thresholds,
                    ),
                decreases analysis.functions.len() - i,
            {
                let f = &analysis.functions[i];
                let (from, to) = span_bounds(lines, f.start_line, f.end_line);
                let id = FunctionId {
                    name: copy_bytes(&f.name),
                    start_line: f.start_line,
                    end_line: f.end_line,
                };
                proof {
                    assert(all.take(i + 1).drop_last() == all.take(i as int));
                    assert(all.take(i + 1).last() == *f);
                    assert(id@ == spec_function_row(*f));
                }
                add_unit(
                    &mut outcome,
                    &file.path,
                    Some(id),
                    &f.measure,
                    lines,
                    from,
                    to,
                    config.complexity,
                    &config.thresholds,
                );
                i += 1;
            }
            proof {
                assert(all.take(analysis.functions.len() as int) == all);
            }
        },
    }
    outcome
}

/// A file that the report does not hold adds no row, and exactly one
/// entry, which names the want of coverage data.
pub proof fn lemma_absent_file(
    file: SourceFile,
    report: Seq<FileLines>,
    mode: Mode,
    kind: Complexity,
    thresholds: Thresholds,
)
    requires
        forall|i: int| 0 <= i < report.len() ==> report[i].path != spec_normalize(file.path@),
    ensures
        spec_evaluate(file, report, mode, kind, thresholds) == spec_left_out(
            file.path@,
            IgnoreReason::NoCoverage,
        ),
{
    crate::coverage::lemma_lookup(report, spec_normalize(file.path@));
}

/// A file none of whose lines can be covered adds no row, and exactly one
/// entry: for want of coverage data where the report does not hold the
/// file, else for want of coverable lines.
pub proof fn lemma_zero_coverable_file(
    file: SourceFile,
    report: Seq<FileLines>,
    mode: Mode,
    kind: Complexity,
    thresholds: Thresholds,
)
    requires
        file.analysis matches Some(a) && a.measure.ploc == 0,
    ensures
        spec_evaluate(file, report, mode, kind, thresholds) == spec_left_out(
            file.path@,
            if 0 <= spec_lookup(report, spec_normalize(file.path@)) < report.len() {
                IgnoreReason::ZeroCoverable
            } else {
                IgnoreReason::NoCoverage
            },
        ),
{
}

/// Every row has coverable lines, a ratio of at most one, and the scores
/// and the mark that its complexity and ratio give.
pub proof fn lemma_row_sound(
    path: Seq<u8>,
    function: Option<FunctionRow>,
    measure: Measure,
    lines: Seq<Option<u64>>,
    kind: Complexity,
    thresholds: Thresholds,
)
    ensures
        spec_row(path, function, measure, lines, kind, thresholds).covered <= measure.ploc,
        spec_row(path, function, measure, lines, kind, thresholds).coverage <= 1_000_000,
        spec_row(path, function, measure, lines, kind, thresholds).coverage == spec_coverage(
            measure.ploc as nat,
            spec_row(path, function, measure, lines, kind, thresholds).covered as nat,
        ),
{
    crate::formulas::lemma_coverage_bounded(
        measure.ploc as nat,
        spec_counted(measure.ploc as nat, spec_covered(lines)),
    );
}

/// What holds of every row that is made for a file: it carries the path of
/// the file, has coverable lines and no more covered lines than those, and
/// its ratio, scores and mark are those that the formulas give.
pub open spec fn spec_row_sound(row: MetricRow, path: Seq<u8>, thresholds: Thresholds) -> bool {
    &&& row.path == path
    &&& row.ploc > 0
    &&& row.covered <= row.ploc
    &&& row.coverage == spec_coverage(row.ploc as nat, row.covered as nat)
    &&& row.coverage <= 1_000_000
    &&& row.scores == spec_scores(row.complexity as nat, row.coverage as nat)
    &&& row.is_complex == spec_is_complex(row.scores, thresholds)
}

/// The rows that the functions of a file add are sound.
proof fn lemma_function_rows(
    path: Seq<u8>,
    functions: Seq<FunctionSpan>,
    lines: Seq<Option<u64>>,
    kind: Complexity,
    thresholds: Thresholds,
    row: MetricRow,
)
    requires
        spec_functions(path, functions, lines, kind, thresholds).metrics.contains(row),
    ensures
        spec_row_sound(row, path, thresholds),
    decreases functions.len(),
{
    if functions.len() > 0 {
        let before = spec_functions(path, functions.drop_last(), lines, kind, thresholds);
        let f = functions.last();
        let span = spec_span(lines, f.start_line as nat, f.end_line as nat);
        let unit = spec_unit(path, Some(spec_function_row(f)), f.measure, span, kind, thresholds);
        crate::outcome::lemma_contains_add(before.metrics, unit.metrics, row);
        if before.metrics.contains(row) {
            lemma_function_rows(path, functions.drop_last(), lines, kind, thresholds, row);
        } else {
            let i = choose|i: int| 0 <= i < unit.metrics.len() && unit.metrics[i] == row;
            lemma_row_sound(path, Some(spec_function_row(f)), f.measure, span, kind, thresholds);
            crate::formulas::lemma_coverage_bounded(
                f.measure.ploc as nat,
                spec_counted(f.measure.ploc as nat, spec_covered(span)),
            );
        }
    } else {
        let none = spec_functions(path, functions, lines, kind, thresholds).metrics;
        let i = choose|i: int| 0 <= i < none.len() && none[i] == row;
    }
}

/// Every row that a file adds is sound, and is added only where the report
/// holds the file.
pub proof fn lemma_evaluated_rows(
    file: SourceFile,
    report: Seq<FileLines>,
    mode: Mode,
    kind: Complexity,
    thresholds: Thresholds,
    row: MetricRow,
)
    requires
        spec_evaluate(file, report, mode, kind, thresholds).metrics.contains(row),
    ensures
        spec_row_sound(row, file.path@, thresholds),
        0 <= spec_lookup(report, spec_normalize(file.path@)) < report.len(),
        file.analysis is Some,
{
    let found = spec_lookup(report, spec_normalize(file.path@));
    let rows = spec_evaluate(file, report, mode, kind, thresholds).metrics;
    let i = choose|i: int| 0 <= i < rows.len() && rows[i] == row;
    if 0 <= found < report.len() && file.analysis is Some {
        let analysis = file.analysis->Some_0;
        if analysis.measure.ploc != 0 {
            match mode {
                Mode::Files => {
                    lemma_row_sound(
                        file.path@,
                        None,
                        analysis.measure,
                        report[found].lines,
                        kind,
                        thresholds,
                    );
                    crate::formulas::lemma_coverage_bounded(
                        analysis.measure.ploc as nat,
                        spec_counted(
                            analysis.measure.ploc as nat,
                            spec_covered(report[found].lines),
                        ),
                    );
                },
                Mode::Functions => {
                    lemma_function_rows(
                        file.path@,
                        analysis.functions@,
                        report[found].lines,
                        kind,
                        thresholds,
                        row,
                    );
                },
            }
        }
    }
}

} // verus!
