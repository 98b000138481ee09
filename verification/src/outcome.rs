//! The result of a run, put together from what each file adds.

use vstd::prelude::*;
use crate::engine::{FileOutcome, FileOutcomeRows};
use crate::formulas::{lemma_coverage_bounded, spec_coverage};
use crate::metric::{
    spec_ignored, spec_rows, IgnoredEntry, IgnoredRow, MetricResult, MetricRow,
};
use crate::options::Sort;
use crate::order::{
    lemma_chained_bag, lemma_map_rearranged, lemma_bag_rearranged,
    lemma_rearranged_without_last, spec_chained, spec_index_of,
};
use crate::rank::{insert_ranked, spec_rank};

verus! {

/// Coverage of the project as a whole: the covered and the coverable lines
/// of all rows of the metric table, pooled, and their ratio in millionths.
/// The ratio is 0 where the table has no coverable line.
#[derive(Clone, Copy, Debug, PartialEq, Eq, Structural)]
pub struct ProjectCoverage {
    pub covered: u128,
    pub coverable: u128,
    pub ratio: u32,
}

/// The result of a run.
#[derive(Debug, PartialEq, Eq)]
pub struct ScanOutcome {
    /// A row for every unit that was scored, in the order of the files.
    pub metrics: Vec<MetricResult>,
    /// An entry for every unit that was left out, in the order of the files.
    pub ignored: Vec<IgnoredEntry>,
    /// The rows marked complex, ranked.
    pub complex: Vec<MetricResult>,
    pub project_coverage: ProjectCoverage,
}

/// The mathematical model of a [`ScanOutcome`].
pub struct ScanOutcomeRows {
    pub metrics: Seq<MetricRow>,
    pub ignored: Seq<IgnoredRow>,
    pub complex: Seq<MetricRow>,
    pub project_coverage: ProjectCoverage,
}

impl View for ScanOutcome {
    type V = ScanOutcomeRows;

    open spec fn view(&self) -> ScanOutcomeRows {
        ScanOutcomeRows {
            metrics: spec_rows(self.metrics@),
            ignored: spec_ignored(self.ignored@),
            complex: spec_rows(self.complex@),
            project_coverage: self.project_coverage,
        }
    }
}

/// The models of a sequence of file outcomes.
pub open spec fn spec_outcomes(results: Seq<FileOutcome>) -> Seq<FileOutcomeRows> {
    results.map_values(|r: FileOutcome| r@)
}

/// The covered lines of all rows together.
pub open spec fn spec_total_covered(rows: Seq<MetricRow>) -> nat
    decreases rows.len(),
{
    if rows.len() == 0 {
        0
    } else {
        spec_total_covered(rows.drop_last()) + rows.last().covered as nat
    }
}

/// The coverable lines of all rows together.
pub open spec fn spec_total_coverable(rows: Seq<MetricRow>) -> nat
    decreases rows.len(),
{
    if rows.len() == 0 {
        0
    } else {
        spec_total_coverable(rows.drop_last()) + rows.last().ploc as nat
    }
}

/// Coverage of the project: pooled over the rows, not averaged.
pub open spec fn spec_project(rows: Seq<MetricRow>) -> ProjectCoverage {
    ProjectCoverage {
        covered: spec_total_covered(rows) as u128,
        coverable: spec_total_coverable(rows) as u128,
        ratio: spec_coverage(spec_total_coverable(rows), spec_total_covered(rows)) as u32,
    }
}

/// The rows marked complex, in their order.
pub open spec fn spec_complex(rows: Seq<MetricRow>) -> Seq<MetricRow>
    decreases rows.len(),
{
    if rows.len() == 0 {
        Seq::empty()
    } else if rows.last().is_complex {
        spec_complex(rows.drop_last()).push(rows.last())
    } else {
        spec_complex(rows.drop_last())
    }
}

/// All that the files add, one file after the other.
pub open spec fn spec_gather(results: Seq<FileOutcomeRows>) -> FileOutcomeRows
    decreases results.len(),
{
    if results.len() == 0 {
        FileOutcomeRows { metrics: Seq::empty(), ignored: Seq::empty() }
    } else {
        let before = spec_gather(results.drop_last());
        FileOutcomeRows {
            metrics: before.metrics + results.last().metrics,
            ignored: before.ignored + results.last().ignored,
        }
    }
}

/// The result that the outcomes of the files make: the rows and the
/// entries of all files in the order of the files, the complex rows ranked
/// by `sort`, and the coverage pooled over the rows.
pub open spec fn spec_outcome(results: Seq<FileOutcomeRows>, sort: Sort) -> ScanOutcomeRows {
    let all = spec_gather(results);
    ScanOutcomeRows {
        metrics: all.metrics,
        ignored: all.ignored,
        complex: spec_rank(spec_complex(all.metrics), sort),
        project_coverage: spec_project(all.metrics),
    }
}

/// The coverage of the project in `outcome` is exactly the pooled coverage
/// of its rows: nothing was cut off in adding up.
pub open spec fn spec_pooled(outcome: ScanOutcomeRows) -> bool {
    &&& outcome.project_coverage.covered == spec_total_covered(outcome.metrics)
    &&& outcome.project_coverage.coverable == spec_total_coverable(outcome.metrics)
    &&& outcome.project_coverage.ratio == spec_coverage(
        spec_total_coverable(outcome.metrics),
        spec_total_covered(outcome.metrics),
    )
    &&& outcome.project_coverage.ratio <= 1_000_000
}

/// No row covers more lines than it has, so the project does not either,
/// and the pooled sums stay within what the number of rows allows.
pub proof fn lemma_totals_bounded(rows: Seq<MetricRow>)
    requires
        forall|i: int| 0 <= i < rows.len() ==> (#[trigger] rows[i]).covered <= rows[i].ploc,
    ensures
        spec_total_covered(rows) <= spec_total_coverable(rows),
        spec_total_coverable(rows) <= rows.len() * 0xffff_ffff,
    decreases rows.len(),
{
    if rows.len() > 0 {
        assert forall|i: int| 0 <= i < rows.drop_last().len() implies (
        #[trigger] rows.drop_last()[i]).covered <= rows.drop_last()[i].ploc by {
            assert(rows.drop_last()[i] == rows[i]);
        }
        lemma_totals_bounded(rows.drop_last());
        assert(rows.last() == rows[rows.len() - 1]);
        assert((rows.len() - 1) * 0xffff_ffff + 0xffff_ffff == rows.len() * 0xffff_ffff)
            by (nonlinear_arith);
    }
}

/// Pools the coverage of the rows.
pub fn project_coverage(rows: &Vec<MetricResult>) -> (r: ProjectCoverage)
    ensures
        r == spec_project(spec_rows(rows@)),
        r.covered == spec_total_covered(spec_rows(rows@)),
        r.coverable == spec_total_coverable(spec_rows(rows@)),
        r.ratio == spec_coverage(
            spec_total_coverable(spec_rows(rows@)),
            spec_total_covered(spec_rows(rows@)),
        ),
        r.ratio <= 1_000_000,
{
    let ghost all = spec_rows(rows@);
    let mut covered: u128 = 0;
    let mut coverable: u128 = 0;
    let mut i: usize = 0;
    proof {
        assert(all.take(0) == Seq::<MetricRow>::empty());
    }
    while i < rows.len()
        invariant
            i <= rows.len(),
            all == spec_rows(rows@),
            covered == spec_total_covered(all.take(i as int)),
            coverable == spec_total_coverable(all.take(i as int)),
            covered <= i * 0xffff_ffff,
            coverable <= i * 0xffff_ffff,
        decreases rows.len() - i,
    {
        proof {
            assert(all.take(i + 1).drop_last() == all.take(i as int));
            assert(all.take(i + 1).last() == rows[i as int]@);
            assert(i * 0xffff_ffff + 0xffff_ffff == (i + 1) * 0xffff_ffff) by (nonlinear_arith);
            assert((i + 1) * 0xffff_ffff <= 0xffff_ffff_ffff_ffff * 0xffff_ffff)
                by (nonlinear_arith)
                requires
                    i + 1 <= 0xffff_ffff_ffff_ffff,
            ;
        }
        covered = covered + rows[i].covered as u128;
        coverable = coverable + rows[i].ploc as u128;
        i += 1;
    }
    proof {
        assert(all.take(rows.len() as int) == all);
        lemma_coverage_bounded(coverable as nat, covered as nat);
    }
    let ratio = pooled_ratio(coverable, covered);
    ProjectCoverage { covered, coverable, ratio }
}

/// The ratio of two pooled sums, in millionths.
fn pooled_ratio(coverable: u128, covered: u128) -> (ratio: u32)
    requires
        coverable <= 0xffff_ffff_ffff_ffff * 0xffff_ffff,
        covered <= 0xffff_ffff_ffff_ffff * 0xffff_ffff,
    ensures
        ratio == spec_coverage(coverable as nat, covered as nat),
        ratio <= 1_000_000,
{
    proof {
        lemma_coverage_bounded(coverable as nat, covered as nat);
    }
    if coverable == 0 {
        return 0;
    }
    let counted: u128 = if covered > coverable {
        coverable
    } else {
        covered
    };
    ((counted * 1_000_000) / coverable) as u32
}

/// The ranked copies of the rows marked complex.
pub fn complex_rows(rows: &Vec<MetricResult>, sort: Sort) -> (complex: Vec<MetricResult>)
    ensures
        spec_rows(complex@) == spec_rank(spec_complex(spec_rows(rows@)), sort),
{
    let ghost all = spec_rows(rows@);
    let mut complex: Vec<MetricResult> = Vec::new();
    let mut i: usize = 0;
    proof {
        assert(all.take(0) == Seq::<MetricRow>::empty());
        assert(spec_rows(complex@) =~= Seq::<MetricRow>::empty());
    }
    while i < rows.len()
        invariant
            i <= rows.len(),
            all == spec_rows(rows@),
            spec_rows(complex@) == spec_rank(spec_complex(all.take(i as int)), sort),
        decreases rows.len() - i,
    {
        proof {
            assert(all.take(i + 1).drop_last() == all.take(i as int));
            assert(all.take(i + 1).last() == rows[i as int]@);
            let marked = spec_complex(all.take(i as int));
            assert(marked.push(rows[i as int]@).drop_last() == marked);
        }
        if rows[i].is_complex {
            insert_ranked(&mut complex, rows[i].duplicate(), sort);
        }
        i += 1;
    }
    proof {
        assert(all.take(rows.len() as int) == all);
    }
    complex
}

/// Puts the result of a run together from the outcomes of its files, taken
/// in the order of the files.
pub fn assemble(results: &Vec<FileOutcome>, sort: Sort) -> (outcome: ScanOutcome)
    ensures
        outcome@ == spec_outcome(spec_outcomes(results@), sort),
        spec_pooled(outcome@),
{
    let ghost all = spec_outcomes(results@);
    let mut metrics: Vec<MetricResult> = Vec::new();
    let mut ignored: Vec<IgnoredEntry> = Vec::new();
    let mut i: usize = 0;
    proof {
        assert(all.take(0) == Seq::<FileOutcomeRows>::empty());
        assert(spec_rows(metrics@) =~= Seq::<MetricRow>::empty());
        assert(spec_ignored(ignored@) =~= Seq::<IgnoredRow>::empty());
    }
    while i < results.len()
        invariant
            i <= results.len(),
            all == spec_outcomes(results@),
            spec_rows(metrics@) == spec_gather(all.take(i as int)).metrics,
            spec_ignored(ignored@) == spec_gather(all.take(i as int)).ignored,
        decreases results.len() - i,
    {
        let file = &results[i];
        let ghost rows_before = spec_rows(metrics@);
        let ghost ignored_before = spec_ignored(ignored@);
        proof {
            assert(all.take(i + 1).drop_last() == all.take(i as int));
            assert(all.take(i + 1).last() == file@);
        }
        let mut j: usize = 0;
        while j < file.metrics.len()
            invariant
                j <= file.metrics.len(),
                spec_rows(metrics@) == rows_before + spec_rows(file.metrics@).take(j as int),
            decreases file.metrics.len() - j,
        {
            let row = file.metrics[j].duplicate();
            proof {
                let part = spec_rows(file.metrics@);
                assert(part.take(j + 1) == part.take(j as int).push(part[j as int]));
                assert(spec_rows(metrics@.push(row)) =~= spec_rows(metrics@).push(row@));
            }
            metrics.push(row);
            j += 1;
        }
        let mut k: usize = 0;
        while k < file.ignored.len()
            invariant
                k <= file.ignored.len(),
                spec_ignored(ignored@) == ignored_before + spec_ignored(file.ignored@).take(
                    k as int,
                ),
            decreases file.ignored.len() - k,
        {
            let entry = file.ignored[k].duplicate();
            proof {
                let part = spec_ignored(file.ignored@);
                assert(part.take(k + 1) == part.take(k as int).push(part[k as int]));
                assert(spec_ignored(ignored@.push(entry)) =~= spec_ignored(ignored@).push(entry@));
            }
            ignored.push(entry);
            k += 1;
        }
        proof {
            let rows = spec_rows(file.metrics@);
            let entries = spec_ignored(file.ignored@);
            assert(rows.take(rows.len() as int) == rows);
            assert(entries.take(entries.len() as int) == entries);
        }
        i += 1;
    }
    proof {
        assert(all.take(results.len() as int) == all);
    }
    let complex = complex_rows(&metrics, sort);
    let project_coverage = project_coverage(&metrics);
    ScanOutcome { metrics, ignored, complex, project_coverage }
}

/// A row stands in the gathered table exactly where some file adds it.
pub proof fn lemma_gathered_rows(results: Seq<FileOutcomeRows>, row: MetricRow)
    ensures
        spec_gather(results).metrics.contains(row) <==> exists|i: int|
            0 <= i < results.len() && (#[trigger] results[i]).metrics.contains(row),
    decreases results.len(),
{
    if results.len() > 0 {
        let before = results.drop_last();
        lemma_gathered_rows(before, row);
        let a = spec_gather(before).metrics;
        let b = results.last().metrics;
        lemma_contains_add(a, b, row);
        if spec_gather(results).metrics.contains(row) {
            if a.contains(row) {
                let i = choose|i: int|
                    0 <= i < before.len() && (#[trigger] before[i]).metrics.contains(row);
                assert(results[i] == before[i]);
            } else {
                assert(results[results.len() - 1].metrics.contains(row));
            }
        }
        if exists|i: int| 0 <= i < results.len() && (#[trigger] results[i]).metrics.contains(row) {
            let i = choose|i: int|
                0 <= i < results.len() && (#[trigger] results[i]).metrics.contains(row);
            if i < before.len() {
                assert(before[i] == results[i]);
            }
        }
    }
}

/// An entry stands in the gathered list exactly where some file adds it.
pub proof fn lemma_gathered_ignored(results: Seq<FileOutcomeRows>, entry: IgnoredRow)
    ensures
        spec_gather(results).ignored.contains(entry) <==> exists|i: int|
            0 <= i < results.len() && (#[trigger] results[i]).ignored.contains(entry),
    decreases results.len(),
{
    if results.len() > 0 {
        let before = results.drop_last();
        lemma_gathered_ignored(before, entry);
        let a = spec_gather(before).ignored;
        let b = results.last().ignored;
        lemma_contains_add(a, b, entry);
        if spec_gather(results).ignored.contains(entry) {
            if a.contains(entry) {
                let i = choose|i: int|
                    0 <= i < before.len() && (#[trigger] before[i]).ignored.contains(entry);
                assert(results[i] == before[i]);
            } else {
                assert(results[results.len() - 1].ignored.contains(entry));
            }
        }
        if exists|i: int|
            0 <= i < results.len() && (#[trigger] results[i]).ignored.contains(entry) {
            let i = choose|i: int|
                0 <= i < results.len() && (#[trigger] results[i]).ignored.contains(entry);
            if i < before.len() {
                assert(before[i] == results[i]);
            }
        }
    }
}

/// What two sequences hold together is what either holds.
pub proof fn lemma_contains_add<A>(a: Seq<A>, b: Seq<A>, x: A)
    ensures
        (a + b).contains(x) <==> a.contains(x) || b.contains(x),
{
    if (a + b).contains(x) {
        let i = choose|i: int| 0 <= i < (a + b).len() && (a + b)[i] == x;
        if i < a.len() {
            assert(a[i] == x);
        } else {
            assert(b[i - a.len()] == x);
        }
    }
    if a.contains(x) {
        let i = choose|i: int| 0 <= i < a.len() && a[i] == x;
        assert((a + b)[i] == x);
    }
    if b.contains(x) {
        let i = choose|i: int| 0 <= i < b.len() && b[i] == x;
        assert((a + b)[a.len() + i] == x);
    }
}

/// The complex rows are the rows of the table that are marked complex.
pub proof fn lemma_complex_members(rows: Seq<MetricRow>, row: MetricRow)
    ensures
        spec_complex(rows).contains(row) <==> rows.contains(row) && row.is_complex,
    decreases rows.len(),
{
    if rows.len() > 0 {
        let before = rows.drop_last();
        lemma_complex_members(before, row);
        assert(rows == before.push(rows.last()));
        lemma_contains_add(before, seq![rows.last()], row);
        assert(before.push(rows.last()) == before + seq![rows.last()]);
        lemma_contains_add(spec_complex(before), seq![rows.last()], row);
        assert(spec_complex(before).push(rows.last()) == spec_complex(before) + seq![
            rows.last(),
        ]);
        assert(seq![rows.last()].contains(row) <==> row == rows.last()) by {
            if row == rows.last() {
                assert(seq![rows.last()][0] == row);
            }
        }
    }
}

/// The list of complex rows of a result holds the rows of the table that
/// are marked complex and no others, each as often as the table holds it,
/// and it is in order: highest score first, ties by path and name.
pub proof fn lemma_complex_list(results: Seq<FileOutcomeRows>, sort: Sort)
    ensures
        crate::rank::spec_sorted(spec_outcome(results, sort).complex, sort),
        spec_outcome(results, sort).complex.to_multiset() == spec_complex(
            spec_outcome(results, sort).metrics,
        ).to_multiset(),
        forall|row: MetricRow| #[trigger]
            spec_outcome(results, sort).complex.contains(row) <==> spec_outcome(
                results,
                sort,
            ).metrics.contains(row) && row.is_complex,
{
    broadcast use vstd::seq_lib::group_to_multiset_ensures;

    let outcome = spec_outcome(results, sort);
    let marked = spec_complex(outcome.metrics);
    crate::rank::lemma_rank_sorted(marked, sort);
    crate::rank::lemma_rank_permutes(marked, sort);
    assert forall|row: MetricRow| #[trigger]
        outcome.complex.contains(row) <==> outcome.metrics.contains(row) && row.is_complex by {
        lemma_complex_members(outcome.metrics, row);
        assert(outcome.complex.contains(row) <==> outcome.complex.to_multiset().count(row) > 0);
        assert(marked.contains(row) <==> marked.to_multiset().count(row) > 0);
    }
}

/// Pooled sums add up over tables put one behind the other.
pub proof fn lemma_totals_add(a: Seq<MetricRow>, b: Seq<MetricRow>)
    ensures
        spec_total_covered(a + b) == spec_total_covered(a) + spec_total_covered(b),
        spec_total_coverable(a + b) == spec_total_coverable(a) + spec_total_coverable(b),
    decreases b.len(),
{
    if b.len() == 0 {
        assert(a + b == a);
    } else {
        assert((a + b).drop_last() == a + b.drop_last());
        assert((a + b).last() == b.last());
        lemma_totals_add(a, b.drop_last());
    }
}

/// The coverage of the project is pooled over the rows of the table and
/// over nothing else: one more file adds the covered and the coverable
/// lines of its rows, and a file that is left out adds nothing.
pub proof fn lemma_project_pooled(results: Seq<FileOutcomeRows>, one_more: FileOutcomeRows)
    ensures
        spec_total_covered(spec_gather(results.push(one_more)).metrics) == spec_total_covered(
            spec_gather(results).metrics,
        ) + spec_total_covered(one_more.metrics),
        spec_total_coverable(spec_gather(results.push(one_more)).metrics)
            == spec_total_coverable(spec_gather(results).metrics) + spec_total_coverable(
            one_more.metrics,
        ),
        one_more.metrics.len() == 0 ==> spec_project(spec_gather(results.push(one_more)).metrics)
            == spec_project(spec_gather(results).metrics),
{
    assert(results.push(one_more).drop_last() == results);
    lemma_totals_add(spec_gather(results).metrics, one_more.metrics);
    if one_more.metrics.len() == 0 {
        assert(spec_gather(results).metrics + one_more.metrics == spec_gather(results).metrics);
    }
}

/// The gathered rows are the rows of the files, one file behind the
/// other, and so are the gathered entries.
proof fn lemma_gather_chained(results: Seq<FileOutcomeRows>)
    ensures
        spec_gather(results).metrics == spec_chained(
            results.map_values(|r: FileOutcomeRows| r.metrics),
        ),
        spec_gather(results).ignored == spec_chained(
            results.map_values(|r: FileOutcomeRows| r.ignored),
        ),
    decreases results.len(),
{
    let rows = results.map_values(|r: FileOutcomeRows| r.metrics);
    let entries = results.map_values(|r: FileOutcomeRows| r.ignored);
    if results.len() > 0 {
        lemma_gather_chained(results.drop_last());
        assert(rows.drop_last() =~= results.drop_last().map_values(
            |r: FileOutcomeRows| r.metrics,
        ));
        assert(entries.drop_last() =~= results.drop_last().map_values(
            |r: FileOutcomeRows| r.ignored,
        ));
    }
}

/// The complex rows are what the rows give one behind the other, each
/// giving itself if it is marked and nothing if it is not.
proof fn lemma_complex_chained(rows: Seq<MetricRow>)
    ensures
        spec_complex(rows) == spec_chained(
            rows.map_values(
                |r: MetricRow|
                    if r.is_complex {
                        seq![r]
                    } else {
                        Seq::empty()
                    },
            ),
        ),
    decreases rows.len(),
{
    let f = |r: MetricRow|
        if r.is_complex {
            seq![r]
        } else {
            Seq::empty()
        };
    let parts = rows.map_values(f);
    if rows.len() > 0 {
        lemma_complex_chained(rows.drop_last());
        assert(parts.drop_last() =~= rows.drop_last().map_values(f));
        let before = spec_chained(parts.drop_last());
        if rows.last().is_complex {
            assert(before + seq![rows.last()] =~= before.push(rows.last()));
        } else {
            assert(before + Seq::<MetricRow>::empty() =~= before);
        }
    }
}

/// Taking a row out takes its lines out of the pooled sums.
proof fn lemma_totals_remove(rows: Seq<MetricRow>, i: int)
    requires
        0 <= i < rows.len(),
    ensures
        spec_total_covered(rows) == spec_total_covered(rows.remove(i)) + rows[i].covered,
        spec_total_coverable(rows) == spec_total_coverable(rows.remove(i)) + rows[i].ploc,
    decreases rows.len(),
{
    if i == rows.len() - 1 {
        assert(rows.remove(i) =~= rows.drop_last());
    } else {
        lemma_totals_remove(rows.drop_last(), i);
        assert(rows.remove(i).drop_last() =~= rows.drop_last().remove(i));
        assert(rows.remove(i).last() == rows.last());
    }
}

/// The pooled sums do not depend on the order of the rows.
pub proof fn lemma_totals_rearranged(a: Seq<MetricRow>, b: Seq<MetricRow>)
    requires
        a.to_multiset() == b.to_multiset(),
    ensures
        spec_total_covered(a) == spec_total_covered(b),
        spec_total_coverable(a) == spec_total_coverable(b),
    decreases a.len(),
{
    broadcast use vstd::seq_lib::group_to_multiset_ensures;

    if a.len() == 0 {
        assert(a.to_multiset().len() == a.len());
        assert(b.to_multiset().len() == b.len());
    } else {
        lemma_rearranged_without_last(a, b);
        let i = spec_index_of(b, a.last());
        lemma_totals_rearranged(a.drop_last(), b.remove(i));
        lemma_totals_remove(b, i);
    }
}

/// The result does not depend on the order in which the files were found,
/// but for the order of its lists: outcomes taken in another order give the
/// same rows, the same entries and the same complex rows, each as often,
/// and the same coverage of the project.
pub proof fn lemma_any_file_order(a: Seq<FileOutcomeRows>, b: Seq<FileOutcomeRows>, sort: Sort)
    requires
        a.to_multiset() == b.to_multiset(),
    ensures
        spec_outcome(a, sort).metrics.to_multiset() == spec_outcome(b, sort).metrics.to_multiset(),
        spec_outcome(a, sort).ignored.to_multiset() == spec_outcome(b, sort).ignored.to_multiset(),
        spec_outcome(a, sort).complex.to_multiset() == spec_outcome(b, sort).complex.to_multiset(),
        spec_outcome(a, sort).project_coverage == spec_outcome(b, sort).project_coverage,
{
    let rows = |r: FileOutcomeRows| r.metrics;
    let entries = |r: FileOutcomeRows| r.ignored;
    lemma_gather_chained(a);
    lemma_gather_chained(b);
    lemma_map_rearranged(a, b, rows);
    lemma_map_rearranged(a, b, entries);
    lemma_bag_rearranged(a.map_values(rows), b.map_values(rows));
    lemma_bag_rearranged(a.map_values(entries), b.map_values(entries));
    lemma_chained_bag(a.map_values(rows));
    lemma_chained_bag(b.map_values(rows));
    lemma_chained_bag(a.map_values(entries));
    lemma_chained_bag(b.map_values(entries));
    let ma = spec_gather(a).metrics;
    let mb = spec_gather(b).metrics;
    lemma_totals_rearranged(ma, mb);
    let marked = |r: MetricRow|
        if r.is_complex {
            seq![r]
        } else {
            Seq::empty()
        };
    lemma_complex_chained(ma);
    lemma_complex_chained(mb);
    lemma_map_rearranged(ma, mb, marked);
    lemma_bag_rearranged(ma.map_values(marked), mb.map_values(marked));
    lemma_chained_bag(ma.map_values(marked));
    lemma_chained_bag(mb.map_values(marked));
    crate::rank::lemma_rank_permutes(spec_complex(ma), sort);
    crate::rank::lemma_rank_permutes(spec_complex(mb), sort);
}

} // verus!
