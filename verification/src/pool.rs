//! Handing files out to workers and taking their outcomes back.
//!
//! A run numbers its files. Workers draw numbers from a [`WorkQueue`], work
//! each file on their own, and hand the outcome with its number to a
//! [`Aggregator`], which is the only writer of the result. The result does
//! not depend on which worker drew which number, nor on the order in which
//! outcomes come back.

use vstd::prelude::*;
use crate::coverage::{lemma_lookup, spec_lookup, CoverageReport, FileLines};
use crate::engine::{
    evaluate, lemma_absent_file, lemma_evaluated_rows, lemma_zero_coverable_file, spec_evaluate,
    spec_row_sound, FileOutcome, FileOutcomeRows, RunConfig,
};
use crate::metric::{IgnoreReason, IgnoredRow, MetricRow};
use crate::options::{Complexity, Mode, Sort};
use crate::order::lemma_map_rearranged;
use crate::outcome::{
    assemble, lemma_any_file_order, lemma_complex_list, lemma_gathered_ignored,
    lemma_gathered_rows, spec_outcome, spec_outcomes, spec_pooled, ScanOutcome, ScanOutcomeRows,
};
use crate::paths::spec_normalize;
use crate::source::SourceFile;
use crate::thresholds::Thresholds;

verus! {

/// Number of workers that a run uses: the number asked for, but at least one.
pub open spec fn spec_worker_total(requested: usize) -> usize {
    if requested == 0 {
        1
    } else {
        requested
    }
}

/// Number of workers that a run uses.
pub fn worker_total(requested: usize) -> (n: usize)
    ensures
        n == spec_worker_total(requested),
        n >= 1,
{
    if requested == 0 {
        1
    } else {
        requested
    }
}

/// The numbers of the files still to be worked, drawn in rising order.
#[derive(Debug)]
pub struct WorkQueue {
    next: usize,
    total: usize,
}

impl WorkQueue {
    /// The number that the next draw gives, if it is below [`Self::spec_total`].
    pub closed spec fn spec_next(&self) -> usize {
        self.next
    }

    /// The number of files.
    pub closed spec fn spec_total(&self) -> usize {
        self.total
    }

    /// A queue of the numbers `0` to `total - 1`.
    pub fn new(total: usize) -> (q: WorkQueue)
        ensures
            q.spec_next() == 0,
            q.spec_total() == total,
    {
        WorkQueue { next: 0, total }
    }

    /// Draws the next number; `None` once every number has been drawn. A
    /// number is drawn once only.
    pub fn take(&mut self) -> (r: Option<usize>)
        ensures
            final(self).spec_total() == old(self).spec_total(),
            old(self).spec_next() < old(self).spec_total() ==> r == Some(old(self).spec_next())
                && final(self).spec_next() == old(self).spec_next() + 1,
            old(self).spec_next() >= old(self).spec_total() ==> r is None
                && final(self).spec_next() == old(self).spec_next(),
    {
        if self.next < self.total {
            let drawn = self.next;
            self.next = drawn + 1;
            Some(drawn)
        } else {
            None
        }
    }

    /// Number of files not yet drawn.
    pub fn remaining(&self) -> (n: usize)
        ensures
            n == if self.spec_next() < self.spec_total() {
                self.spec_total() - self.spec_next()
            } else {
                0
            },
    {
        if self.next < self.total {
            self.total - self.next
        } else {
            0
        }
    }
}

/// The outcomes that have come back, each at the number of its file.
#[derive(Debug)]
pub struct Aggregator {
    slots: Vec<Option<FileOutcome>>,
}

/// The model of what has come back at one number.
pub open spec fn spec_slot(slot: Option<FileOutcome>) -> Option<FileOutcomeRows> {
    match slot {
        Some(outcome) => Some(outcome@),
        None => None,
    }
}

impl View for Aggregator {
    type V = Seq<Option<FileOutcomeRows>>;

    closed spec fn view(&self) -> Seq<Option<FileOutcomeRows>> {
        self.slots@.map_values(|slot: Option<FileOutcome>| spec_slot(slot))
    }
}

/// What handing in `outcome` at `index` makes of the slots: the outcome
/// stands at its number if the number is one of the run and nothing stands
/// there yet; else nothing changes.
pub open spec fn spec_submit(
    slots: Seq<Option<FileOutcomeRows>>,
    index: int,
    outcome: FileOutcomeRows,
) -> Seq<Option<FileOutcomeRows>> {
    if 0 <= index < slots.len() && slots[index] is None {
        slots.update(index, Some(outcome))
    } else {
        slots
    }
}

/// What a series of hand-ins makes of the slots.
pub open spec fn spec_submit_all(
    slots: Seq<Option<FileOutcomeRows>>,
    handed: Seq<(int, FileOutcomeRows)>,
) -> Seq<Option<FileOutcomeRows>>
    decreases handed.len(),
{
    if handed.len() == 0 {
        slots
    } else {
        spec_submit(spec_submit_all(slots, handed.drop_last()), handed.last().0, handed.last().1)
    }
}

/// Slots at which nothing has come back.
pub open spec fn spec_vacant(total: nat) -> Seq<Option<FileOutcomeRows>> {
    Seq::new(total, |i: int| None)
}

/// Slots at which everything has come back.
pub open spec fn spec_filled(results: Seq<FileOutcomeRows>) -> Seq<Option<FileOutcomeRows>> {
    Seq::new(results.len(), |i: int| Some(results[i]))
}

/// Whether something has come back at every number.
pub open spec fn spec_complete(slots: Seq<Option<FileOutcomeRows>>) -> bool {
    forall|i: int| 0 <= i < slots.len() ==> (#[trigger] slots[i]) is Some
}

/// What has come back, number by number, once everything has.
pub open spec fn spec_contents(slots: Seq<Option<FileOutcomeRows>>) -> Seq<FileOutcomeRows> {
    Seq::new(slots.len(), |i: int| slots[i]->Some_0)
}

/// The outcomes of the files of a run, each worked on its own.
pub open spec fn spec_results(
    files: Seq<SourceFile>,
    report: Seq<FileLines>,
    mode: Mode,
    kind: Complexity,
    thresholds: Thresholds,
) -> Seq<FileOutcomeRows> {
    Seq::new(files.len(), |i: int| spec_evaluate(files[i], report, mode, kind, thresholds))
}

/// The result of a run over `files`.
pub open spec fn spec_scan(
    files: Seq<SourceFile>,
    report: Seq<FileLines>,
    config: RunConfig,
) -> ScanOutcomeRows {
    spec_outcome(
        spec_results(files, report, config.mode, config.complexity, config.thresholds),
        config.sort,
    )
}

impl Aggregator {
    /// An aggregator for a run of `total` files, with nothing handed in.
    pub fn new(total: usize) -> (c: Aggregator)
        ensures
            c@ == spec_vacant(total as nat),
    {
        let mut slots: Vec<Option<FileOutcome>> = Vec::with_capacity(total);
        let mut i: usize = 0;
        while i < total
            invariant
                i <= total,
                slots.len() == i,
                forall|j: int| 0 <= j < i ==> slots[j] is None,
            decreases total - i,
        {
            slots.push(None);
            i += 1;
        }
        let c = Aggregator { slots };
        proof {
            assert(c@ =~= spec_vacant(total as nat));
        }
        c
    }

    /// Number of files of the run.
    pub fn len(&self) -> (n: usize)
        ensures
            n == self@.len(),
    {
        self.slots.len()
    }

    /// Hands in the outcome of the file numbered `index`. Returns whether
    /// it was taken: a number outside the run, or one whose outcome is in
    /// already, changes nothing.
    pub fn submit(&mut self, index: usize, outcome: FileOutcome) -> (taken: bool)
        ensures
            final(self)@ == spec_submit(old(self)@, index as int, outcome@),
            taken == (index < old(self)@.len() && old(self)@[index as int] is None),
    {
        if index < self.slots.len() && self.slots[index].is_none() {
            proof {
                assert(self.slots@.update(index as int, Some(outcome)).map_values(
                    |slot: Option<FileOutcome>| spec_slot(slot),
                ) =~= self@.update(index as int, Some(outcome@)));
            }
            self.slots.set(index, Some(outcome));
            true
        } else {
            false
        }
    }

    /// Whether the outcome of every file is in.
    pub fn is_complete(&self) -> (r: bool)
        ensures
            r == spec_complete(self@),
    {
        let mut i: usize = 0;
        while i < self.slots.len()
            invariant
                i <= self.slots.len(),
                forall|j: int| 0 <= j < i ==> self@[j] is Some,
            decreases self.slots.len() - i,
        {
            if self.slots[i].is_none() {
                assert(self@[i as int] is None);
                return false;
            }
            assert(self@[i as int] is Some);
            i += 1;
        }
        true
    }

    /// The result of the run, once the outcome of every file is in; `None`
    /// before that.
    pub fn finish(self, sort: Sort) -> (r: Option<ScanOutcome>)
        ensures
            r is Some == spec_complete(self@),
            r matches Some(outcome) ==> outcome@ == spec_outcome(spec_contents(self@), sort)
                && spec_pooled(outcome@),
    {
        let ghost model = self@;
        let mut results: Vec<FileOutcome> = Vec::with_capacity(self.slots.len());
        let mut slots = self.slots;
        let ghost total = slots.len();
        // Outcomes are taken from the back and put in order afterwards.
        let mut taken: Vec<FileOutcome> = Vec::with_capacity(slots.len());
        while slots.len() > 0
            invariant
                model == self@,
                slots.len() <= total,
                taken.len() == total - slots.len(),
                model.len() == total,
                forall|j: int| 0 <= j < slots.len() ==> spec_slot(#[trigger] slots[j]) == model[j],
                forall|j: int|
                    0 <= j < taken.len() ==> model[total - 1 - j] == Some((#[trigger] taken[j])@),
            decreases slots.len(),
        {
            let ghost at = slots.len() - 1;
            assert(spec_slot(slots[at]) == model[at]);
            match slots.pop() {
                Some(Some(outcome)) => {
                    taken.push(outcome);
                },
                _ => {
                    assert(model[at] is None);
                    return None;
                },
            }
        }
        while taken.len() > 0
            invariant
                model == self@,
                taken.len() <= total,
                results.len() == total - taken.len(),
                model.len() == total,
                forall|j: int|
                    0 <= j < taken.len() ==> model[total - 1 - j] == Some((#[trigger] taken[j])@),
                forall|j: int|
                    0 <= j < results.len() ==> model[j] == Some((#[trigger] results[j])@),
            decreases taken.len(),
        {
            match taken.pop() {
                Some(outcome) => {
                    results.push(outcome);
                },
                None => {},
            }
        }
        let outcome = assemble(&results, sort);
        proof {
            assert forall|i: int| 0 <= i < model.len() implies (#[trigger] model[i]) is Some by {
                assert(model[i] == Some(results[i]@));
            }
            assert(spec_contents(model) =~= spec_outcomes(results@));
        }
        Some(outcome)
    }
}

/// Some hand-in carries the number `index`.
pub open spec fn spec_handed_in(handed: Seq<(int, FileOutcomeRows)>, index: int) -> bool {
    exists|k: int| 0 <= k < handed.len() && (#[trigger] handed[k]).0 == index
}

/// After a series of hand-ins, each of which carries the outcome of the
/// file of its number, exactly the numbers handed in are filled, each with
/// the outcome of its file.
proof fn lemma_submitted(results: Seq<FileOutcomeRows>, handed: Seq<(int, FileOutcomeRows)>)
    requires
        forall|k: int|
            0 <= k < handed.len() ==> 0 <= (#[trigger] handed[k]).0 < results.len() && handed[k].1
                == results[handed[k].0],
    ensures
        spec_submit_all(spec_vacant(results.len()), handed).len() == results.len(),
        forall|i: int|
            0 <= i < results.len() ==> #[trigger] spec_submit_all(
                spec_vacant(results.len()),
                handed,
            )[i] == if spec_handed_in(handed, i) {
                Some(results[i])
            } else {
                None
            },
    decreases handed.len(),
{
    let start = spec_vacant(results.len());
    if handed.len() > 0 {
        let before = handed.drop_last();
        assert forall|k: int| 0 <= k < before.len() implies 0 <= (#[trigger] before[k]).0
            < results.len() && before[k].1 == results[before[k].0] by {
            assert(before[k] == handed[k]);
        }
        lemma_submitted(results, before);
        let last = handed.last();
        assert(last == handed[handed.len() - 1]);
        assert forall|i: int| 0 <= i < results.len() implies #[trigger] spec_submit_all(
            start,
            handed,
        )[i] == if spec_handed_in(handed, i) {
            Some(results[i])
        } else {
            None
        } by {
            if spec_handed_in(before, i) {
                let k = choose|k: int| 0 <= k < before.len() && (#[trigger] before[k]).0 == i;
                assert(handed[k] == before[k]);
            }
            if spec_handed_in(handed, i) && !spec_handed_in(before, i) {
                let k = choose|k: int| 0 <= k < handed.len() && (#[trigger] handed[k]).0 == i;
                if k < before.len() {
                    assert(before[k] == handed[k]);
                }
            }
        }
    } else {
        assert forall|i: int| 0 <= i < results.len() implies !spec_handed_in(handed, i) by {
        }
    }
}

/// The collected outcomes do not depend on how the files were dealt out
/// nor on the order in which their outcomes came back: once the outcome of
/// every file has been handed in, in any order and by any number of
/// workers, each at the number of its file, the slots hold the outcomes in
/// the order of the files, and the result is that of working the files one
/// after the other. Handing an outcome in twice changes nothing.
pub proof fn lemma_any_order(
    results: Seq<FileOutcomeRows>,
    handed: Seq<(int, FileOutcomeRows)>,
    sort: Sort,
)
    requires
        forall|k: int|
            0 <= k < handed.len() ==> 0 <= (#[trigger] handed[k]).0 < results.len() && handed[k].1
                == results[handed[k].0],
        forall|i: int| 0 <= i < results.len() ==> spec_handed_in(handed, i),
    ensures
        spec_submit_all(spec_vacant(results.len()), handed) == spec_filled(results),
        spec_complete(spec_submit_all(spec_vacant(results.len()), handed)),
        spec_outcome(spec_contents(spec_submit_all(spec_vacant(results.len()), handed)), sort)
            == spec_outcome(results, sort),
{
    lemma_submitted(results, handed);
    let slots = spec_submit_all(spec_vacant(results.len()), handed);
    assert(slots =~= spec_filled(results));
    assert(spec_contents(slots) =~= results);
}

/// Works the files of a run one after the other, as a single worker does,
/// and returns the result.
pub fn scan(files: &Vec<SourceFile>, report: &CoverageReport, config: &RunConfig) -> (outcome:
    ScanOutcome)
    ensures
        outcome@ == spec_scan(files@, report@, *config),
        spec_pooled(outcome@),
{
    let ghost results = spec_results(
        files@,
        report@,
        config.mode,
        config.complexity,
        config.thresholds,
    );
    let mut queue = WorkQueue::new(files.len());
    let mut aggregator = Aggregator::new(files.len());
    let mut open = true;
    while open
        invariant
            queue.spec_total() == files.len(),
            queue.spec_next() <= files.len(),
            !open ==> queue.spec_next() == files.len(),
            results == spec_results(
                files@,
                report@,
                config.mode,
                config.complexity,
                config.thresholds,
            ),
            aggregator@.len() == files.len(),
            forall|j: int| 0 <= j < queue.spec_next() ==> aggregator@[j] == Some(results[j]),
            forall|j: int| queue.spec_next() <= j < files.len() ==> aggregator@[j] is None,
        decreases files.len() - queue.spec_next() + if open { 1int } else { 0int },
    {
        match queue.take() {
            Some(i) => {
                let outcome = evaluate(&files[i], report, config);
                aggregator.submit(i, outcome);
            },
            None => {
                open = false;
            },
        }
    }
    proof {
        assert(spec_contents(aggregator@) =~= results);
    }
    match aggregator.finish(config.sort) {
        Some(outcome) => outcome,
        None => {
            let none: Vec<FileOutcome> = Vec::new();
            assemble(&none, config.sort)
        },
    }
}

/// A file that the report does not hold stands among the ignored, for
/// want of coverage data, and no row of the table nor of the complex list
/// carries its path.
pub proof fn lemma_absent_file_ignored(
    files: Seq<SourceFile>,
    report: Seq<FileLines>,
    config: RunConfig,
    i: int,
)
    requires
        0 <= i < files.len(),
        forall|j: int| 0 <= j < report.len() ==> report[j].path != spec_normalize(files[i].path@),
    ensures
        spec_scan(files, report, config).ignored.contains(
            IgnoredRow { path: files[i].path@, function: None, reason: IgnoreReason::NoCoverage },
        ),
        forall|row: MetricRow| #[trigger]
            spec_scan(files, report, config).metrics.contains(row) ==> row.path != files[i].path@,
        forall|row: MetricRow| #[trigger]
            spec_scan(files, report, config).complex.contains(row) ==> row.path != files[i].path@,
{
    let results = spec_results(files, report, config.mode, config.complexity, config.thresholds);
    let entry = IgnoredRow {
        path: files[i].path@,
        function: None,
        reason: IgnoreReason::NoCoverage,
    };
    lemma_absent_file(files[i], report, config.mode, config.complexity, config.thresholds);
    lemma_lookup(report, spec_normalize(files[i].path@));
    assert(results[i].ignored[0] == entry);
    assert(results[i].ignored.contains(entry));
    lemma_gathered_ignored(results, entry);
    lemma_complex_list(results, config.sort);
    assert forall|row: MetricRow| #[trigger]
        spec_scan(files, report, config).metrics.contains(row) implies row.path
        != files[i].path@ by {
        lemma_gathered_rows(results, row);
        let j = choose|j: int|
            0 <= j < results.len() && (#[trigger] results[j]).metrics.contains(row);
        lemma_evaluated_rows(
            files[j],
            report,
            config.mode,
            config.complexity,
            config.thresholds,
            row,
        );
    }
}

/// A file none of whose lines can be covered stands among the ignored, and
/// every row of the table has coverable lines: no score is ever computed
/// over zero lines.
pub proof fn lemma_zero_coverable_ignored(
    files: Seq<SourceFile>,
    report: Seq<FileLines>,
    config: RunConfig,
    i: int,
)
    requires
        0 <= i < files.len(),
        files[i].analysis matches Some(a) && a.measure.ploc == 0,
    ensures
        spec_scan(files, report, config).ignored.contains(
            IgnoredRow {
                path: files[i].path@,
                function: None,
                reason: if 0 <= spec_lookup(report, spec_normalize(files[i].path@))
                    < report.len() {
                    IgnoreReason::ZeroCoverable
                } else {
                    IgnoreReason::NoCoverage
                },
            },
        ),
        forall|row: MetricRow| #[trigger]
            spec_scan(files, report, config).metrics.contains(row) ==> row.ploc > 0,
{
    let results = spec_results(files, report, config.mode, config.complexity, config.thresholds);
    lemma_zero_coverable_file(files[i], report, config.mode, config.complexity, config.thresholds);
    let entry = results[i].ignored[0];
    assert(results[i].ignored.contains(entry));
    lemma_gathered_ignored(results, entry);
    lemma_scanned_rows(files, report, config);
}

/// Every row of the table is sound: it is the row of a file that the
/// report holds, with coverable lines, a ratio of at most one, and the
/// scores and the mark that the formulas give.
pub proof fn lemma_scanned_rows(files: Seq<SourceFile>, report: Seq<FileLines>, config: RunConfig)
    ensures
        forall|row: MetricRow| #[trigger]
            spec_scan(files, report, config).metrics.contains(row) ==> exists|j: int|
                0 <= j < files.len() && spec_row_sound(
                    row,
                    (#[trigger] files[j]).path@,
                    config.thresholds,
                ),
        forall|row: MetricRow| #[trigger]
            spec_scan(files, report, config).metrics.contains(row) ==> row.ploc > 0 && row.covered
                <= row.ploc && row.coverage <= 1_000_000,
{
    let results = spec_results(files, report, config.mode, config.complexity, config.thresholds);
    assert forall|row: MetricRow| #[trigger]
        spec_scan(files, report, config).metrics.contains(row) implies (exists|j: int|
        0 <= j < files.len() && spec_row_sound(
            row,
            (#[trigger] files[j]).path@,
            config.thresholds,
        )) && row.ploc > 0 && row.covered <= row.ploc && row.coverage <= 1_000_000 by {
        lemma_gathered_rows(results, row);
        let j = choose|j: int|
            0 <= j < results.len() && (#[trigger] results[j]).metrics.contains(row);
        lemma_evaluated_rows(
            files[j],
            report,
            config.mode,
            config.complexity,
            config.thresholds,
            row,
        );
    }
}

/// The number of workers has no part in the result.
pub proof fn lemma_workers_irrelevant(
    files: Seq<SourceFile>,
    report: Seq<FileLines>,
    config: RunConfig,
    workers: usize,
)
    ensures
        spec_scan(files, report, config) == spec_scan(
            files,
            report,
            RunConfig {
                complexity: config.complexity,
                mode: config.mode,
                thresholds: config.thresholds,
                sort: config.sort,
                workers,
            },
        ),
{
}

/// The result does not depend on the order in which the files of the
/// project are found, but for the order of its lists: the same files in
/// another order give the same rows, the same entries and the same complex
/// rows, each as often, and the same coverage of the project.
pub proof fn lemma_scan_any_file_order(
    a: Seq<SourceFile>,
    b: Seq<SourceFile>,
    report: Seq<FileLines>,
    config: RunConfig,
)
    requires
        a.to_multiset() == b.to_multiset(),
    ensures
        spec_scan(a, report, config).metrics.to_multiset() == spec_scan(
            b,
            report,
            config,
        ).metrics.to_multiset(),
        spec_scan(a, report, config).ignored.to_multiset() == spec_scan(
            b,
            report,
            config,
        ).ignored.to_multiset(),
        spec_scan(a, report, config).complex.to_multiset() == spec_scan(
            b,
            report,
            config,
        ).complex.to_multiset(),
        spec_scan(a, report, config).project_coverage == spec_scan(
            b,
            report,
            config,
        ).project_coverage,
{
    let work = |file: SourceFile|
        spec_evaluate(file, report, config.mode, config.complexity, config.thresholds);
    let ra = spec_results(a, report, config.mode, config.complexity, config.thresholds);
    let rb = spec_results(b, report, config.mode, config.complexity, config.thresholds);
    assert(ra =~= a.map_values(work));
    assert(rb =~= b.map_values(work));
    lemma_map_rearranged(a, b, work);
    lemma_any_file_order(ra, rb, config.sort);
}

} // verus!
