//! The rows of a run's result: a unit with its scores, or a unit left out.

use vstd::prelude::*;
use crate::formulas::Scores;
use crate::options::Sort;
use crate::text::copy_bytes;

verus! {

/// The function that a row stands for, within its file.
#[derive(Debug, PartialEq, Eq)]
pub struct FunctionId {
    pub name: Vec<u8>,
    /// First line, counted from 1.
    pub start_line: u64,
    /// Last line, counted from 1.
    pub end_line: u64,
}

/// The mathematical model of a [`FunctionId`].
pub struct FunctionRow {
    pub name: Seq<u8>,
    pub start_line: u64,
    pub end_line: u64,
}

impl View for FunctionId {
    type V = FunctionRow;

    open spec fn view(&self) -> FunctionRow {
        FunctionRow { name: self.name@, start_line: self.start_line, end_line: self.end_line }
    }
}

/// One file or one function with its measures and scores.
#[derive(Debug, PartialEq, Eq)]
pub struct MetricResult {
    /// Path of the file, as the caller gave it.
    pub path: Vec<u8>,
    /// The function, where the row stands for one.
    pub function: Option<FunctionId>,
    /// Lines of source.
    pub sloc: u32,
    /// Lines that can be covered; never zero.
    pub ploc: u32,
    /// Lines that ran, counted up to `ploc`.
    pub covered: u32,
    /// The complexity under the metric of the run.
    pub complexity: u32,
    /// `covered / ploc` in millionths.
    pub coverage: u32,
    /// The four scores, in millionths.
    pub scores: Scores,
    /// Whether any score lies above its bound.
    pub is_complex: bool,
}

/// The mathematical model of a [`MetricResult`].
pub struct MetricRow {
    pub path: Seq<u8>,
    pub function: Option<FunctionRow>,
    pub sloc: u32,
    pub ploc: u32,
    pub covered: u32,
    pub complexity: u32,
    pub coverage: u32,
    pub scores: Scores,
    pub is_complex: bool,
}

impl View for MetricResult {
    type V = MetricRow;

    open spec fn view(&self) -> MetricRow {
        MetricRow {
            path: self.path@,
            function: match self.function {
                Some(f) => Some(f@),
                None => None,
            },
            sloc: self.sloc,
            ploc: self.ploc,
            covered: self.covered,
            complexity: self.complexity,
            coverage: self.coverage,
            scores: self.scores,
            is_complex: self.is_complex,
        }
    }
}

/// The models of a sequence of results.
pub open spec fn spec_rows(results: Seq<MetricResult>) -> Seq<MetricRow> {
    results.map_values(|m: MetricResult| m@)
}

/// Why a unit has no row in the metric table.
#[derive(Clone, Copy, Debug, PartialEq, Eq, Structural)]
pub enum IgnoreReason {
    /// The coverage report does not hold the file.
    NoCoverage,
    /// The source could not be read or parsed.
    Unparsable,
    /// None of the unit's lines can be covered.
    ZeroCoverable,
}

/// A unit left out of the metric table.
#[derive(Debug, PartialEq, Eq)]
pub struct IgnoredEntry {
    /// Path of the file, as the caller gave it.
    pub path: Vec<u8>,
    /// Name of the function, where a single function was left out.
    pub function: Option<Vec<u8>>,
    pub reason: IgnoreReason,
}

/// The mathematical model of an [`IgnoredEntry`].
pub struct IgnoredRow {
    pub path: Seq<u8>,
    pub function: Option<Seq<u8>>,
    pub reason: IgnoreReason,
}

impl View for IgnoredEntry {
    type V = IgnoredRow;

    open spec fn view(&self) -> IgnoredRow {
        IgnoredRow {
            path: self.path@,
            function: match self.function {
                Some(name) => Some(name@),
                None => None,
            },
            reason: self.reason,
        }
    }
}

/// The models of a sequence of ignored entries.
pub open spec fn spec_ignored(entries: Seq<IgnoredEntry>) -> Seq<IgnoredRow> {
    entries.map_values(|e: IgnoredEntry| e@)
}

/// The score of a row that `sort` names.
pub open spec fn spec_key(row: MetricRow, sort: Sort) -> u128 {
    match sort {
        Sort::WccPlain => row.scores.wcc_plain,
        Sort::WccQuantized => row.scores.wcc_quantized,
        Sort::Crap => row.scores.crap,
        Sort::Skunk => row.scores.skunk,
    }
}

/// The name by which a row is told from others of its file: the function's
/// name, or the empty name for a whole file.
pub open spec fn spec_name(row: MetricRow) -> Seq<u8> {
    match row.function {
        Some(f) => f.name,
        None => Seq::empty(),
    }
}

impl MetricResult {
    /// The score that `sort` names.
    pub fn key(&self, sort: Sort) -> (k: u128)
        ensures
            k == spec_key(self@, sort),
    {
        match sort {
            Sort::WccPlain => self.scores.wcc_plain,
            Sort::WccQuantized => self.scores.wcc_quantized,
            Sort::Crap => self.scores.crap,
            Sort::Skunk => self.scores.skunk,
        }
    }

    /// A copy of the row.
    pub fn duplicate(&self) -> (r: MetricResult)
        ensures
            r@ == self@,
    {
        MetricResult {
            path: copy_bytes(&self.path),
            function: match &self.function {
                Some(f) => Some(
                    FunctionId {
                        name: copy_bytes(&f.name),
                        start_line: f.start_line,
                        end_line: f.end_line,
                    },
                ),
                None => None,
            },
            sloc: self.sloc,
            ploc: self.ploc,
            covered: self.covered,
            complexity: self.complexity,
            coverage: self.coverage,
            scores: self.scores,
            is_complex: self.is_complex,
        }
    }
}

impl IgnoredEntry {
    /// A copy of the entry.
    pub fn duplicate(&self) -> (r: IgnoredEntry)
        ensures
            r@ == self@,
    {
        IgnoredEntry {
            path: copy_bytes(&self.path),
            function: match &self.function {
                Some(name) => Some(copy_bytes(name)),
                None => None,
            },
            reason: self.reason,
        }
    }
}

} // verus!
