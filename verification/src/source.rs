//! What the analysis of a source file hands to a run.

use vstd::prelude::*;
use crate::options::Complexity;

verus! {

/// The measures of one file or one function.
#[derive(Clone, Copy, Debug, PartialEq, Eq, Structural)]
pub struct Measure {
    /// Lines of source.
    pub sloc: u32,
    /// Lines that can be covered.
    pub ploc: u32,
    /// Cyclomatic complexity.
    pub cyclomatic: u32,
    /// Cognitive complexity.
    pub cognitive: u32,
}

/// A function found in a file.
#[derive(Debug, PartialEq, Eq)]
pub struct FunctionSpan {
    pub name: Vec<u8>,
    /// First line, counted from 1.
    pub start_line: u64,
    /// Last line, counted from 1.
    pub end_line: u64,
    pub measure: Measure,
}

/// What the analysis of a file found.
#[derive(Debug, PartialEq, Eq)]
pub struct Analysis {
    /// The measures of the file as a whole.
    pub measure: Measure,
    /// The functions of the file, in the order of the source.
    pub functions: Vec<FunctionSpan>,
}

/// A source file of the project.
#[derive(Debug, PartialEq, Eq)]
pub struct SourceFile {
    /// Path of the file.
    pub path: Vec<u8>,
    /// The analysis of the file; `None` where it could not be read or parsed.
    pub analysis: Option<Analysis>,
}

impl Complexity {
    /// The complexity of a unit under this metric.
    pub open spec fn spec_pick(self, measure: Measure) -> u32 {
        match self {
            Complexity::Cyclomatic => measure.cyclomatic,
            Complexity::Cognitive => measure.cognitive,
        }
    }

    /// The complexity of a unit under this metric.
    pub fn pick(&self, measure: &Measure) -> (comp: u32)
        ensures
            comp == self.spec_pick(*measure),
    {
        match self {
            Complexity::Cyclomatic => measure.cyclomatic,
            Complexity::Cognitive => measure.cognitive,
        }
    }
}

} // verus!
