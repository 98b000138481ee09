//! A whole run: from the text of a coverage report and the analysed files
//! of a project to the result.

use vstd::prelude::*;
use crate::coverage::{spec_report, CoverageReport, ReportError, SchemaError};
use crate::engine::RunConfig;
use crate::json::{json_document, Json, JsonValue};
use crate::options::{JsonFormat, Mode};
use crate::outcome::{spec_pooled, ScanOutcome};
use crate::pool::{scan, spec_scan};
use crate::source::SourceFile;

verus! {

/// The configuration `config` with its mode set to `mode`.
pub open spec fn spec_with_mode(config: RunConfig, mode: Mode) -> RunConfig {
    RunConfig {
        complexity: config.complexity,
        mode,
        thresholds: config.thresholds,
        sort: config.sort,
        workers: config.workers,
    }
}

/// What a run makes of a decoded report: the fault of the document under
/// the schema, or the result of scanning the files against the report.
pub open spec fn spec_run_ok(
    r: Result<ScanOutcome, SchemaError>,
    files: Seq<SourceFile>,
    doc: JsonValue,
    format: JsonFormat,
    config: RunConfig,
) -> bool {
    match spec_report(doc, format) {
        Err(e) => r matches Err(x) && x == e,
        Ok(lines) => r matches Ok(outcome) && outcome@ == spec_scan(files, lines, config)
            && spec_pooled(outcome@),
    }
}

/// What a run makes of the text of a report. A text that is no JSON
/// document, and a document that does not follow the schema, end the run
/// before any file is looked at.
pub open spec fn spec_run(
    r: Result<ScanOutcome, ReportError>,
    files: Seq<SourceFile>,
    text: Seq<u8>,
    format: JsonFormat,
    config: RunConfig,
) -> bool {
    match json_document(text) {
        None => r matches Err(ReportError::Json(_)),
        Some(doc) => match spec_report(doc, format) {
            Err(e) => r matches Err(ReportError::Schema(x)) && x == e,
            Ok(lines) => r matches Ok(outcome) && outcome@ == spec_scan(files, lines, config)
                && spec_pooled(outcome@),
        },
    }
}

/// Runs over the files against a decoded report.
pub fn run_document(
    files: &Vec<SourceFile>,
    doc: &Json,
    format: JsonFormat,
    config: &RunConfig,
) -> (r: Result<ScanOutcome, SchemaError>)
    ensures
        spec_run_ok(r, files@, doc@, format, *config),
{
    match CoverageReport::from_json(doc, format) {
        Err(e) => Err(e),
        Ok(report) => Ok(scan(files, &report, config)),
    }
}

/// Runs over the files against the text of a report, in the mode that the
/// configuration names.
pub fn run(files: &Vec<SourceFile>, text: &[u8], format: JsonFormat, config: &RunConfig) -> (r:
    Result<ScanOutcome, ReportError>)
    ensures
        spec_run(r, files@, text@, format, *config),
{
    match Json::parse(text) {
        Err(fault) => Err(ReportError::Json(fault)),
        Ok(doc) => match run_document(files, &doc, format, config) {
            Ok(outcome) => Ok(outcome),
            Err(e) => Err(ReportError::Schema(e)),
        },
    }
}

/// Runs by files: one row for each file.
pub fn run_files(
    files: &Vec<SourceFile>,
    text: &[u8],
    format: JsonFormat,
    config: &RunConfig,
) -> (r: Result<ScanOutcome, ReportError>)
    ensures
        spec_run(r, files@, text@, format, spec_with_mode(*config, Mode::Files)),
{
    let by_files = RunConfig {
        complexity: config.complexity,
        mode: Mode::Files,
        thresholds: config.thresholds,
        sort: config.sort,
        workers: config.workers,
    };
    run(files, text, format, &by_files)
}

/// Runs by functions: one row for each function of each file.
pub fn run_functions(
    files: &Vec<SourceFile>,
    text: &[u8],
    format: JsonFormat,
    config: &RunConfig,
) -> (r: Result<ScanOutcome, ReportError>)
    ensures
        spec_run(r, files@, text@, format, spec_with_mode(*config, Mode::Functions)),
{
    let by_functions = RunConfig {
        complexity: config.complexity,
        mode: Mode::Functions,
        thresholds: config.thresholds,
        sort: config.sort,
        workers: config.workers,
    };
    run(files, text, format, &by_functions)
}

} // verus!
