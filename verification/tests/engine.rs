use weighted_code_coverage::coverage::{CoverageReport, ReportError, SchemaError};
use weighted_code_coverage::engine::{evaluate, FileOutcome, RunConfig};
use weighted_code_coverage::formulas::Scores;
use weighted_code_coverage::metric::{FunctionId, IgnoreReason, IgnoredEntry, MetricResult};
use weighted_code_coverage::options::{Complexity, JsonFormat, Mode, Sort};
use weighted_code_coverage::outcome::{assemble, project_coverage, ProjectCoverage, ScanOutcome};
use weighted_code_coverage::pool::{scan, worker_total, Aggregator, WorkQueue};
use weighted_code_coverage::run::{run, run_document, run_files, run_functions};
use weighted_code_coverage::json::Json;
use weighted_code_coverage::source::{Analysis, FunctionSpan, Measure, SourceFile};
use weighted_code_coverage::thresholds::Thresholds;

fn config(mode: Mode) -> RunConfig {
    RunConfig {
        complexity: Complexity::Cyclomatic,
        mode,
        thresholds: Thresholds::default(),
        sort: Sort::WccPlain,
        workers: 2,
    }
}

fn measure(sloc: u32, ploc: u32, comp: u32) -> Measure {
    Measure { sloc, ploc, cyclomatic: comp, cognitive: comp + 100 }
}

fn file(path: &str, m: Option<Measure>) -> SourceFile {
    SourceFile {
        path: path.as_bytes().to_vec(),
        analysis: m.map(|measure| Analysis { measure, functions: Vec::new() }),
    }
}

fn left_out(path: &str, reason: IgnoreReason) -> IgnoredEntry {
    IgnoredEntry { path: path.as_bytes().to_vec(), function: None, reason }
}

fn report(src: &str) -> CoverageReport {
    CoverageReport::parse(src.as_bytes(), JsonFormat::Coveralls).unwrap()
}

const ONE_FILE: &str = r#"{"source_files": [{"name": "a.rs", "coverage": [1, 0, null, 2]}]}"#;

const PROJECT: &str = r#"{"source_files": [
    {"name": "a.rs", "coverage": [1, 0, null, 2]},
    {"name": "b.rs", "coverage": [0, 0, 0, 0, 0, 0, 0, 0, 0, 0]},
    {"name": "c.rs", "coverage": [5, 5]},
    {"name": "d.rs", "coverage": [null]},
    {"name": "e.rs", "coverage": [0, 0, 0, 0, 0, 0, 0, 0, 0, 0]}
]}"#;

fn project() -> Vec<SourceFile> {
    vec![
        file("a.rs", Some(measure(4, 3, 4))),
        file("e.rs", Some(measure(10, 10, 40))),
        file("missing.rs", Some(measure(9, 9, 9))),
        file("b.rs", Some(measure(10, 10, 40))),
        file("c.rs", Some(measure(2, 2, 50))),
        file("d.rs", Some(measure(1, 0, 3))),
        file("broken.rs", None),
    ]
}

#[test]
fn one_file_with_two_of_three_lines_covered() {
    let files = vec![file("a.rs", Some(measure(4, 3, 4)))];
    let outcome =
        run_files(&files, ONE_FILE.as_bytes(), JsonFormat::Coveralls, &config(Mode::Files))
            .unwrap();
    assert_eq!(outcome.metrics.len(), 1);
    let row = &outcome.metrics[0];
    assert_eq!(row.path, b"a.rs".to_vec());
    assert_eq!(row.function, None);
    assert_eq!(row.sloc, 4);
    assert_eq!(row.ploc, 3);
    assert_eq!(row.covered, 2);
    assert_eq!(row.complexity, 4);
    assert_eq!(row.coverage, 666_666);
    assert_eq!(row.scores.wcc_plain, 1_333_336);
    assert_eq!(row.scores.crap, 4_592_596);
    assert!(!row.is_complex);
    assert!(outcome.ignored.is_empty());
    assert!(outcome.complex.is_empty());
    assert_eq!(
        outcome.project_coverage,
        ProjectCoverage { covered: 2, coverable: 3, ratio: 666_666 }
    );
}

#[test]
fn empty_report_leaves_every_file_out() {
    let files = project();
    let outcome = run_files(
        &files,
        br#"{"source_files": []}"#,
        JsonFormat::Coveralls,
        &config(Mode::Files),
    )
    .unwrap();
    assert!(outcome.metrics.is_empty());
    assert!(outcome.complex.is_empty());
    assert_eq!(outcome.ignored.len(), files.len());
    for (entry, f) in outcome.ignored.iter().zip(files.iter()) {
        assert_eq!(entry.path, f.path);
        assert_eq!(entry.reason, IgnoreReason::NoCoverage);
    }
    assert_eq!(outcome.project_coverage, ProjectCoverage { covered: 0, coverable: 0, ratio: 0 });
}

#[test]
fn malformed_report_ends_the_run() {
    let files = project();
    let r = run_files(&files, b"{\"source_files\": [", JsonFormat::Coveralls, &config(Mode::Files));
    assert!(matches!(r, Err(ReportError::Json(_))));
    let r = run_files(
        &files,
        br#"{"source_files": [{"name": "a.rs"}]}"#,
        JsonFormat::Coveralls,
        &config(Mode::Files),
    );
    assert_eq!(r, Err(ReportError::Schema(SchemaError::Structure)));
    let r = run_functions(&files, br#"{"files": []}"#, JsonFormat::Covdir, &config(Mode::Files));
    assert_eq!(r, Err(ReportError::Schema(SchemaError::Structure)));
}

#[test]
fn file_absent_from_the_report_is_ignored() {
    let outcome = scan(&project(), &report(PROJECT), &config(Mode::Files));
    assert!(outcome.ignored.contains(&left_out("missing.rs", IgnoreReason::NoCoverage)));
    assert!(outcome.metrics.iter().all(|r| r.path != b"missing.rs".to_vec()));
    assert!(outcome.complex.iter().all(|r| r.path != b"missing.rs".to_vec()));
}

#[test]
fn absent_file_is_ignored_for_want_of_coverage_before_anything_else() {
    let files = vec![file("x.rs", None), file("y.rs", Some(measure(3, 0, 1)))];
    let outcome = scan(&files, &report(PROJECT), &config(Mode::Files));
    assert_eq!(
        outcome.ignored,
        vec![
            left_out("x.rs", IgnoreReason::NoCoverage),
            left_out("y.rs", IgnoreReason::NoCoverage)
        ]
    );
}

#[test]
fn file_without_coverable_lines_is_ignored() {
    for mode in [Mode::Files, Mode::Functions] {
        let outcome = scan(&project(), &report(PROJECT), &config(mode));
        assert!(outcome.ignored.contains(&left_out("d.rs", IgnoreReason::ZeroCoverable)));
        assert!(outcome.metrics.iter().all(|r| r.ploc > 0));
        assert!(outcome.metrics.iter().all(|r| r.path != b"d.rs".to_vec()));
    }
}

#[test]
fn unparsable_file_is_ignored() {
    let files = vec![file("a.rs", None)];
    let outcome = scan(&files, &report(ONE_FILE), &config(Mode::Files));
    assert_eq!(outcome.ignored, vec![left_out("a.rs", IgnoreReason::Unparsable)]);
    assert!(outcome.metrics.is_empty());
}

#[test]
fn rows_and_entries_keep_the_order_of_the_files() {
    let outcome = scan(&project(), &report(PROJECT), &config(Mode::Files));
    let rows: Vec<&[u8]> = outcome.metrics.iter().map(|r| r.path.as_slice()).collect();
    assert_eq!(rows, vec![&b"a.rs"[..], b"e.rs", b"b.rs", b"c.rs"]);
    assert_eq!(
        outcome.ignored,
        vec![
            left_out("missing.rs", IgnoreReason::NoCoverage),
            left_out("d.rs", IgnoreReason::ZeroCoverable),
            left_out("broken.rs", IgnoreReason::NoCoverage),
        ]
    );
}

#[test]
fn complex_rows_are_the_marked_rows_ranked() {
    let outcome = scan(&project(), &report(PROJECT), &config(Mode::Files));
    // b.rs and e.rs: complexity 40, nothing covered: plain score 40 > 35.
    // c.rs: complexity 50, all covered: CRAP 50 > 35.
    let marked: Vec<&MetricResult> = outcome.metrics.iter().filter(|r| r.is_complex).collect();
    assert_eq!(marked.len(), 3);
    assert_eq!(outcome.complex.len(), 3);
    for row in &outcome.complex {
        assert!(row.is_complex);
        assert!(outcome.metrics.contains(row));
    }
    let ranked: Vec<&[u8]> = outcome.complex.iter().map(|r| r.path.as_slice()).collect();
    assert_eq!(ranked, vec![&b"b.rs"[..], b"e.rs", b"c.rs"]);
}

#[test]
fn complex_rows_are_ranked_by_the_chosen_score() {
    let mut c = config(Mode::Files);
    c.sort = Sort::Crap;
    let outcome = scan(&project(), &report(PROJECT), &c);
    let ranked: Vec<(&[u8], u128)> =
        outcome.complex.iter().map(|r| (r.path.as_slice(), r.scores.crap)).collect();
    assert_eq!(
        ranked,
        vec![
            (&b"b.rs"[..], 1_640_000_000),
            (&b"e.rs"[..], 1_640_000_000),
            (&b"c.rs"[..], 50_000_000)
        ]
    );
    c.sort = Sort::WccQuantized;
    let outcome = scan(&project(), &report(PROJECT), &c);
    for pair in outcome.complex.windows(2) {
        assert!(pair[0].scores.wcc_quantized >= pair[1].scores.wcc_quantized);
    }
}

#[test]
fn zero_thresholds_flag_every_positive_score() {
    let mut c = config(Mode::Files);
    c.thresholds = Thresholds { wcc_plain: 0, wcc_quantized: 0, crap: 0, skunk: 0 };
    let outcome = scan(&project(), &report(PROJECT), &c);
    assert_eq!(outcome.complex.len(), outcome.metrics.len());
}

#[test]
fn project_coverage_is_pooled_over_the_rows() {
    let outcome = scan(&project(), &report(PROJECT), &config(Mode::Files));
    // a.rs 2/3, e.rs 0/10, b.rs 0/10, c.rs 2/2; d.rs and the others are left out.
    assert_eq!(
        outcome.project_coverage,
        ProjectCoverage { covered: 4, coverable: 25, ratio: 160_000 }
    );
    let covered: u128 = outcome.metrics.iter().map(|r| r.covered as u128).sum();
    let coverable: u128 = outcome.metrics.iter().map(|r| r.ploc as u128).sum();
    assert_eq!(outcome.project_coverage.covered, covered);
    assert_eq!(outcome.project_coverage.coverable, coverable);
    assert_eq!(project_coverage(&outcome.metrics), outcome.project_coverage);
}

#[test]
fn project_coverage_follows_the_ignored_set() {
    let all = scan(&project(), &report(PROJECT), &config(Mode::Files));
    let mut fewer = project();
    fewer[4].analysis = None; // c.rs can no longer be parsed
    let less = scan(&fewer, &report(PROJECT), &config(Mode::Files));
    assert!(less.ignored.contains(&left_out("c.rs", IgnoreReason::Unparsable)));
    assert_eq!(
        less.project_coverage,
        ProjectCoverage { covered: 2, coverable: 23, ratio: 86_956 }
    );
    assert!(less.project_coverage != all.project_coverage);
}

#[test]
fn covered_lines_count_up_to_the_coverable_ones() {
    let files = vec![file("c.rs", Some(measure(2, 1, 7)))];
    let outcome = scan(&files, &report(PROJECT), &config(Mode::Files));
    let row = &outcome.metrics[0];
    assert_eq!(row.covered, 1);
    assert_eq!(row.coverage, 1_000_000);
    assert_eq!(row.scores, Scores::compute(7, 1_000_000));
    assert_eq!(outcome.project_coverage.ratio, 1_000_000);
}

#[test]
fn complexity_follows_the_chosen_metric() {
    let files = vec![file("a.rs", Some(measure(4, 3, 4)))];
    let mut c = config(Mode::Files);
    c.complexity = Complexity::Cognitive;
    let outcome = scan(&files, &report(ONE_FILE), &c);
    assert_eq!(outcome.metrics[0].complexity, 104);
    assert_eq!(outcome.metrics[0].scores, Scores::compute(104, 666_666));
    assert!(outcome.metrics[0].is_complex);
}

const FUNCTIONS_REPORT: &str =
    r#"{"source_files": [{"name": "b.rs", "coverage": [1, 1, 0, 0, null, 0, 3, 3, 3, 3]}]}"#;

fn with_functions() -> Vec<SourceFile> {
    let span = |name: &str, start: u64, end: u64, m: Measure| FunctionSpan {
        name: name.as_bytes().to_vec(),
        start_line: start,
        end_line: end,
        measure: m,
    };
    vec![SourceFile {
        path: b"b.rs".to_vec(),
        analysis: Some(Analysis {
            measure: measure(10, 10, 40),
            functions: vec![
                span("first", 1, 4, measure(4, 4, 36)),
                span("empty", 5, 5, measure(1, 0, 1)),
                span("second", 6, 10, measure(5, 5, 2)),
            ],
        }),
    }]
}

#[test]
fn one_row_for_each_function() {
    let src = FUNCTIONS_REPORT;
    let outcome = run_functions(
        &with_functions(),
        src.as_bytes(),
        JsonFormat::Coveralls,
        &config(Mode::Files),
    )
    .unwrap();
    assert_eq!(outcome.metrics.len(), 2);
    let first = &outcome.metrics[0];
    assert_eq!(first.path, b"b.rs".to_vec());
    assert_eq!(
        first.function,
        Some(FunctionId { name: b"first".to_vec(), start_line: 1, end_line: 4 })
    );
    assert_eq!((first.sloc, first.ploc, first.covered), (4, 4, 2));
    assert_eq!(first.coverage, 500_000);
    assert_eq!(first.scores, Scores::compute(36, 500_000));
    assert!(first.is_complex);
    let second = &outcome.metrics[1];
    assert_eq!(
        second.function,
        Some(FunctionId { name: b"second".to_vec(), start_line: 6, end_line: 10 })
    );
    assert_eq!((second.ploc, second.covered), (5, 4));
    assert_eq!(second.coverage, 800_000);
    assert!(!second.is_complex);
    assert_eq!(
        outcome.ignored,
        vec![IgnoredEntry {
            path: b"b.rs".to_vec(),
            function: Some(b"empty".to_vec()),
            reason: IgnoreReason::ZeroCoverable
        }]
    );
    assert_eq!(outcome.complex.len(), 1);
    assert_eq!(outcome.complex[0], *first);
    assert_eq!(
        outcome.project_coverage,
        ProjectCoverage { covered: 6, coverable: 9, ratio: 666_666 }
    );
}

#[test]
fn run_follows_the_mode_of_its_configuration() {
    let src = FUNCTIONS_REPORT;
    let files = with_functions();
    let by_files =
        run(&files, src.as_bytes(), JsonFormat::Coveralls, &config(Mode::Files)).unwrap();
    assert_eq!(
        by_files,
        run_files(&files, src.as_bytes(), JsonFormat::Coveralls, &config(Mode::Functions))
            .unwrap()
    );
    assert_eq!(by_files.metrics.len(), 1);
    assert_eq!(by_files.metrics[0].covered, 6);
    let by_functions =
        run(&files, src.as_bytes(), JsonFormat::Coveralls, &config(Mode::Functions)).unwrap();
    assert_eq!(
        by_functions,
        run_functions(&files, src.as_bytes(), JsonFormat::Coveralls, &config(Mode::Files))
            .unwrap()
    );
    assert_eq!(by_functions.metrics.len(), 2);
}

#[test]
fn run_on_a_decoded_document() {
    let doc = Json::parse(ONE_FILE.as_bytes()).unwrap();
    let files = vec![file("./a.rs", Some(measure(4, 3, 4)))];
    let outcome = run_document(&files, &doc, JsonFormat::Coveralls, &config(Mode::Files)).unwrap();
    assert_eq!(outcome.metrics.len(), 1);
    assert_eq!(outcome.metrics[0].path, b"./a.rs".to_vec());
    assert_eq!(
        run_document(&files, &doc, JsonFormat::Covdir, &config(Mode::Files)),
        Err(SchemaError::Structure)
    );
}

#[test]
fn covdir_and_coveralls_runs_agree() {
    let covdir = br#"{"children": {"a.rs": {"coverage": [1, 0, -1, 2]}}}"#;
    let files = vec![file("a.rs", Some(measure(4, 3, 4)))];
    assert_eq!(
        run_files(&files, covdir, JsonFormat::Covdir, &config(Mode::Files)).unwrap(),
        run_files(&files, ONE_FILE.as_bytes(), JsonFormat::Coveralls, &config(Mode::Files))
            .unwrap()
    );
}

#[test]
fn workers_are_at_least_one() {
    assert_eq!(worker_total(0), 1);
    assert_eq!(worker_total(1), 1);
    assert_eq!(worker_total(8), 8);
    assert_eq!(worker_total(usize::MAX), usize::MAX);
}

#[test]
fn queue_hands_each_number_out_once() {
    let mut q = WorkQueue::new(3);
    assert_eq!(q.remaining(), 3);
    assert_eq!(q.take(), Some(0));
    assert_eq!(q.take(), Some(1));
    assert_eq!(q.remaining(), 1);
    assert_eq!(q.take(), Some(2));
    assert_eq!(q.take(), None);
    assert_eq!(q.take(), None);
    assert_eq!(q.remaining(), 0);
    let mut none = WorkQueue::new(0);
    assert_eq!(none.take(), None);
}

fn outcomes(cfg: &RunConfig) -> Vec<FileOutcome> {
    let r = report(PROJECT);
    project().iter().map(|f| evaluate(f, &r, cfg)).collect()
}

fn collect(order: &[usize], cfg: &RunConfig) -> ScanOutcome {
    let mut all: Vec<Option<FileOutcome>> = outcomes(cfg).into_iter().map(Some).collect();
    let mut aggregator = Aggregator::new(all.len());
    assert!(!aggregator.is_complete() || all.is_empty());
    for &i in order {
        assert!(aggregator.submit(i, all[i].take().unwrap()));
    }
    assert!(aggregator.is_complete());
    aggregator.finish(cfg.sort).unwrap()
}

#[test]
fn result_does_not_depend_on_the_order_of_arrival() {
    let cfg = config(Mode::Files);
    let expected = scan(&project(), &report(PROJECT), &cfg);
    assert_eq!(assemble(&outcomes(&cfg), cfg.sort), expected);
    for order in [
        [0, 1, 2, 3, 4, 5, 6],
        [6, 5, 4, 3, 2, 1, 0],
        [3, 0, 6, 1, 5, 2, 4],
        [1, 3, 5, 0, 2, 4, 6],
    ] {
        assert_eq!(collect(&order, &cfg), expected);
    }
}

#[test]
fn result_does_not_depend_on_the_order_of_the_files() {
    let cfg = config(Mode::Files);
    let expected = scan(&project(), &report(PROJECT), &cfg);
    let mut files = project();
    files.reverse();
    files.swap(1, 4);
    let other = scan(&files, &report(PROJECT), &cfg);
    assert_eq!(other.project_coverage, expected.project_coverage);
    assert_eq!(other.metrics.len(), expected.metrics.len());
    assert_eq!(other.ignored.len(), expected.ignored.len());
    for row in &expected.metrics {
        assert!(other.metrics.contains(row));
    }
    for entry in &expected.ignored {
        assert!(other.ignored.contains(entry));
    }
    // no two complex rows tie here, so even their order is the same
    assert_eq!(other.complex, expected.complex);
}

#[test]
fn result_does_not_depend_on_the_number_of_workers() {
    let mut cfg = config(Mode::Files);
    let expected = scan(&project(), &report(PROJECT), &cfg);
    for workers in [0usize, 1, 2, 3, 7, 64] {
        cfg.workers = workers;
        assert_eq!(scan(&project(), &report(PROJECT), &cfg), expected);
        // each worker draws from the queue in turn and hands its outcome in
        let files = project();
        let r = report(PROJECT);
        let mut queue = WorkQueue::new(files.len());
        let mut held: Vec<Vec<(usize, FileOutcome)>> = Vec::new();
        for _ in 0..worker_total(workers) {
            held.push(Vec::new());
        }
        let mut turn = 0;
        while let Some(i) = queue.take() {
            held[turn % worker_total(workers)].push((i, evaluate(&files[i], &r, &cfg)));
            turn += 1;
        }
        let mut aggregator = Aggregator::new(files.len());
        for worker in held.into_iter().rev() {
            for (i, outcome) in worker {
                assert!(aggregator.submit(i, outcome));
            }
        }
        assert_eq!(aggregator.finish(cfg.sort), Some(expected_copy(&expected)));
    }
}

fn expected_copy(o: &ScanOutcome) -> ScanOutcome {
    ScanOutcome {
        metrics: o.metrics.iter().map(|r| r.duplicate()).collect(),
        ignored: o.ignored.iter().map(|e| e.duplicate()).collect(),
        complex: o.complex.iter().map(|r| r.duplicate()).collect(),
        project_coverage: o.project_coverage,
    }
}

#[test]
fn aggregator_refuses_what_is_no_outcome_of_the_run() {
    let cfg = config(Mode::Files);
    let mut all = outcomes(&cfg);
    let mut aggregator = Aggregator::new(2);
    assert_eq!(aggregator.len(), 2);
    assert!(!aggregator.submit(2, all.pop().unwrap()));
    assert!(aggregator.submit(1, all.pop().unwrap()));
    assert!(!aggregator.submit(1, all.pop().unwrap()));
    assert!(!aggregator.is_complete());
    assert_eq!(aggregator.finish(cfg.sort), None);
}

#[test]
fn aggregator_of_no_files_is_complete() {
    let aggregator = Aggregator::new(0);
    assert!(aggregator.is_complete());
    let outcome = aggregator.finish(Sort::Crap).unwrap();
    assert!(outcome.metrics.is_empty());
    assert!(outcome.ignored.is_empty());
    assert_eq!(outcome.project_coverage, ProjectCoverage { covered: 0, coverable: 0, ratio: 0 });
}
