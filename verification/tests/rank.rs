use weighted_code_coverage::formulas::Scores;
use weighted_code_coverage::metric::{FunctionId, MetricResult};
use weighted_code_coverage::options::{Complexity, JsonFormat, Mode, Sort};
use weighted_code_coverage::rank::{insert_ranked, precedes, rank};

fn row(path: &str, function: Option<&str>, crap: u128, sloc: u32) -> MetricResult {
    MetricResult {
        path: path.as_bytes().to_vec(),
        function: function.map(|n| FunctionId {
            name: n.as_bytes().to_vec(),
            start_line: 1,
            end_line: 2,
        }),
        sloc,
        ploc: 1,
        covered: 0,
        complexity: 1,
        coverage: 0,
        scores: Scores { wcc_plain: 7, wcc_quantized: 1, crap, skunk: 3 },
        is_complex: true,
    }
}

fn paths(rows: &[MetricResult]) -> Vec<String> {
    rows.iter()
        .map(|r| {
            let name = r.function.as_ref().map(|f| f.name.clone()).unwrap_or_default();
            format!(
                "{}:{}:{}",
                String::from_utf8_lossy(&r.path),
                String::from_utf8_lossy(&name),
                r.sloc
            )
        })
        .collect()
}

#[test]
fn highest_score_first() {
    let rows = vec![row("a", None, 5, 0), row("b", None, 9, 0), row("c", None, 7, 0)];
    assert_eq!(paths(&rank(&rows, Sort::Crap)), vec!["b::0", "c::0", "a::0"]);
}

#[test]
fn ties_go_by_path_then_by_name() {
    let rows = vec![
        row("b", Some("z"), 5, 0),
        row("b", Some("a"), 5, 0),
        row("a", Some("m"), 5, 0),
        row("b", None, 5, 0),
        row("ab", None, 5, 0),
        row("c", None, 6, 0),
    ];
    assert_eq!(
        paths(&rank(&rows, Sort::Crap)),
        vec!["c::0", "a:m:0", "ab::0", "b::0", "b:a:0", "b:z:0"]
    );
}

#[test]
fn rows_that_tie_keep_their_order() {
    let rows = vec![
        row("a", Some("f"), 5, 1),
        row("a", Some("f"), 5, 2),
        row("a", Some("f"), 9, 3),
        row("a", Some("f"), 5, 4),
    ];
    assert_eq!(
        paths(&rank(&rows, Sort::Crap)),
        vec!["a:f:3", "a:f:1", "a:f:2", "a:f:4"]
    );
}

#[test]
fn ranking_by_another_score_leaves_equal_rows_by_path() {
    let rows = vec![row("b", None, 1, 0), row("a", None, 9, 0)];
    assert_eq!(paths(&rank(&rows, Sort::Skunk)), vec!["a::0", "b::0"]);
    assert_eq!(paths(&rank(&rows, Sort::WccPlain)), vec!["a::0", "b::0"]);
    assert_eq!(paths(&rank(&rows, Sort::WccQuantized)), vec!["a::0", "b::0"]);
}

#[test]
fn ranking_nothing_gives_nothing() {
    assert!(rank(&Vec::new(), Sort::Crap).is_empty());
}

#[test]
fn ranking_rearranges_only() {
    let rows = vec![
        row("d", None, 1, 0),
        row("a", None, 4, 1),
        row("c", None, 4, 2),
        row("b", None, 2, 3),
        row("a", None, 4, 4),
    ];
    let ranked = rank(&rows, Sort::Crap);
    assert_eq!(ranked.len(), rows.len());
    for r in &rows {
        let given = rows.iter().filter(|x| *x == r).count();
        let found = ranked.iter().filter(|x| *x == r).count();
        assert_eq!(given, found);
    }
    for pair in ranked.windows(2) {
        assert!(!precedes(&pair[1], &pair[0], Sort::Crap));
    }
}

#[test]
fn a_row_goes_behind_those_it_does_not_precede() {
    let mut rows = vec![row("a", None, 9, 0), row("b", None, 5, 0), row("d", None, 5, 0)];
    insert_ranked(&mut rows, row("c", None, 5, 0), Sort::Crap);
    assert_eq!(paths(&rows), vec!["a::0", "b::0", "c::0", "d::0"]);
    insert_ranked(&mut rows, row("z", None, 10, 0), Sort::Crap);
    assert_eq!(paths(&rows)[0], "z::0");
    insert_ranked(&mut rows, row("z", None, 0, 0), Sort::Crap);
    assert_eq!(paths(&rows)[5], "z::0");
}

#[test]
fn precedence() {
    let a = row("a", None, 5, 0);
    let b = row("b", None, 5, 0);
    let high = row("z", None, 6, 0);
    assert!(precedes(&a, &b, Sort::Crap));
    assert!(!precedes(&b, &a, Sort::Crap));
    assert!(!precedes(&a, &a, Sort::Crap));
    assert!(precedes(&high, &a, Sort::Crap));
    assert!(!precedes(&a, &high, Sort::Crap));
    let whole = row("a", None, 5, 0);
    let named = row("a", Some("f"), 5, 0);
    let unnamed = row("a", Some(""), 5, 0);
    assert!(precedes(&whole, &named, Sort::Crap));
    assert!(!precedes(&named, &whole, Sort::Crap));
    assert!(!precedes(&whole, &unnamed, Sort::Crap));
    assert!(!precedes(&unnamed, &whole, Sort::Crap));
}

#[test]
fn key_is_the_score_named() {
    let r = row("a", None, 5, 0);
    assert_eq!(r.key(Sort::WccPlain), 7);
    assert_eq!(r.key(Sort::WccQuantized), 1);
    assert_eq!(r.key(Sort::Crap), 5);
    assert_eq!(r.key(Sort::Skunk), 3);
}

#[test]
fn names_of_the_choices() {
    assert_eq!(Complexity::default(), Complexity::Cyclomatic);
    assert_eq!(JsonFormat::default(), JsonFormat::Coveralls);
    assert_eq!(Mode::default(), Mode::Files);
    assert_eq!(Sort::default(), Sort::WccPlain);
    assert_eq!(Complexity::all(), vec![Complexity::Cyclomatic, Complexity::Cognitive]);
    assert_eq!(JsonFormat::all(), vec![JsonFormat::Coveralls, JsonFormat::Covdir]);
    assert_eq!(Mode::all(), vec![Mode::Files, Mode::Functions]);
    assert_eq!(
        Sort::all(),
        vec![Sort::WccPlain, Sort::WccQuantized, Sort::Crap, Sort::Skunk]
    );
    assert_eq!(Complexity::Cognitive.name(), "cognitive");
    assert_eq!(JsonFormat::Covdir.name(), "covdir");
    assert_eq!(Mode::Functions.name(), "functions");
    assert_eq!(Sort::WccQuantized.name(), "wcc_quantized");
}

#[test]
fn choices_are_read_back_from_their_names() {
    for c in Complexity::all() {
        assert_eq!(Complexity::parse(c.name()), Some(c));
    }
    for f in JsonFormat::all() {
        assert_eq!(JsonFormat::parse(f.name()), Some(f));
    }
    for m in Mode::all() {
        assert_eq!(Mode::parse(m.name()), Some(m));
    }
    for s in Sort::all() {
        assert_eq!(Sort::parse(s.name()), Some(s));
    }
    assert_eq!(Complexity::parse("halstead"), None);
    assert_eq!(Complexity::parse("Cyclomatic"), None);
    assert_eq!(JsonFormat::parse(""), None);
    assert_eq!(Mode::parse("file"), None);
    assert_eq!(Sort::parse("wcc"), None);
}
