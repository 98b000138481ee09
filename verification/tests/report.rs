use weighted_code_coverage::coverage::{
    covered_lines, find_member, read_line, read_lines, span_bounds, CoverageReport, ReportError,
    SchemaError,
};
use weighted_code_coverage::json::Json;
use weighted_code_coverage::options::JsonFormat;

fn text(s: &str) -> Json {
    Json::Text(s.as_bytes().to_vec())
}

fn number(s: &str) -> Json {
    Json::Number(s.as_bytes().to_vec())
}

fn object(members: Vec<(&str, Json)>) -> Json {
    Json::Object(members.into_iter().map(|(k, v)| (k.as_bytes().to_vec(), v)).collect())
}

#[test]
fn decoder_builds_the_tree() {
    let doc = Json::parse(br#"{"a.rs": [1, 0, null, 2], "b": true, "c": "x"}"#).unwrap();
    assert_eq!(
        doc,
        object(vec![
            ("a.rs", Json::Array(vec![number("1"), number("0"), Json::Null, number("2")])),
            ("b", Json::Bool(true)),
            ("c", text("x")),
        ])
    );
}

#[test]
fn decoder_keeps_numbers_as_text() {
    let doc = Json::parse(b"[-1, 0, 18446744073709551615, 1.5, -7]").unwrap();
    assert_eq!(
        doc,
        Json::Array(vec![
            number("-1"),
            number("0"),
            number("18446744073709551615"),
            number("1.5"),
            number("-7"),
        ])
    );
}

#[test]
fn decoder_reads_escapes_in_strings() {
    let doc = Json::parse("[\"a\\\\b\", \"\u{e9}\"]".as_bytes()).unwrap();
    assert_eq!(doc, Json::Array(vec![text("a\\b"), text("\u{e9}")]));
}

#[test]
fn decoder_reports_where_a_text_fails() {
    let fault = Json::parse(b"{\n  \"a\": [1, 2\n").unwrap_err();
    assert_eq!(fault.line, 3);
    let fault = Json::parse(b"").unwrap_err();
    assert_eq!(fault.line, 1);
    let fault = Json::parse(b"[1, x]").unwrap_err();
    assert_eq!((fault.line, fault.column), (1, 5));
    let fault = Json::parse(b"[1,\n 2,\n  }").unwrap_err();
    assert_eq!((fault.line, fault.column), (3, 3));
    assert!(Json::parse(b"[1, 2] x").is_err());
    assert!(Json::parse(b"{\"a\": }").is_err());
}

#[test]
fn member_is_found_by_key() {
    let members = vec![
        (b"name".to_vec(), text("x")),
        (b"coverage".to_vec(), Json::Null),
        (b"name".to_vec(), text("y")),
    ];
    assert_eq!(find_member(&members, b"name"), Some(0));
    assert_eq!(find_member(&members, b"coverage"), Some(1));
    assert_eq!(find_member(&members, b"nam"), None);
    assert_eq!(find_member(&Vec::new(), b"name"), None);
}

#[test]
fn coverage_entries() {
    assert_eq!(read_line(&Json::Null), Some(None));
    assert_eq!(read_line(&number("-1")), Some(None));
    assert_eq!(read_line(&number("0")), Some(Some(0)));
    assert_eq!(read_line(&number("17")), Some(Some(17)));
    assert_eq!(read_line(&number("-2")), None);
    assert_eq!(read_line(&number("1.0")), None);
    assert_eq!(read_line(&number("18446744073709551616")), None);
    assert_eq!(read_line(&text("1")), None);
    assert_eq!(read_line(&Json::Bool(true)), None);
}

#[test]
fn coverage_array() {
    let items = vec![number("1"), number("0"), Json::Null, number("2")];
    assert_eq!(read_lines(&items), Some(vec![Some(1), Some(0), None, Some(2)]));
    assert_eq!(read_lines(&Vec::new()), Some(Vec::new()));
    let bad = vec![number("1"), text("x"), number("2")];
    assert_eq!(read_lines(&bad), None);
}

#[test]
fn coveralls_report() {
    let src = br#"{
        "service_name": "x",
        "source_files": [
            {"name": "src/a.rs", "source_digest": "ab", "coverage": [1, 0, null, 2]},
            {"name": "./src\\b.rs", "coverage": []}
        ]
    }"#;
    let report = CoverageReport::parse(src, JsonFormat::Coveralls).unwrap();
    assert_eq!(report.len(), 2);
    assert_eq!(report.file(0).path, b"src/a.rs".to_vec());
    assert_eq!(report.file(0).lines, vec![Some(1), Some(0), None, Some(2)]);
    assert_eq!(report.file(1).path, b"src/b.rs".to_vec());
    assert_eq!(report.file(1).lines, Vec::new());
}

#[test]
fn covdir_report() {
    let src = br#"{
        "children": {
            "src": {
                "children": {
                    "a.rs": {"coverage": [1, -1, 0], "coveragePercent": 50.0, "name": "a.rs"},
                    "deep": {
                        "children": {
                            "b.rs": {"coverage": [-1, 3], "name": "b.rs"}
                        },
                        "name": "deep"
                    }
                },
                "coveragePercent": 66.6,
                "name": "src"
            },
            "top.rs": {"coverage": [], "name": "top.rs"}
        },
        "coveragePercent": 66.6,
        "name": ""
    }"#;
    let report = CoverageReport::parse(src, JsonFormat::Covdir).unwrap();
    assert_eq!(report.len(), 3);
    let a = report.lookup(b"src/a.rs").unwrap();
    assert_eq!(report.file(a).lines, vec![Some(1), None, Some(0)]);
    let b = report.lookup(b"src/deep/b.rs").unwrap();
    assert_eq!(report.file(b).lines, vec![None, Some(3)]);
    let top = report.lookup(b"top.rs").unwrap();
    assert_eq!(report.file(top).lines, Vec::new());
    assert_eq!(report.lookup(b"src"), None);
    assert_eq!(report.lookup(b"src/deep"), None);
}

#[test]
fn both_schemas_give_the_same_report() {
    let coveralls = br#"{"source_files": [{"name": "src/a.rs", "coverage": [1, null, 0]}]}"#;
    let covdir = br#"{"children": {"src": {"children": {"a.rs": {"coverage": [1, -1, 0]}}}}}"#;
    assert_eq!(
        CoverageReport::parse(coveralls, JsonFormat::Coveralls).unwrap(),
        CoverageReport::parse(covdir, JsonFormat::Covdir).unwrap()
    );
}

#[test]
fn report_that_is_no_json() {
    let r = CoverageReport::parse(b"{\"source_files\": [", JsonFormat::Coveralls);
    assert!(matches!(r, Err(ReportError::Json(_))));
    let r = CoverageReport::parse(b"not json", JsonFormat::Covdir);
    assert!(matches!(r, Err(ReportError::Json(_))));
}

#[test]
fn coveralls_report_without_required_field() {
    let cases: Vec<&[u8]> = vec![
        br#"{}"#,
        br#"[]"#,
        br#"{"source_files": {}}"#,
        br#"{"source_files": [{"coverage": [1]}]}"#,
        br#"{"source_files": [{"name": "a.rs"}]}"#,
        br#"{"source_files": [{"name": 1, "coverage": [1]}]}"#,
        br#"{"source_files": [{"name": "a.rs", "coverage": 1}]}"#,
        br#"{"source_files": [7]}"#,
    ];
    for src in cases {
        assert_eq!(
            CoverageReport::parse(src, JsonFormat::Coveralls),
            Err(ReportError::Schema(SchemaError::Structure))
        );
    }
}

#[test]
fn coveralls_report_with_bad_line() {
    let src = br#"{"source_files": [{"name": "a.rs", "coverage": [1, "x"]}]}"#;
    assert_eq!(
        CoverageReport::parse(src, JsonFormat::Coveralls),
        Err(ReportError::Schema(SchemaError::Line))
    );
    let src = br#"{"source_files": [{"name": "a.rs", "coverage": [1.5]}]}"#;
    assert_eq!(
        CoverageReport::parse(src, JsonFormat::Coveralls),
        Err(ReportError::Schema(SchemaError::Line))
    );
}

#[test]
fn first_faulty_record_decides() {
    let src = br#"{"source_files": [
        {"name": "a.rs", "coverage": [1]},
        {"name": "b.rs", "coverage": [true]},
        {"name": "c.rs"}
    ]}"#;
    assert_eq!(
        CoverageReport::parse(src, JsonFormat::Coveralls),
        Err(ReportError::Schema(SchemaError::Line))
    );
}

#[test]
fn covdir_report_with_faults() {
    let cases: Vec<(&[u8], SchemaError)> = vec![
        (br#"{}"#, SchemaError::Structure),
        (br#"[]"#, SchemaError::Structure),
        (br#"{"children": []}"#, SchemaError::Structure),
        (br#"{"children": {"a.rs": {}}}"#, SchemaError::Structure),
        (br#"{"children": {"a.rs": 1}}"#, SchemaError::Structure),
        (br#"{"children": {"a.rs": {"coverage": {}}}}"#, SchemaError::Structure),
        (br#"{"children": {"a.rs": {"coverage": [null, -2]}}}"#, SchemaError::Line),
    ];
    for (src, fault) in cases {
        assert_eq!(
            CoverageReport::parse(src, JsonFormat::Covdir),
            Err(ReportError::Schema(fault))
        );
    }
}

#[test]
fn from_json_takes_a_tree() {
    let doc = object(vec![(
        "source_files",
        Json::Array(vec![object(vec![
            ("name", text("a.rs")),
            ("coverage", Json::Array(vec![number("3"), Json::Null])),
        ])]),
    )]);
    let report = CoverageReport::from_json(&doc, JsonFormat::Coveralls).unwrap();
    assert_eq!(report.len(), 1);
    assert_eq!(report.file(0).lines, vec![Some(3), None]);
    assert_eq!(
        CoverageReport::from_json(&doc, JsonFormat::Covdir),
        Err(SchemaError::Structure)
    );
}

#[test]
fn empty_reports() {
    let r = CoverageReport::parse(br#"{"source_files": []}"#, JsonFormat::Coveralls).unwrap();
    assert_eq!(r.len(), 0);
    assert_eq!(r.lookup(b"a.rs"), None);
    let r = CoverageReport::parse(br#"{"children": {}}"#, JsonFormat::Covdir).unwrap();
    assert_eq!(r.len(), 0);
}

#[test]
fn lookup_normalizes_the_path() {
    let src = br#"{"source_files": [
        {"name": "src/a.rs", "coverage": [1]},
        {"name": "src/a.rs", "coverage": [2]},
        {"name": "b.rs", "coverage": [3]}
    ]}"#;
    let report = CoverageReport::parse(src, JsonFormat::Coveralls).unwrap();
    assert_eq!(report.lookup(b"src/a.rs"), Some(0));
    assert_eq!(report.lookup(b"./src/a.rs"), Some(0));
    assert_eq!(report.lookup(b".\\src\\a.rs"), Some(0));
    assert_eq!(report.lookup(b"././b.rs"), Some(2));
    assert_eq!(report.lookup(b"a.rs"), None);
    assert_eq!(report.lookup(b"/src/a.rs"), None);
}

#[test]
fn covered_lines_are_those_that_ran() {
    let lines = vec![Some(1), Some(0), None, Some(2), Some(0), Some(9)];
    assert_eq!(covered_lines(&lines, 0, 6), 3);
    assert_eq!(covered_lines(&lines, 0, 4), 2);
    assert_eq!(covered_lines(&lines, 4, 6), 1);
    assert_eq!(covered_lines(&lines, 2, 2), 0);
}

#[test]
fn span_is_clipped_to_the_file() {
    let lines = vec![Some(1), Some(0), None, Some(2)];
    assert_eq!(span_bounds(&lines, 1, 4), (0, 4));
    assert_eq!(span_bounds(&lines, 2, 3), (1, 3));
    assert_eq!(span_bounds(&lines, 0, 2), (0, 2));
    assert_eq!(span_bounds(&lines, 3, 100), (2, 4));
    assert_eq!(span_bounds(&lines, 4, 4), (3, 4));
    let (a, b) = span_bounds(&lines, 5, 9);
    assert_eq!(a, b);
    let (a, b) = span_bounds(&lines, 3, 2);
    assert_eq!(a, b);
    let (a, b) = span_bounds(&lines, u64::MAX, u64::MAX);
    assert_eq!(a, b);
}
