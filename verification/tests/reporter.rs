use tla_cli::lint::reporter::{
    format_code, push_decimal, push_human_line, push_json_object, render_human, to_json,
};
use tla_cli::lint::types::{Diagnostic, RuleCode, Severity};
use tla_cli::lint::{any_error, report};

fn finding(file: &str, line: usize, column: usize, severity: Severity, code: RuleCode, message: &str) -> Diagnostic {
    Diagnostic {
        file: file.to_string(),
        line,
        column,
        severity,
        code,
        message: message.to_string(),
    }
}

fn sample() -> Vec<Diagnostic> {
    vec![
        finding("b.tla", 3, 7, Severity::Warning, RuleCode::TLA001, "second file first"),
        finding("a.tla", 1, 1, Severity::Error, RuleCode::TLA002, "then the first"),
        finding("c.tla", 0, 0, Severity::Error, RuleCode::TLA000, "no tree"),
    ]
}

fn decimal(n: usize) -> String {
    let mut out = String::new();
    push_decimal(&mut out, n);
    out
}

#[test]
fn numbers_are_written_in_decimal() {
    assert_eq!(decimal(0), "0");
    assert_eq!(decimal(7), "7");
    assert_eq!(decimal(9), "9");
    assert_eq!(decimal(10), "10");
    assert_eq!(decimal(42), "42");
    assert_eq!(decimal(100), "100");
    assert_eq!(decimal(1234567890), "1234567890");
    assert_eq!(decimal(usize::MAX), usize::MAX.to_string());
}

#[test]
fn decimal_is_appended() {
    let mut out = "line ".to_string();
    push_decimal(&mut out, 305);
    assert_eq!(out, "line 305");
}

#[test]
fn codes_have_stable_names() {
    assert_eq!(format_code(&RuleCode::TLA000), "TLA000");
    assert_eq!(format_code(&RuleCode::TLA001), "TLA001");
    assert_eq!(format_code(&RuleCode::TLA002), "TLA002");
}

#[test]
fn human_line_of_a_warning() {
    let mut out = String::new();
    push_human_line(
        &mut out,
        &finding("dir/spec.tla", 12, 5, Severity::Warning, RuleCode::TLA001, "Variable `x` is declared but never used"),
    );
    assert_eq!(out, "dir/spec.tla:12:5 [WARN TLA001] Variable `x` is declared but never used\n");
}

#[test]
fn human_line_of_an_error() {
    let mut out = String::new();
    push_human_line(&mut out, &finding("s.tla", 1, 1, Severity::Error, RuleCode::TLA002, "missing"));
    assert_eq!(out, "s.tla:1:1 [ERROR TLA002] missing\n");
}

#[test]
fn human_text_has_one_line_per_finding_in_order() {
    let text = render_human(&sample());
    assert_eq!(
        text,
        "b.tla:3:7 [WARN TLA001] second file first\na.tla:1:1 [ERROR TLA002] then the first\nc.tla:0:0 [ERROR TLA000] no tree\n"
    );
}

#[test]
fn human_text_of_nothing_is_empty() {
    assert_eq!(render_human(&Vec::new()), "");
}

#[test]
fn json_of_nothing_is_an_empty_array() {
    assert_eq!(to_json(&Vec::new()).expect("json"), "[]");
}

#[test]
fn json_object_has_the_fields_in_order() {
    let mut out = String::new();
    push_json_object(
        &mut out,
        &finding("s.tla", 4, 9, Severity::Warning, RuleCode::TLA001, "m"),
    )
    .expect("json");
    assert_eq!(
        out,
        "  {\n    \"file\": \"s.tla\",\n    \"line\": 4,\n    \"column\": 9,\n    \"severity\": \"warning\",\n    \"code\": \"TLA001\",\n    \"message\": \"m\"\n  }"
    );
}

#[test]
fn json_of_one_finding() {
    let json = to_json(&vec![finding("s.tla", 1, 1, Severity::Error, RuleCode::TLA002, "m")])
        .expect("json");
    assert_eq!(
        json,
        "[\n  {\n    \"file\": \"s.tla\",\n    \"line\": 1,\n    \"column\": 1,\n    \"severity\": \"error\",\n    \"code\": \"TLA002\",\n    \"message\": \"m\"\n  }\n]"
    );
}

#[test]
fn json_escapes_what_json_must_escape() {
    let json = to_json(&vec![finding(
        "dir\\with \"quotes\".tla",
        1,
        1,
        Severity::Warning,
        RuleCode::TLA001,
        "tab\there\nnew line \u{1} \u{e9}",
    )])
    .expect("json");
    assert!(json.contains("\"file\": \"dir\\\\with \\\"quotes\\\".tla\""));
    assert!(json.contains("\"message\": \"tab\\there\\nnew line \\u0001 \u{e9}\""));
}

#[test]
fn json_is_what_serde_json_writes_for_the_same_values() {
    let diags = sample();
    let json = to_json(&diags).expect("json");
    let parsed: serde_json::Value = serde_json::from_str(&json).expect("valid json");
    let items = parsed.as_array().expect("an array");
    assert_eq!(items.len(), diags.len());
    for (item, d) in items.iter().zip(diags.iter()) {
        let object = item.as_object().expect("an object");
        assert_eq!(object.len(), 6);
        assert_eq!(object["file"].as_str(), Some(d.file.as_str()));
        assert_eq!(object["line"].as_u64(), Some(d.line as u64));
        assert_eq!(object["column"].as_u64(), Some(d.column as u64));
        assert_eq!(
            object["severity"].as_str(),
            Some(if d.severity == Severity::Error { "error" } else { "warning" })
        );
        assert_eq!(object["code"].as_str(), Some(format_code(&d.code).as_str()));
        assert_eq!(object["message"].as_str(), Some(d.message.as_str()));
    }
}

#[test]
fn json_keys_keep_their_order_and_case() {
    let json = to_json(&sample()).expect("json");
    let first = &json[..json.find("},").expect("more than one object")];
    let at = |key: &str| first.find(key).expect(key);
    assert!(at("\"file\"") < at("\"line\""));
    assert!(at("\"line\"") < at("\"column\""));
    assert!(at("\"column\"") < at("\"severity\""));
    assert!(at("\"severity\"") < at("\"code\""));
    assert!(at("\"code\"") < at("\"message\""));
}

#[test]
fn both_reporters_keep_the_order_given() {
    let diags = sample();
    let text = render_human(&diags);
    let lines: Vec<&str> = text.lines().collect();
    let json = to_json(&diags).expect("json");
    let parsed: serde_json::Value = serde_json::from_str(&json).expect("valid json");
    let items = parsed.as_array().expect("an array");
    assert_eq!(lines.len(), diags.len());
    assert_eq!(items.len(), diags.len());
    for i in 0..diags.len() {
        assert!(lines[i].starts_with(&format!("{}:", diags[i].file)));
        assert!(lines[i].ends_with(&diags[i].message));
        assert_eq!(items[i]["file"].as_str(), Some(diags[i].file.as_str()));
        assert_eq!(items[i]["message"].as_str(), Some(diags[i].message.as_str()));
    }
}

#[test]
fn json_is_byte_stable() {
    let a = to_json(&sample()).expect("json");
    let b = to_json(&sample()).expect("json");
    assert_eq!(a.as_bytes(), b.as_bytes());
}

#[test]
fn run_fails_when_a_finding_is_an_error() {
    assert!(any_error(&sample()));
    let made = report(&sample(), false).expect("report");
    assert!(made.failed);
    assert_eq!(made.output, render_human(&sample()));
}

#[test]
fn run_with_warnings_alone_succeeds() {
    let warnings = vec![
        finding("a.tla", 1, 2, Severity::Warning, RuleCode::TLA001, "w1"),
        finding("a.tla", 3, 4, Severity::Warning, RuleCode::TLA001, "w2"),
    ];
    assert!(!any_error(&warnings));
    let made = report(&warnings, false).expect("report");
    assert!(!made.failed);
    assert_eq!(made.output, "a.tla:1:2 [WARN TLA001] w1\na.tla:3:4 [WARN TLA001] w2\n");
}

#[test]
fn run_without_findings_succeeds() {
    assert!(!any_error(&Vec::new()));
    let made = report(&Vec::new(), true).expect("report");
    assert!(!made.failed);
    assert_eq!(made.output, "[]\n");
    let made = report(&Vec::new(), false).expect("report");
    assert!(!made.failed);
    assert_eq!(made.output, "");
}

#[test]
fn json_report_ends_with_a_line_break() {
    let made = report(&sample(), true).expect("report");
    assert!(made.failed);
    assert_eq!(made.output, format!("{}\n", to_json(&sample()).expect("json")));
}

#[test]
fn error_severity_is_told_from_warning() {
    assert!(finding("a", 1, 1, Severity::Error, RuleCode::TLA002, "m").is_error());
    assert!(!finding("a", 1, 1, Severity::Warning, RuleCode::TLA001, "m").is_error());
}

#[test]
fn quoted_text_is_appended() {
    let mut out = "key: ".to_string();
    let done = tla_cli::lint::reporter::push_quoting(&mut out, serde_json::to_string("a \"b\""));
    assert_eq!(done, Ok(()));
    assert_eq!(out, "key: \"a \\\"b\\\"\"");
}

#[test]
fn failed_quoting_appends_nothing() {
    let failure = serde_json::from_str::<String>("not json").expect_err("no json");
    let mut out = "key: ".to_string();
    let done = tla_cli::lint::reporter::push_quoting(&mut out, Err(failure));
    assert_eq!(done, Err(tla_cli::lint::reporter::JsonError));
    assert_eq!(out, "key: ");
}

#[test]
fn json_object_is_appended_to_what_is_there() {
    let mut out = "[\n".to_string();
    push_json_object(&mut out, &finding("s.tla", 2, 3, Severity::Error, RuleCode::TLA000, "m"))
        .expect("json");
    assert_eq!(
        out,
        "[\n  {\n    \"file\": \"s.tla\",\n    \"line\": 2,\n    \"column\": 3,\n    \"severity\": \"error\",\n    \"code\": \"TLA000\",\n    \"message\": \"m\"\n  }"
    );
}
