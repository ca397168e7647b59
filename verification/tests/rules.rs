use tla_cli::lint::rules::{
    collect_declarations, collect_uses, contains_name, record_declaration, rule_missing_init_next,
    rule_unused_variables, run_all_rules, Declaration,
};
use tla_cli::lint::syntax::{NodeRecord, SyntaxTree};
use tla_cli::lint::types::{Diagnostic, RuleCode, Severity};
use tla_cli::lint::{lint_file, FileContext, SourceFile};

fn record(label: &str, depth: usize, start_byte: usize, end_byte: usize) -> NodeRecord {
    NodeRecord { label: label.to_string(), depth, start_byte, end_byte }
}

fn tree(records: Vec<NodeRecord>, text: &str) -> SyntaxTree {
    SyntaxTree::from_records(&records, text.len()).expect("a tree")
}

fn context(text: &str) -> FileContext {
    FileContext::new("spec.tla".to_string(), text.to_string())
}

fn lint(records: Vec<NodeRecord>, text: &str) -> Vec<Diagnostic> {
    let mut diags = Vec::new();
    run_all_rules(&context(text), &tree(records, text), &mut diags);
    diags
}

//            0         1         2
//            0123456789012345678901234567
const TEXT: &str = "VARIABLES a, b\nInit == a\nNext";

fn two_variables() -> Vec<NodeRecord> {
    vec![
        record("source_file", 0, 0, 29),
        record("variable_declaration", 1, 0, 14),
        record("identifier", 2, 10, 11),
        record("identifier", 2, 13, 14),
        record("operator_definition", 1, 15, 24),
        record("identifier", 2, 15, 19),
        record("identifier_ref", 2, 23, 24),
        record("operator_definition", 1, 25, 29),
        record("identifier", 2, 25, 29),
    ]
}

#[test]
fn tree_without_declarations_or_references_is_clean() {
    let diags = lint(vec![record("source_file", 0, 0, 29)], TEXT);
    assert!(diags.is_empty());
}

#[test]
fn empty_tree_is_clean() {
    let diags = lint(Vec::new(), "");
    assert!(diags.is_empty());
}

#[test]
fn references_without_declarations_are_clean() {
    let records = vec![
        record("source_file", 0, 0, 29),
        record("operator_definition", 1, 15, 24),
        record("identifier", 2, 15, 19),
        record("identifier_ref", 2, 23, 24),
    ];
    assert!(lint(records, TEXT).is_empty());
}

#[test]
fn name_referenced_once_is_not_reported() {
    let diags = lint(two_variables(), TEXT);
    assert!(diags.iter().all(|d| d.message != "Variable `a` is declared but never used"));
}

#[test]
fn name_never_referenced_is_reported_once_at_its_declaration() {
    let diags = lint(two_variables(), TEXT);
    assert_eq!(diags.len(), 1);
    let d = &diags[0];
    assert_eq!(d.file, "spec.tla");
    assert_eq!(d.severity, Severity::Warning);
    assert_eq!(d.code, RuleCode::TLA001);
    assert_eq!(d.message, "Variable `b` is declared but never used");
    assert_eq!((d.line, d.column), (1, 14));
}

#[test]
fn identifier_under_a_declaration_is_no_use() {
    // the only other occurrence of `a` is a second declaration
    let text = "VARIABLE a\nVARIABLE a\nInit\nNext";
    let records = vec![
        record("source_file", 0, 0, 31),
        record("variable_declaration", 1, 0, 10),
        record("identifier", 2, 9, 10),
        record("variable_declaration", 1, 11, 21),
        record("identifier", 2, 20, 21),
        record("operator_definition", 1, 22, 26),
        record("identifier", 2, 22, 26),
        record("operator_definition", 1, 27, 31),
        record("identifier", 2, 27, 31),
    ];
    let diags = lint(records, text);
    assert_eq!(diags.len(), 1);
    assert_eq!(diags[0].message, "Variable `a` is declared but never used");
    // the last declaration wins
    assert_eq!((diags[0].line, diags[0].column), (2, 10));
}

#[test]
fn unused_names_come_in_the_order_of_first_declaration() {
    let text = "VARIABLES p, q, p\nInit\nNext";
    let records = vec![
        record("source_file", 0, 0, 27),
        record("variable_declaration", 1, 0, 17),
        record("identifier", 2, 10, 11),
        record("identifier", 2, 13, 14),
        record("identifier", 2, 16, 17),
        record("operator_definition", 1, 18, 22),
        record("identifier", 2, 18, 22),
        record("operator_definition", 1, 23, 27),
        record("identifier", 2, 23, 27),
    ];
    let diags = lint(records, text);
    assert_eq!(diags.len(), 2);
    assert_eq!(diags[0].message, "Variable `p` is declared but never used");
    assert_eq!((diags[0].line, diags[0].column), (1, 17));
    assert_eq!(diags[1].message, "Variable `q` is declared but never used");
    assert_eq!((diags[1].line, diags[1].column), (1, 14));
}

#[test]
fn operator_names_count_as_uses() {
    // `Init` is declared as a variable and defined as an operator
    let text = "VARIABLE Init\nInit\nNext";
    let records = vec![
        record("source_file", 0, 0, 23),
        record("variable_declaration", 1, 0, 13),
        record("identifier", 2, 9, 13),
        record("operator_definition", 1, 14, 18),
        record("identifier", 2, 14, 18),
        record("operator_definition", 1, 19, 23),
        record("identifier", 2, 19, 23),
    ];
    assert!(lint(records, text).is_empty());
}

#[test]
fn declaration_without_operators_gives_two_errors_at_the_start() {
    let text = "VARIABLE v\nuse v";
    let records = vec![
        record("source_file", 0, 0, 16),
        record("variable_declaration", 1, 0, 10),
        record("identifier", 2, 9, 10),
        record("identifier_ref", 1, 15, 16),
    ];
    let diags = lint(records, text);
    assert_eq!(diags.len(), 2);
    for d in &diags {
        assert_eq!(d.severity, Severity::Error);
        assert_eq!(d.code, RuleCode::TLA002);
        assert_eq!((d.line, d.column), (1, 1));
        assert_eq!(d.file, "spec.tla");
    }
    assert_eq!(diags[0].message, "Module declares VARIABLES but is missing Init operator");
    assert_eq!(diags[1].message, "Module declares VARIABLES but is missing Next operator");
}

#[test]
fn only_next_defined_names_init_as_missing() {
    let text = "VARIABLE v\nNext == v";
    let records = vec![
        record("source_file", 0, 0, 20),
        record("variable_declaration", 1, 0, 10),
        record("identifier", 2, 9, 10),
        record("operator_definition", 1, 11, 20),
        record("identifier", 2, 11, 15),
        record("identifier_ref", 2, 19, 20),
    ];
    let diags = lint(records, text);
    assert_eq!(diags.len(), 1);
    assert_eq!(diags[0].severity, Severity::Error);
    assert_eq!(diags[0].message, "Module declares VARIABLES but is missing Init operator");
}

#[test]
fn only_init_defined_names_next_as_missing() {
    let text = "VARIABLE v\nInit == v";
    let records = vec![
        record("source_file", 0, 0, 20),
        record("variable_declaration", 1, 0, 10),
        record("identifier", 2, 9, 10),
        record("operator_definition", 1, 11, 20),
        record("identifier", 2, 11, 15),
        record("identifier_ref", 2, 19, 20),
    ];
    let diags = lint(records, text);
    assert_eq!(diags.len(), 1);
    assert_eq!(diags[0].message, "Module declares VARIABLES but is missing Next operator");
}

#[test]
fn operators_without_declarations_owe_nothing() {
    let text = "Other == 1";
    let records = vec![
        record("source_file", 0, 0, 10),
        record("operator_definition", 1, 0, 10),
        record("identifier", 2, 0, 5),
    ];
    assert!(lint(records, text).is_empty());
}

#[test]
fn operator_is_named_by_its_first_identifier() {
    // the second identifier child reads `Init`, the first does not
    let text = "VARIABLE v\nv Init Next";
    let records = vec![
        record("source_file", 0, 0, 22),
        record("variable_declaration", 1, 0, 10),
        record("identifier", 2, 9, 10),
        record("operator_definition", 1, 11, 22),
        record("identifier", 2, 11, 12),
        record("identifier", 2, 13, 17),
        record("identifier", 2, 18, 22),
    ];
    let diags = lint(records, text);
    assert_eq!(diags.len(), 2);
    assert_eq!(diags[0].message, "Module declares VARIABLES but is missing Init operator");
    assert_eq!(diags[1].message, "Module declares VARIABLES but is missing Next operator");
}

#[test]
fn span_that_is_not_text_is_passed_over() {
    // the identifier's span ends inside the two bytes of `é`
    let text = "VARIABLE \u{e9}\nInit\nNext";
    let records = vec![
        record("source_file", 0, 0, 21),
        record("variable_declaration", 1, 0, 11),
        record("identifier", 2, 9, 10),
        record("operator_definition", 1, 12, 16),
        record("identifier", 2, 12, 16),
        record("operator_definition", 1, 17, 21),
        record("identifier", 2, 17, 21),
    ];
    assert!(lint(records, text).is_empty());
}

#[test]
fn rules_append_to_what_is_there() {
    let ctx = context(TEXT);
    let tree = tree(two_variables(), TEXT);
    let mut diags = vec![Diagnostic {
        file: "earlier.tla".to_string(),
        line: 7,
        column: 3,
        severity: Severity::Error,
        code: RuleCode::TLA000,
        message: "kept".to_string(),
    }];
    rule_unused_variables(&ctx, &tree, &mut diags);
    rule_missing_init_next(&ctx, &tree, &mut diags);
    assert_eq!(diags.len(), 2);
    assert_eq!(diags[0].message, "kept");
    assert_eq!(diags[1].code, RuleCode::TLA001);
}

#[test]
fn unused_rule_runs_before_the_operator_rule() {
    let text = "VARIABLE v";
    let records = vec![
        record("source_file", 0, 0, 10),
        record("variable_declaration", 1, 0, 10),
        record("identifier", 2, 9, 10),
    ];
    let diags = lint(records, text);
    let codes: Vec<RuleCode> = diags.iter().map(|d| d.code).collect();
    assert_eq!(codes, vec![RuleCode::TLA001, RuleCode::TLA002, RuleCode::TLA002]);
}

#[test]
fn declarations_are_collected_with_their_last_offset() {
    let text = "VARIABLES p, q, p\nInit\nNext";
    let records = vec![
        record("source_file", 0, 0, 27),
        record("variable_declaration", 1, 0, 17),
        record("identifier", 2, 10, 11),
        record("identifier", 2, 13, 14),
        record("identifier", 2, 16, 17),
    ];
    let tree = tree(records, text);
    let table = collect_declarations(&context(text), &tree, &tree.traverse());
    let seen: Vec<(String, usize)> = table.into_iter().map(|d| (d.name, d.offset)).collect();
    assert_eq!(seen, vec![("p".to_string(), 16), ("q".to_string(), 13)]);
}

#[test]
fn uses_are_collected_outside_declarations() {
    let tree = tree(two_variables(), TEXT);
    let used = collect_uses(&context(TEXT), &tree, &tree.traverse());
    assert!(contains_name(&used, "a"));
    assert!(contains_name(&used, "Init"));
    assert!(contains_name(&used, "Next"));
    assert!(!contains_name(&used, "b"));
    assert!(!contains_name(&used, ""));
}

#[test]
fn recording_a_known_name_keeps_its_place() {
    let mut table = vec![
        Declaration { name: "a".to_string(), offset: 1 },
        Declaration { name: "b".to_string(), offset: 2 },
    ];
    record_declaration(&mut table, Declaration { name: "a".to_string(), offset: 9 });
    record_declaration(&mut table, Declaration { name: "c".to_string(), offset: 3 });
    let seen: Vec<(String, usize)> = table.into_iter().map(|d| (d.name, d.offset)).collect();
    assert_eq!(
        seen,
        vec![("a".to_string(), 9), ("b".to_string(), 2), ("c".to_string(), 3)]
    );
}

#[test]
fn file_without_a_tree_gets_the_parse_failure() {
    let file = SourceFile { path: "broken.tla".to_string(), text: "VARIABLE x".to_string() };
    let mut diags = Vec::new();
    lint_file(&file, None, &mut diags);
    assert_eq!(diags.len(), 1);
    let d = &diags[0];
    assert_eq!(d.file, "broken.tla");
    assert_eq!((d.line, d.column), (0, 0));
    assert_eq!(d.severity, Severity::Error);
    assert_eq!(d.code, RuleCode::TLA000);
    assert_eq!(d.message, "Failed to parse TLA+ file");
}

#[test]
fn file_with_a_tree_gets_the_rules() {
    let file = SourceFile { path: "spec.tla".to_string(), text: TEXT.to_string() };
    let tree = tree(two_variables(), TEXT);
    let mut diags = Vec::new();
    lint_file(&file, Some(&tree), &mut diags);
    assert_eq!(diags.len(), 1);
    assert_eq!(diags[0].code, RuleCode::TLA001);
}
