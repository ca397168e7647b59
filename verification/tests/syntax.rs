use tla_cli::lint::syntax::{NodeKind, NodeRecord, SyntaxTree};

fn record(label: &str, depth: usize, start_byte: usize, end_byte: usize) -> NodeRecord {
    NodeRecord { label: label.to_string(), depth, start_byte, end_byte }
}

#[test]
fn labels_map_to_kinds() {
    assert_eq!(NodeKind::from_label("variable_declaration"), NodeKind::VariableDeclaration);
    assert_eq!(NodeKind::from_label("constant_declaration"), NodeKind::ConstantDeclaration);
    assert_eq!(NodeKind::from_label("operator_definition"), NodeKind::OperatorDefinition);
    assert_eq!(NodeKind::from_label("identifier"), NodeKind::Identifier);
    assert_eq!(NodeKind::from_label("identifier_ref"), NodeKind::IdentifierRef);
    assert_eq!(NodeKind::from_label("module"), NodeKind::Other);
    assert_eq!(NodeKind::from_label(""), NodeKind::Other);
    assert_eq!(NodeKind::from_label("Identifier"), NodeKind::Other);
}

#[test]
fn kinds_know_what_they_are() {
    assert!(NodeKind::VariableDeclaration.is_declaration());
    assert!(NodeKind::ConstantDeclaration.is_declaration());
    assert!(!NodeKind::OperatorDefinition.is_declaration());
    assert!(!NodeKind::Identifier.is_declaration());
    assert!(NodeKind::Identifier.is_identifier_use());
    assert!(NodeKind::IdentifierRef.is_identifier_use());
    assert!(!NodeKind::Other.is_identifier_use());
    assert!(!NodeKind::VariableDeclaration.is_identifier_use());
}

#[test]
fn listing_becomes_a_tree() {
    let records = vec![
        record("source_file", 0, 0, 20),
        record("variable_declaration", 1, 0, 10),
        record("identifier", 2, 9, 10),
        record("operator_definition", 1, 11, 20),
        record("identifier", 2, 11, 15),
        record("bound_infix_op", 2, 19, 20),
        record("identifier_ref", 3, 19, 20),
    ];
    let tree = SyntaxTree::from_records(&records, 20).expect("a tree");
    assert_eq!(tree.len(), 7);
    let parents: Vec<Option<usize>> = tree.nodes.iter().map(|n| n.parent).collect();
    assert_eq!(parents, vec![None, Some(0), Some(1), Some(0), Some(3), Some(3), Some(5)]);
    assert_eq!(tree.nodes[0].children, vec![1, 3]);
    assert_eq!(tree.nodes[1].children, vec![2]);
    assert_eq!(tree.nodes[2].children, Vec::<usize>::new());
    assert_eq!(tree.nodes[3].children, vec![4, 5]);
    assert_eq!(tree.nodes[5].children, vec![6]);
    assert_eq!(tree.nodes[3].kind, NodeKind::OperatorDefinition);
    assert_eq!(tree.nodes[5].kind, NodeKind::Other);
    assert_eq!((tree.nodes[4].start_byte, tree.nodes[4].end_byte), (11, 15));
    assert_eq!(tree.node(6).kind, NodeKind::IdentifierRef);
    assert_eq!(tree.traverse(), vec![0, 1, 2, 3, 4, 5, 6]);
    assert_eq!(tree.child_identifiers(3), vec![4]);
    assert_eq!(tree.child_identifiers(0), Vec::<usize>::new());
}

#[test]
fn empty_listing_is_an_empty_tree() {
    let tree = SyntaxTree::from_records(&Vec::new(), 0).expect("a tree");
    assert_eq!(tree.len(), 0);
    assert_eq!(tree.traverse(), Vec::<usize>::new());
}

#[test]
fn listing_must_start_at_the_root() {
    assert!(SyntaxTree::from_records(&vec![record("source_file", 1, 0, 0)], 0).is_none());
}

#[test]
fn listing_has_one_root() {
    let records = vec![record("a", 0, 0, 1), record("b", 0, 0, 1)];
    assert!(SyntaxTree::from_records(&records, 1).is_none());
}

#[test]
fn listing_goes_down_one_level_at_a_time() {
    let records = vec![record("a", 0, 0, 1), record("b", 2, 0, 1)];
    assert!(SyntaxTree::from_records(&records, 1).is_none());
    let records = vec![record("a", 0, 0, 1), record("b", 1, 0, 1), record("c", 2, 0, 1)];
    assert!(SyntaxTree::from_records(&records, 1).is_some());
}

#[test]
fn listing_may_go_up_any_number_of_levels() {
    let records = vec![
        record("a", 0, 0, 1),
        record("b", 1, 0, 1),
        record("c", 2, 0, 1),
        record("d", 3, 0, 1),
        record("e", 1, 0, 1),
    ];
    let tree = SyntaxTree::from_records(&records, 1).expect("a tree");
    assert_eq!(tree.nodes[4].parent, Some(0));
    assert_eq!(tree.nodes[0].children, vec![1, 4]);
}

#[test]
fn spans_must_run_forward_and_end_in_the_text() {
    assert!(SyntaxTree::from_records(&vec![record("a", 0, 3, 2)], 10).is_none());
    assert!(SyntaxTree::from_records(&vec![record("a", 0, 0, 11)], 10).is_none());
    assert!(SyntaxTree::from_records(&vec![record("a", 0, 10, 10)], 10).is_some());
}

#[test]
fn traversal_visits_a_node_before_its_children() {
    let records = vec![
        record("r", 0, 0, 0),
        record("a", 1, 0, 0),
        record("a1", 2, 0, 0),
        record("a2", 2, 0, 0),
        record("b", 1, 0, 0),
        record("b1", 2, 0, 0),
    ];
    let tree = SyntaxTree::from_records(&records, 0).expect("a tree");
    assert_eq!(tree.traverse(), vec![0, 1, 2, 3, 4, 5]);
}

#[test]
fn only_identifier_children_are_listed() {
    let records = vec![
        record("variable_declaration", 0, 0, 9),
        record("identifier", 1, 0, 1),
        record("identifier_ref", 1, 2, 3),
        record("identifier", 1, 4, 5),
        record("other", 1, 6, 9),
        record("identifier", 2, 6, 7),
    ];
    let tree = SyntaxTree::from_records(&records, 9).expect("a tree");
    assert_eq!(tree.child_identifiers(0), vec![1, 3]);
    assert_eq!(tree.child_identifiers(4), vec![5]);
}
