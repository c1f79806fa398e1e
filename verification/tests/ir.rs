use mintcheck::{ASTNode, NodeKind, SourceSpan};

/// Mock tree mirroring:
/// `contract C { uint x; function f() { x = 1; } }`
fn mock_ast() -> ASTNode {
    let state_var = ASTNode::new(2, NodeKind::VariableDeclaration, SourceSpan::new(13, 20));
    let assignment = ASTNode::new(4, NodeKind::Expression, SourceSpan::new(38, 43));
    let body_stmt =
        ASTNode::new(3, NodeKind::Statement, SourceSpan::new(38, 44)).with_child(assignment);
    let function = ASTNode::new(1, NodeKind::FunctionDefinition, SourceSpan::new(22, 46))
        .with_child(body_stmt);
    ASTNode::new(0, NodeKind::ContractDefinition, SourceSpan::new(0, 48))
        .with_child(state_var)
        .with_child(function)
}

#[test]
fn child_traversal_visits_all_nodes_in_preorder() {
    let root = mock_ast();
    assert_eq!(root.subtree_size(), 5);

    let mut visited = Vec::new();
    root.walk(&mut |node: &ASTNode| visited.push((node.id, node.kind)));
    assert_eq!(
        visited,
        vec![
            (0, NodeKind::ContractDefinition),
            (2, NodeKind::VariableDeclaration),
            (1, NodeKind::FunctionDefinition),
            (3, NodeKind::Statement),
            (4, NodeKind::Expression),
        ]
    );
}

#[test]
fn direct_children_are_ordered_and_typed() {
    let root = mock_ast();
    assert_eq!(root.children.len(), 2);
    assert_eq!(root.children[0].kind, NodeKind::VariableDeclaration);
    assert_eq!(root.children[1].kind, NodeKind::FunctionDefinition);
    // The function holds the statement, which holds the expression.
    let function = &root.children[1];
    assert_eq!(function.children[0].kind, NodeKind::Statement);
    assert_eq!(function.children[0].children[0].kind, NodeKind::Expression);
}

#[test]
fn source_span_length_and_emptiness() {
    assert_eq!(SourceSpan::new(10, 25).len(), 15);
    assert!(SourceSpan::new(7, 7).is_empty());
    assert!(!SourceSpan::new(0, 1).is_empty());
}

#[test]
fn test_scaffold() {
    assert_eq!(2 + 2, 4);
}

#[test]
fn reversed_span_has_zero_length() {
    let span = SourceSpan::new(30, 12);
    assert_eq!(span.len(), 0);
    assert!(span.is_empty());
}

#[test]
fn leaf_node_keeps_its_fields_and_has_no_children() {
    let node = ASTNode::new(7, NodeKind::Statement, SourceSpan::new(3, 9));
    assert_eq!(node.id, 7);
    assert_eq!(node.kind, NodeKind::Statement);
    assert_eq!(node.span, SourceSpan::new(3, 9));
    assert!(node.children.is_empty());
    assert_eq!(node.subtree_size(), 1);
}

#[test]
fn walk_visits_a_leaf_exactly_once() {
    let node = ASTNode::new(5, NodeKind::Expression, SourceSpan::new(0, 1));
    let mut count = 0usize;
    node.walk(&mut |_: &ASTNode| count += 1);
    assert_eq!(count, 1);
}

#[test]
fn clone_copies_the_whole_tree() {
    let root = mock_ast();
    let copy = root.clone();
    assert_eq!(copy, root);
    assert_eq!(copy.subtree_size(), 5);
    assert_eq!(copy.children[1].children[0].children[0].span, SourceSpan::new(38, 43));
}

#[test]
fn preorder_listing_matches_the_walk_and_the_size() {
    let root = mock_ast();
    let listed: Vec<(usize, NodeKind)> = root.preorder_nodes().iter().map(|n| (n.id, n.kind)).collect();
    let mut walked = Vec::new();
    root.walk(&mut |n: &ASTNode| walked.push((n.id, n.kind)));
    assert_eq!(listed, walked);
    assert_eq!(listed.len(), root.subtree_size());
    assert_eq!(listed[0], (0, NodeKind::ContractDefinition));
}

#[test]
fn subtree_size_is_one_plus_the_childrens_sizes() {
    let root = mock_ast();
    let children: usize = root.children.iter().map(|c| c.subtree_size()).sum();
    assert_eq!(root.subtree_size(), 1 + children);
}
