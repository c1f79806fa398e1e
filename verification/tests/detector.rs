use mintcheck::{ASTNode, Detector, NodeKind, Severity, SourceSpan, TxOriginDetector};

const SRC: &str =
    "contract Phish { function auth() public { require(tx.origin == owner); count = count + 1; } }";

/// Mock AST: a contract holding one function with two expressions —
/// the dangerous tx.origin check and a benign counter increment.
fn mock_ast() -> (ASTNode, SourceSpan) {
    let danger_start = SRC.find("tx.origin == owner").expect("present");
    let danger = SourceSpan::new(danger_start, danger_start + "tx.origin == owner".len());
    let benign_start = SRC.find("count = count + 1").expect("present");
    let benign = SourceSpan::new(benign_start, benign_start + "count = count + 1".len());

    let function = ASTNode::new(2, NodeKind::FunctionDefinition, SourceSpan::new(17, 93))
        .with_child(ASTNode::new(3, NodeKind::Expression, danger))
        .with_child(ASTNode::new(4, NodeKind::Expression, benign));
    let root = ASTNode::new(0, NodeKind::SourceUnit, SourceSpan::new(0, SRC.len())).with_child(
        ASTNode::new(
            1,
            NodeKind::ContractDefinition,
            SourceSpan::new(0, SRC.len()),
        )
        .with_child(function),
    );
    (root, danger)
}

#[test]
fn flags_exactly_one_tx_origin_expression_as_high() {
    let (root, danger_span) = mock_ast();
    let detector = TxOriginDetector::new(SRC);
    let findings = detector.check(&root, "contracts/Phish.sol");

    assert_eq!(findings.len(), 1);
    let v = &findings[0];
    assert_eq!(v.severity, Severity::High);
    assert_eq!(v.id, "SWC-115");
    assert_eq!(v.span, danger_span);
    assert_eq!(v.file_path, "contracts/Phish.sol");
    assert!(!v.description.is_empty());
}

#[test]
fn clean_ast_yields_no_findings() {
    let src = "contract Safe { function f() public { count = count + 1; } }";
    let expr_start = src.find("count = count + 1").expect("present");
    let root = ASTNode::new(0, NodeKind::SourceUnit, SourceSpan::new(0, src.len())).with_child(
        ASTNode::new(
            1,
            NodeKind::Expression,
            SourceSpan::new(expr_start, expr_start + "count = count + 1".len()),
        ),
    );
    assert!(TxOriginDetector::new(src)
        .check(&root, "contracts/Safe.sol")
        .is_empty());
}

#[test]
fn non_expression_nodes_are_never_flagged() {
    // The whole function span contains "tx.origin", but only Expression
    // nodes are eligible — a tree without them must stay silent.
    let (mut root, _) = mock_ast();
    root.children[0].children[0].children.clear();
    assert!(TxOriginDetector::new(SRC)
        .check(&root, "contracts/Phish.sol")
        .is_empty());
}

#[test]
fn detector_metadata_is_fixed() {
    let detector = TxOriginDetector::new("");
    assert_eq!(detector.name(), "Authorization via tx.origin");
    assert_eq!(detector.id(), "SWC-115");
    assert_eq!(detector.severity(), Severity::High);
}

#[test]
fn finding_carries_title_and_guidance() {
    let (root, _) = mock_ast();
    let findings = TxOriginDetector::new(SRC).check(&root, "contracts/Phish.sol");
    assert_eq!(findings[0].title, "Authorization via tx.origin");
    assert_eq!(
        findings[0].description,
        "tx.origin is the transaction originator, not the immediate caller; a phishing contract can relay calls that pass this check. Use msg.sender for authorization."
    );
}

#[test]
fn spans_outside_the_source_are_skipped() {
    let root = ASTNode::new(0, NodeKind::Expression, SourceSpan::new(0, 500));
    assert!(TxOriginDetector::new(SRC).check(&root, "x.sol").is_empty());
    let reversed = ASTNode::new(0, NodeKind::Expression, SourceSpan::new(60, 40));
    assert!(TxOriginDetector::new(SRC).check(&reversed, "x.sol").is_empty());
}

#[test]
fn spans_splitting_a_character_are_skipped() {
    let src = "\u{e9}tx.origin";
    // Byte 1 is inside the two-byte encoding of the first character.
    let inside = ASTNode::new(0, NodeKind::Expression, SourceSpan::new(1, src.len()));
    assert!(TxOriginDetector::new(src).check(&inside, "x.sol").is_empty());
    let whole = ASTNode::new(0, NodeKind::Expression, SourceSpan::new(0, src.len()));
    assert_eq!(TxOriginDetector::new(src).check(&whole, "x.sol").len(), 1);
}

#[test]
fn nested_expressions_are_reported_in_preorder() {
    let src = "tx.origin; tx.origin;";
    let outer = ASTNode::new(0, NodeKind::Expression, SourceSpan::new(0, src.len()))
        .with_child(ASTNode::new(1, NodeKind::Expression, SourceSpan::new(11, 21)));
    let findings = TxOriginDetector::new(src).check(&outer, "x.sol");
    let spans: Vec<SourceSpan> = findings.iter().map(|v| v.span).collect();
    assert_eq!(spans, [SourceSpan::new(0, 21), SourceSpan::new(11, 21)]);
}
