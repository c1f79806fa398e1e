use mintcheck::{ASTNode, NodeKind, ParseError, ParserEngine, SourceSpan};

const SRC: &str = "contract Vault {\n    uint256 balance;\n    address public owner;\n\n    function deposit() public {\n        balance = balance + 1;\n    }\n\n    function getOwner() public view returns (address) {\n        return owner;\n    }\n}\n";

fn syntax_message(source: &str) -> String {
    match ParserEngine::new().parse_solidity(source) {
        Err(ParseError::SyntaxError(msg)) => msg,
        other => panic!("expected a syntax error, got {other:?}"),
    }
}

#[test]
fn parses_contract_with_nested_members_in_source_order() {
    let root = ParserEngine::new()
        .parse_solidity(SRC)
        .expect("valid source must parse");
    assert_eq!(root.kind, NodeKind::SourceUnit);
    assert_eq!(root.span, SourceSpan::new(0, SRC.len()));
    assert_eq!(root.children.len(), 1);

    let contract = &root.children[0];
    assert_eq!(contract.kind, NodeKind::ContractDefinition);
    let kinds: Vec<NodeKind> = contract.children.iter().map(|c| c.kind).collect();
    assert_eq!(
        kinds,
        [
            NodeKind::VariableDeclaration,
            NodeKind::VariableDeclaration,
            NodeKind::FunctionDefinition,
            NodeKind::FunctionDefinition,
        ]
    );
}

#[test]
fn spans_match_exact_byte_offsets_in_source() {
    let root = ParserEngine::new()
        .parse_solidity(SRC)
        .expect("valid source must parse");
    let contract = &root.children[0];

    let close = SRC.rfind('}').expect("closing brace present");
    assert_eq!(contract.span, SourceSpan::new(0, close + 1));

    let balance_start = SRC.find("uint256 balance").expect("decl present");
    assert_eq!(
        contract.children[0].span,
        SourceSpan::new(balance_start, balance_start + "uint256 balance;".len())
    );

    let deposit_start = SRC.find("function deposit").expect("fn present");
    let deposit_close =
        SRC.find("+ 1;\n    }").expect("body end present") + "+ 1;\n    }".len();
    assert_eq!(
        contract.children[2].span,
        SourceSpan::new(deposit_start, deposit_close)
    );
    let text = &SRC[deposit_start..deposit_close];
    assert!(text.starts_with("function deposit"));
    assert!(text.ends_with('}'));
}

#[test]
fn function_bodies_yield_expression_statement_children() {
    let root = ParserEngine::new()
        .parse_solidity(SRC)
        .expect("valid source must parse");
    let contract = &root.children[0];

    let deposit = &contract.children[2];
    assert_eq!(deposit.children.len(), 1);
    let stmt = &deposit.children[0];
    assert_eq!(stmt.kind, NodeKind::Expression);
    let stmt_start = SRC.find("balance = balance + 1;").expect("stmt present");
    assert_eq!(
        stmt.span,
        SourceSpan::new(stmt_start, stmt_start + "balance = balance + 1;".len())
    );

    let get_owner = &contract.children[3];
    assert_eq!(get_owner.children.len(), 1);
    assert_eq!(
        &SRC[get_owner.children[0].span.start..get_owner.children[0].span.end],
        "return owner;"
    );
}

#[test]
fn assigns_unique_preorder_node_ids() {
    let root = ParserEngine::new()
        .parse_solidity(SRC)
        .expect("valid source must parse");
    let mut ids = Vec::new();
    root.walk(&mut |n: &ASTNode| ids.push(n.id));
    assert_eq!(ids, (0..root.subtree_size()).collect::<Vec<_>>());
}

#[test]
fn parses_multiple_contracts_per_source_unit() {
    let src = "contract A { uint x; }\ncontract B { function f() external; }";
    let root = ParserEngine::new()
        .parse_solidity(src)
        .expect("valid source must parse");
    assert_eq!(root.children.len(), 2);
    let b = &root.children[1];
    let b_start = src.find("contract B").expect("B present");
    assert_eq!(b.span, SourceSpan::new(b_start, src.len()));
    assert_eq!(b.children[0].kind, NodeKind::FunctionDefinition);
}

#[test]
fn empty_source_is_rejected() {
    let engine = ParserEngine::new();
    assert_eq!(engine.parse_solidity(""), Err(ParseError::EmptySource));
    assert_eq!(
        engine.parse_solidity("  \n\t"),
        Err(ParseError::EmptySource)
    );
}

#[test]
fn malformed_input_yields_syntax_errors() {
    let engine = ParserEngine::new();

    let unbalanced = "contract Vault {\n    function f() public {\n}";
    assert!(matches!(
        engine.parse_solidity(unbalanced),
        Err(ParseError::SyntaxError(msg)) if msg.contains("unbalanced")
    ));

    let unnamed = "contract { uint x; }";
    assert!(matches!(
        engine.parse_solidity(unnamed),
        Err(ParseError::SyntaxError(msg)) if msg.contains("expected contract name")
    ));

    let no_contract = "uint x;";
    assert!(matches!(
        engine.parse_solidity(no_contract),
        Err(ParseError::SyntaxError(msg)) if msg.contains("no contract definition")
    ));
}

#[test]
fn parse_error_displays_cleanly() {
    assert_eq!(ParseError::EmptySource.message(), "source text is empty");
    assert_eq!(
        ParseError::SyntaxError("boom".to_owned()).message(),
        "syntax error: boom"
    );
}

#[test]
fn unicode_whitespace_only_source_is_empty() {
    assert_eq!(
        ParserEngine::new().parse_solidity("\u{a0}\u{2003}\n\u{3000}"),
        Err(ParseError::EmptySource)
    );
}

#[test]
fn contract_without_body_reports_missing_brace() {
    assert_eq!(syntax_message("contract Vault"), "expected '{' after contract 'Vault'");
}

#[test]
fn unbalanced_contract_names_the_contract() {
    assert_eq!(
        syntax_message("contract Vault { uint x;"),
        "unbalanced braces in contract 'Vault'"
    );
}

#[test]
fn unterminated_state_variable_is_rejected() {
    assert_eq!(
        syntax_message("contract Vault { uint256 balance }"),
        "unterminated state variable declaration"
    );
}

#[test]
fn unterminated_function_is_rejected() {
    assert_eq!(
        syntax_message("contract Vault { function f() public }"),
        "unterminated function definition"
    );
}

#[test]
fn unbalanced_function_body_is_rejected() {
    assert_eq!(
        syntax_message("contract X { function f() {"),
        "unbalanced braces in contract 'X'"
    );
    assert_eq!(
        syntax_message("contract X { function f() } {"),
        "unbalanced braces in function body"
    );
}

#[test]
fn exact_messages_for_unnamed_and_missing_contracts() {
    assert_eq!(
        syntax_message("contract { uint x; }"),
        "expected contract name after 'contract' keyword"
    );
    assert_eq!(syntax_message("uint x;"), "no contract definition found");
}

#[test]
fn contract_names_may_hold_non_ascii_letters() {
    assert_eq!(syntax_message("contract Tresor\u{e9} "), "expected '{' after contract 'Tresor\u{e9}'");
}

#[test]
fn keywords_inside_identifiers_are_not_contracts() {
    assert_eq!(syntax_message("mycontract X { }"), "no contract definition found");
    let root = ParserEngine::new()
        .parse_solidity("subcontract Y { } contract Z { }")
        .expect("valid source must parse");
    assert_eq!(root.children.len(), 1);
    assert_eq!(root.children[0].span.start, "subcontract Y { } ".len());
}

#[test]
fn bodyless_function_ends_at_its_semicolon() {
    let src = "contract I { function f() external; uint8 x; }";
    let root = ParserEngine::new().parse_solidity(src).expect("valid source must parse");
    let contract = &root.children[0];
    assert_eq!(contract.children.len(), 2);
    let f = &contract.children[0];
    let f_start = src.find("function").expect("present");
    assert_eq!(f.span, SourceSpan::new(f_start, f_start + "function f() external;".len()));
    assert!(f.children.is_empty());
    assert_eq!(contract.children[1].kind, NodeKind::VariableDeclaration);
}

#[test]
fn nested_blocks_in_a_body_stay_inside_one_statement() {
    let src = "contract C { function f() { if (a) { b = 1; } c = 2; } }";
    let root = ParserEngine::new().parse_solidity(src).expect("valid source must parse");
    let f = &root.children[0].children[0];
    assert_eq!(f.children.len(), 1);
    let stmt = &f.children[0];
    assert_eq!(&src[stmt.span.start..stmt.span.end], "if (a) { b = 1; } c = 2;");
}

#[test]
fn node_ids_count_up_in_preorder_across_contracts() {
    let src = "contract A { uint x; function f() { a; b; } }\ncontract B { bool y; }";
    let root = ParserEngine::new().parse_solidity(src).expect("valid source must parse");
    let mut seen = Vec::new();
    root.walk(&mut |n: &ASTNode| seen.push((n.id, n.kind)));
    assert_eq!(
        seen,
        vec![
            (0, NodeKind::SourceUnit),
            (1, NodeKind::ContractDefinition),
            (2, NodeKind::VariableDeclaration),
            (3, NodeKind::FunctionDefinition),
            (4, NodeKind::Expression),
            (5, NodeKind::Expression),
            (6, NodeKind::ContractDefinition),
            (7, NodeKind::VariableDeclaration),
        ]
    );
}

#[test]
fn default_engine_parses_like_new() {
    let engine = ParserEngine::default();
    assert_eq!(
        engine.parse_solidity("contract A { }").map(|r| r.subtree_size()),
        Ok(2)
    );
}

#[test]
fn every_parsed_span_is_a_nonempty_range_of_the_source() {
    let mut spans = Vec::new();
    let root = ParserEngine::new().parse_solidity(SRC).expect("valid source must parse");
    root.walk(&mut |n: &ASTNode| spans.push(n.span));
    assert_eq!(spans.len(), root.subtree_size());
    for span in spans {
        assert!(span.start < span.end);
        assert!(span.end <= SRC.len());
    }
}

#[test]
fn every_contract_keyword_lies_in_a_parsed_contract_ending_with_a_brace() {
    let src = "contract A { function f() { x = 1; } }\n// contract note\ncontract B { }";
    let root = ParserEngine::new().parse_solidity(src).expect("valid source must parse");
    for child in &root.children {
        assert_eq!(src.as_bytes()[child.span.end - 1], b'}');
    }
    // The keyword inside the comment starts a contract named `note` whose
    // body is the next `{ ... }`.
    let note_start = src.find("contract note").expect("present");
    assert_eq!(root.children.len(), 2);
    assert_eq!(root.children[1].span.start, note_start);
    assert_eq!(root.children[1].span.end, src.len());
}
