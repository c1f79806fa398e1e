use mintcheck::{audit_source, report_to_markdown, ParseError, Severity};

const VULNERABLE: &str = "contract Phish {\n    address owner;\n\n    function auth() public {\n        require(tx.origin == owner);\n        count = count + 1;\n    }\n}\n";

#[test]
fn audits_vulnerable_contract_end_to_end() {
    let report =
        audit_source("contracts/Phish.sol", VULNERABLE).expect("valid source must audit cleanly");

    assert_eq!(report.target_path, "contracts/Phish.sol");
    assert_eq!(report.vulnerabilities.len(), 1);

    let v = &report.vulnerabilities[0];
    assert_eq!(v.id, "SWC-115");
    assert_eq!(v.severity, Severity::High);
    assert_eq!(v.file_path, "contracts/Phish.sol");

    // The span must point exactly at the offending statement.
    let stmt = "require(tx.origin == owner);";
    let start = VULNERABLE.find(stmt).expect("stmt present");
    assert_eq!(v.span.start, start);
    assert_eq!(v.span.end, start + stmt.len());
    assert_eq!(&VULNERABLE[v.span.start..v.span.end], stmt);
}

#[test]
fn clean_contract_yields_empty_report() {
    let safe = "contract Safe {\n    uint256 count;\n\n    function bump() public {\n        count = count + 1;\n    }\n}\n";
    let report = audit_source("contracts/Safe.sol", safe).expect("valid source must audit");
    assert!(report.vulnerabilities.is_empty());
    assert_eq!(report.target_path, "contracts/Safe.sol");
}

#[test]
fn parse_failures_propagate_to_the_caller() {
    assert_eq!(
        audit_source("contracts/Empty.sol", "   "),
        Err(ParseError::EmptySource)
    );
    assert!(matches!(
        audit_source("contracts/Broken.sol", "contract X { function f() {"),
        Err(ParseError::SyntaxError(_))
    ));
}

#[test]
fn findings_come_out_in_source_order_for_equal_severity() {
    let src = "contract P {\n    function a() public { require(tx.origin == o); }\n    function b() public { x = tx.origin; }\n}\n";
    let report = audit_source("contracts/P.sol", src).expect("valid source must audit");
    assert_eq!(report.vulnerabilities.len(), 2);
    let first = &report.vulnerabilities[0];
    let second = &report.vulnerabilities[1];
    assert_eq!(&src[first.span.start..first.span.end], "require(tx.origin == o);");
    assert_eq!(&src[second.span.start..second.span.end], "x = tx.origin;");
}

#[test]
fn declarations_mentioning_tx_origin_are_not_findings() {
    let src = "contract P { address tx_origin_copy; bool o = tx.origin == a; }";
    let report = audit_source("contracts/P.sol", src).expect("valid source must audit");
    assert!(report.vulnerabilities.is_empty());
}

#[test]
fn audited_report_renders_as_markdown() {
    let src = "contract Phish { function auth() public { require(tx.origin == owner); } }";
    let report = audit_source("contracts/Phish.sol", src).expect("valid contract must audit");
    let md = report_to_markdown(&report);
    assert!(md.starts_with("# Smart Contract Audit Report"));
    assert!(md.contains("SWC-115"));
    assert!(md.contains("| High | 1 |"));
}

#[test]
fn blank_source_error_reads_cleanly() {
    let err = audit_source("x.sol", "   \n").expect_err("blank source must fail the audit");
    assert_eq!(err.message(), "source text is empty");
}
