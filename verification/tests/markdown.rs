use mintcheck::{report_to_markdown, AuditReport, Severity, SourceSpan, Vulnerability};

fn mock_report() -> AuditReport {
    let mut report = AuditReport::new("contracts/Phish.sol", 1_750_000_000);
    report.add_vulnerability(Vulnerability {
        id: "SWC-116".to_owned(),
        title: "Block timestamp dependence".to_owned(),
        description: "Timestamp used in critical logic.".to_owned(),
        severity: Severity::Low,
        span: SourceSpan::new(120, 145),
        file_path: "contracts/Phish.sol".to_owned(),
    });
    report.add_vulnerability(Vulnerability {
        id: "SWC-115".to_owned(),
        title: "Authorization via tx.origin".to_owned(),
        description: "Use msg.sender for authorization.".to_owned(),
        severity: Severity::High,
        span: SourceSpan::new(57, 85),
        file_path: "contracts/Phish.sol".to_owned(),
    });
    report.sort_by_severity();
    report
}

#[test]
fn markdown_contains_title_summary_table_and_finding_sections() {
    let md = report_to_markdown(&mock_report());

    assert!(md.starts_with("# Smart Contract Audit Report\n"));
    assert!(md.contains("| Severity | Count |"));
    assert!(md.contains("| Critical | 0 |"));
    assert!(md.contains("| High | 1 |"));
    assert!(md.contains("| Low | 1 |"));

    // Findings are severity-sorted: High first, with full detail rows.
    assert!(md.contains("### 1. Authorization via tx.origin [High]"));
    assert!(md.contains("- **ID:** SWC-115"));
    assert!(md.contains("- **File:** `contracts/Phish.sol`"));
    assert!(md.contains("- **Span:** bytes 57..85"));
    assert!(md.contains("### 2. Block timestamp dependence [Low]"));
    assert!(md.contains("- **Span:** bytes 120..145"));
}

#[test]
fn markdown_for_clean_report_says_so() {
    let md = report_to_markdown(&AuditReport::new("contracts/Safe.sol", 1));
    assert!(md.contains("No vulnerabilities were identified."));
    assert!(md.contains("| Critical | 0 |"));
}

#[test]
fn markdown_for_clean_report_is_exact() {
    let md = report_to_markdown(&AuditReport::new("contracts/Safe.sol", 1_700_000_000));
    assert_eq!(
        md,
        "# Smart Contract Audit Report\n\n\
         **Target:** `contracts/Safe.sol`  \n\
         **Generated (unix):** 1700000000  \n\
         **Total findings:** 0\n\n\
         ## Summary\n\n\
         | Severity | Count |\n\
         |----------|-------|\n\
         | Critical | 0 |\n\
         | High | 0 |\n\
         | Medium | 0 |\n\
         | Low | 0 |\n\
         | Info | 0 |\n\
         \n## Findings\n\n\
         No vulnerabilities were identified.\n"
    );
}

#[test]
fn markdown_finding_section_is_exact() {
    let md = report_to_markdown(&mock_report());
    let expected_tail = "### 1. Authorization via tx.origin [High]\n\n\
                         - **ID:** SWC-115\n\
                         - **Severity:** High\n\
                         - **File:** `contracts/Phish.sol`\n\
                         - **Span:** bytes 57..85\n\n\
                         Use msg.sender for authorization.\n\n\
                         ### 2. Block timestamp dependence [Low]\n\n\
                         - **ID:** SWC-116\n\
                         - **Severity:** Low\n\
                         - **File:** `contracts/Phish.sol`\n\
                         - **Span:** bytes 120..145\n\n\
                         Timestamp used in critical logic.\n\n";
    assert!(md.ends_with(expected_tail));
    assert!(md.contains("**Generated (unix):** 1750000000  \n"));
    assert!(md.contains("**Total findings:** 2\n\n"));
    assert!(md.contains("| Medium | 0 |\n| Low | 1 |\n| Info | 0 |\n"));
}

#[test]
fn markdown_renders_zero_and_large_numbers() {
    let mut report = AuditReport::new("t", 0);
    report.add_vulnerability(Vulnerability {
        id: "X".to_owned(),
        title: "T".to_owned(),
        description: "D".to_owned(),
        severity: Severity::Info,
        span: SourceSpan::new(0, 1_234_567),
        file_path: "f".to_owned(),
    });
    let md = report_to_markdown(&report);
    assert!(md.contains("**Generated (unix):** 0  \n"));
    assert!(md.contains("- **Span:** bytes 0..1234567\n"));
    assert!(md.contains("| Info | 1 |\n"));
}

#[test]
fn summary_rows_add_up_to_the_total() {
    let md = report_to_markdown(&mock_report());
    let total: usize = md
        .lines()
        .filter(|l| l.starts_with("| ") && !l.starts_with("| Severity"))
        .map(|l| l.trim_end_matches(" |").rsplit(' ').next().unwrap_or("0").parse::<usize>().unwrap_or(0))
        .sum();
    assert_eq!(total, 2);
    assert!(md.contains("**Total findings:** 2\n"));
}
