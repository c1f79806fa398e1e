use mintcheck::{AuditReport, Severity, SourceSpan, Vulnerability};

fn vuln(id: &str, severity: Severity, start: usize) -> Vulnerability {
    Vulnerability {
        id: id.to_owned(),
        title: format!("{id} finding"),
        description: "details".to_owned(),
        severity,
        span: SourceSpan::new(start, start + 10),
        file_path: "contracts/Vault.sol".to_owned(),
    }
}

fn vuln_in(id: &str, severity: Severity, start: usize, file_path: &str) -> Vulnerability {
    Vulnerability {
        file_path: file_path.to_owned(),
        ..vuln(id, severity, start)
    }
}

fn ids(report: &AuditReport) -> Vec<&str> {
    report.vulnerabilities.iter().map(|v| v.id.as_str()).collect()
}

#[test]
fn severity_orders_critical_above_info() {
    assert!(Severity::Critical < Severity::High);
    assert!(Severity::High < Severity::Medium);
    assert!(Severity::Medium < Severity::Low);
    assert!(Severity::Low < Severity::Info);

    let mut levels = [Severity::Info, Severity::Critical, Severity::Medium];
    levels.sort();
    assert_eq!(
        levels,
        [Severity::Critical, Severity::Medium, Severity::Info]
    );
}

#[test]
fn severity_displays_cleanly() {
    assert_eq!(Severity::Critical.label(), "Critical");
    assert_eq!(Severity::Info.label(), "Info");
    assert_eq!(format!("[{}]", Severity::High.label()), "[High]");
}

#[test]
fn severity_ranks_follow_the_scale() {
    assert_eq!(Severity::Critical.rank(), 0);
    assert_eq!(Severity::High.rank(), 1);
    assert_eq!(Severity::Medium.rank(), 2);
    assert_eq!(Severity::Low.rank(), 3);
    assert_eq!(Severity::Info.rank(), 4);
    assert_eq!(Severity::Medium.as_label(), "Medium");
    assert_eq!(Severity::Low.as_label(), "Low");
}

#[test]
fn report_accumulates_and_sorts_by_severity() {
    let mut report = AuditReport::new("contracts/", 1_750_000_000);
    report.add_vulnerability(vuln("SWC-116", Severity::Low, 300));
    report.add_vulnerability(vuln("SWC-107", Severity::High, 120));
    report.add_vulnerability(vuln("SWC-112", Severity::Critical, 80));
    report.add_vulnerability(vuln("SWC-101", Severity::High, 40));
    assert_eq!(report.vulnerabilities.len(), 4);

    report.sort_by_severity();
    let order: Vec<&str> = report
        .vulnerabilities
        .iter()
        .map(|v| v.id.as_str())
        .collect();
    // Critical first; the two High findings tie-break by span start.
    assert_eq!(order, ["SWC-112", "SWC-101", "SWC-107", "SWC-116"]);
}

#[test]
fn started_now_stamps_a_plausible_timestamp() {
    let report = AuditReport::started_now("contracts/");
    // 2025-01-01T00:00:00Z — any sane clock is past this.
    assert!(report.timestamp > 1_735_689_600);
}

#[test]
fn new_report_is_empty_and_keeps_target_and_timestamp() {
    let report = AuditReport::new("contracts/Vault.sol", 42);
    assert_eq!(report.target_path, "contracts/Vault.sol");
    assert_eq!(report.timestamp, 42);
    assert!(report.vulnerabilities.is_empty());
}

#[test]
fn started_now_keeps_target_and_starts_empty() {
    let report = AuditReport::started_now("contracts/Vault.sol");
    assert_eq!(report.target_path, "contracts/Vault.sol");
    assert!(report.vulnerabilities.is_empty());
}

#[test]
fn sort_breaks_severity_ties_by_file_path_then_start_then_id() {
    let mut report = AuditReport::new("contracts/", 1);
    report.add_vulnerability(vuln_in("SWC-200", Severity::Medium, 10, "b.sol"));
    report.add_vulnerability(vuln_in("SWC-300", Severity::Medium, 10, "a.sol"));
    report.add_vulnerability(vuln_in("SWC-102", Severity::Medium, 5, "a.sol"));
    report.add_vulnerability(vuln_in("SWC-101", Severity::Medium, 10, "a.sol"));
    report.sort_by_severity();
    assert_eq!(ids(&report), ["SWC-102", "SWC-101", "SWC-300", "SWC-200"]);
}

#[test]
fn sort_keeps_full_ties_in_insertion_order() {
    let mut first = vuln("SWC-110", Severity::High, 7);
    first.title = "first".to_owned();
    let mut second = vuln("SWC-110", Severity::High, 7);
    second.title = "second".to_owned();
    let mut report = AuditReport::new("contracts/", 1);
    report.add_vulnerability(vuln("SWC-999", Severity::Info, 0));
    report.add_vulnerability(first);
    report.add_vulnerability(second);
    report.sort_by_severity();
    let titles: Vec<&str> = report.vulnerabilities.iter().map(|v| v.title.as_str()).collect();
    assert_eq!(titles, ["first", "second", "SWC-999 finding"]);
}

#[test]
fn sorting_a_sorted_report_changes_nothing() {
    let mut report = AuditReport::new("contracts/", 9);
    report.add_vulnerability(vuln("SWC-116", Severity::Low, 300));
    report.add_vulnerability(vuln("SWC-112", Severity::Critical, 80));
    report.add_vulnerability(vuln("SWC-101", Severity::High, 40));
    report.sort_by_severity();
    let once = report.clone();
    report.sort_by_severity();
    assert_eq!(report, once);
    assert_eq!(report.timestamp, 9);
    assert_eq!(report.target_path, "contracts/");
}

#[test]
fn sorting_an_empty_report_keeps_it_empty() {
    let mut report = AuditReport::new("contracts/", 3);
    report.sort_by_severity();
    assert!(report.vulnerabilities.is_empty());
}
