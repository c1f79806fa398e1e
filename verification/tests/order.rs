use mintcheck::clock::seconds_or_zero;
use mintcheck::report::{compare_bytes, key_lt_exec, Precedence};
use mintcheck::{Severity, SourceSpan, Vulnerability};

fn finding(severity: Severity, file_path: &str, start: usize, id: &str) -> Vulnerability {
    Vulnerability {
        id: id.to_owned(),
        title: "t".to_owned(),
        description: "d".to_owned(),
        severity,
        span: SourceSpan::new(start, start + 1),
        file_path: file_path.to_owned(),
    }
}

#[test]
fn byte_strings_compare_lexicographically() {
    assert!(matches!(compare_bytes(b"abc", b"abd"), Precedence::Before));
    assert!(matches!(compare_bytes(b"abd", b"abc"), Precedence::After));
    assert!(matches!(compare_bytes(b"ab", b"abc"), Precedence::Before));
    assert!(matches!(compare_bytes(b"abc", b"ab"), Precedence::After));
    assert!(matches!(compare_bytes(b"abc", b"abc"), Precedence::Same));
    assert!(matches!(compare_bytes(b"", b""), Precedence::Same));
    assert!(matches!(compare_bytes(b"B", b"a"), Precedence::Before));
}

#[test]
fn report_order_compares_severity_path_start_then_id() {
    let base = finding(Severity::High, "b.sol", 10, "SWC-2");
    assert!(key_lt_exec(&finding(Severity::Critical, "z.sol", 99, "Z"), &base));
    assert!(!key_lt_exec(&finding(Severity::Low, "a.sol", 0, "A"), &base));
    assert!(key_lt_exec(&finding(Severity::High, "a.sol", 99, "Z"), &base));
    assert!(key_lt_exec(&finding(Severity::High, "b.sol", 9, "Z"), &base));
    assert!(key_lt_exec(&finding(Severity::High, "b.sol", 10, "SWC-1"), &base));
    assert!(!key_lt_exec(&finding(Severity::High, "b.sol", 10, "SWC-2"), &base));
    assert!(!key_lt_exec(&base, &finding(Severity::High, "b.sol", 10, "SWC-2")));
}

#[test]
fn clock_reading_before_the_epoch_counts_as_zero() {
    assert_eq!(seconds_or_zero(Some(1_750_000_000)), 1_750_000_000);
    assert_eq!(seconds_or_zero(None), 0);
}
