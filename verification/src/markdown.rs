//! Markdown rendering of an audit report: title, severity summary table,
//! then one detailed section per finding in the report's order.

use vstd::prelude::*;

use crate::finding::{severity_label, Severity, Vulnerability};
use crate::report::AuditReport;
use crate::scan::push_char;

verus! {

// ---------------------------------------------------------------------------
// Decimal numerals
// ---------------------------------------------------------------------------

/// The digit character for `d` (for `d` from 0 to 9).
pub open spec fn digit_char(d: nat) -> char {
    if d == 0 {
        '0'
    } else if d == 1 {
        '1'
    } else if d == 2 {
        '2'
    } else if d == 3 {
        '3'
    } else if d == 4 {
        '4'
    } else if d == 5 {
        '5'
    } else if d == 6 {
        '6'
    } else if d == 7 {
        '7'
    } else if d == 8 {
        '8'
    } else {
        '9'
    }
}

/// The decimal numeral of `n`, without leading zeros.
pub open spec fn decimal(n: nat) -> Seq<char>
    decreases n,
{
    if n < 10 {
        seq![digit_char(n)]
    } else {
        decimal(n / 10).push(digit_char(n % 10))
    }
}

/// The value of the base-10 numeral `cs`, each character read as its code
/// minus the code of `'0'`.
pub open spec fn numeral_value(cs: Seq<char>) -> int
    decreases cs.len(),
{
    if cs.len() == 0 {
        0
    } else {
        numeral_value(cs.drop_last()) * 10 + (cs.last() as u32 - 48)
    }
}

/// The digit character of `d` is the character whose code is `'0'`'s plus `d`.
pub proof fn lemma_digit_char_code(d: nat)
    requires
        d < 10,
    ensures
        digit_char(d) as u32 == 48 + d,
{
}

/// The numeral of `n` is made of the characters `'0'` to `'9'`, has no
/// leading zero unless it is `"0"`, and reads back as `n` in base 10.
pub proof fn lemma_decimal_value(n: nat)
    ensures
        numeral_value(decimal(n)) == n,
        decimal(n).len() > 0,
        (decimal(n).len() == 1) == (n < 10),
        decimal(n).len() > 1 ==> decimal(n)[0] != '0',
        forall|i: int| 0 <= i < decimal(n).len() ==> 48 <= (#[trigger] decimal(n)[i]) as u32 <= 57,
    decreases n,
{
    if n < 10 {
        lemma_digit_char_code(n);
        assert(decimal(n) =~= seq![digit_char(n)]);
        let cs = decimal(n);
        assert(cs.drop_last() =~= Seq::<char>::empty());
        assert(numeral_value(cs.drop_last()) == 0);
        assert(cs.last() == digit_char(n));
        assert(numeral_value(cs) == numeral_value(cs.drop_last()) * 10 + (cs.last() as u32 - 48));
    } else {
        let q = n / 10;
        let r = n % 10;
        lemma_decimal_value(q);
        lemma_digit_char_code(r);
        let cs = decimal(n);
        assert(cs == decimal(q).push(digit_char(r)));
        assert(cs.drop_last() =~= decimal(q));
        assert(cs.last() == digit_char(r));
        assert(numeral_value(cs) == numeral_value(cs.drop_last()) * 10 + (cs.last() as u32 - 48));
        assert(n == q * 10 + r);
        assert forall|i: int| 0 <= i < cs.len() implies 48 <= (#[trigger] cs[i]) as u32 <= 57 by {
            if i < decimal(q).len() {
                assert(cs[i] == decimal(q)[i]);
            }
        }
        assert(cs[0] == decimal(q)[0]);
        if decimal(q).len() == 1 {
            assert(1 <= q < 10);
            assert(decimal(q) == seq![digit_char(q)]);
            lemma_digit_char_code(q);
        }
    }
}

fn digit_char_exec(d: u64) -> (c: char)
    requires
        d < 10,
    ensures
        c == digit_char(d as nat),
{
    match d {
        0 => '0',
        1 => '1',
        2 => '2',
        3 => '3',
        4 => '4',
        5 => '5',
        6 => '6',
        7 => '7',
        8 => '8',
        _ => '9',
    }
}

/// Appends the decimal numeral of `n`.
fn push_decimal(out: &mut String, n: u64)
    ensures
        final(out)@ == old(out)@ + decimal(n as nat),
    decreases n,
{
    if n >= 10 {
        push_decimal(out, n / 10);
    }
    push_char(out, digit_char_exec(n % 10));
    proof {
        if n < 10 {
            assert(n % 10 == n);
        }
        assert(old(out)@ + decimal(n as nat) =~= if n < 10 {
            old(out)@.push(digit_char((n % 10) as nat))
        } else {
            (old(out)@ + decimal((n / 10) as nat)).push(digit_char((n % 10) as nat))
        });
    }
}

// ---------------------------------------------------------------------------
// The rendered text
// ---------------------------------------------------------------------------

/// How many of `vs` have severity `s`.
pub open spec fn severity_count(vs: Seq<Vulnerability>, s: Severity) -> nat
    decreases vs.len(),
{
    if vs.len() == 0 {
        0
    } else {
        severity_count(vs.drop_last(), s) + if vs.last().severity == s {
            1nat
        } else {
            0nat
        }
    }
}

/// The rows of the summary table add up to the number of findings.
pub proof fn lemma_severity_counts_total(vs: Seq<Vulnerability>)
    ensures
        severity_count(vs, Severity::Critical) + severity_count(vs, Severity::High) + severity_count(
            vs,
            Severity::Medium,
        ) + severity_count(vs, Severity::Low) + severity_count(vs, Severity::Info) == vs.len(),
    decreases vs.len(),
{
    if vs.len() > 0 {
        lemma_severity_counts_total(vs.drop_last());
    }
}

/// Title block: target, timestamp and number of findings.
pub open spec fn markdown_header(r: AuditReport) -> Seq<char> {
    "# Smart Contract Audit Report\n\n"@ + "**Target:** `"@ + r.target_path@ + "`  \n"@
        + "**Generated (unix):** "@ + decimal(r.timestamp as nat) + "  \n"@
        + "**Total findings:** "@ + decimal(r.vulnerabilities@.len()) + "\n\n"@
}

/// One row of the summary table.
pub open spec fn summary_row(vs: Seq<Vulnerability>, s: Severity) -> Seq<char> {
    "| "@ + severity_label(s) + " | "@ + decimal(severity_count(vs, s)) + " |\n"@
}

/// The summary table: one row per severity, most severe first.
pub open spec fn markdown_summary(vs: Seq<Vulnerability>) -> Seq<char> {
    "## Summary\n\n| Severity | Count |\n|----------|-------|\n"@ + summary_row(vs, Severity::Critical)
        + summary_row(vs, Severity::High) + summary_row(vs, Severity::Medium) + summary_row(
        vs,
        Severity::Low,
    ) + summary_row(vs, Severity::Info)
}

/// The detailed section of finding number `number` (counting from 1).
pub open spec fn finding_section(v: Vulnerability, number: nat) -> Seq<char> {
    "### "@ + decimal(number) + ". "@ + v.title@ + " ["@ + severity_label(v.severity) + "]\n\n"@
        + "- **ID:** "@ + v.id@ + "\n- **Severity:** "@ + severity_label(v.severity)
        + "\n- **File:** `"@ + v.file_path@ + "`\n- **Span:** bytes "@ + decimal(
        v.span.start as nat,
    ) + ".."@ + decimal(v.span.end as nat) + "\n\n"@ + v.description@ + "\n\n"@
}

/// The sections of all of `vs`, numbered from 1 in order.
pub open spec fn finding_sections(vs: Seq<Vulnerability>) -> Seq<char>
    decreases vs.len(),
{
    if vs.len() == 0 {
        seq![]
    } else {
        finding_sections(vs.drop_last()) + finding_section(vs.last(), vs.len())
    }
}

/// The findings part: the sections, or a sentence saying there are none.
pub open spec fn markdown_findings(vs: Seq<Vulnerability>) -> Seq<char> {
    "\n## Findings\n\n"@ + if vs.len() == 0 {
        "No vulnerabilities were identified.\n"@
    } else {
        finding_sections(vs)
    }
}

/// The Markdown text of a report.
pub open spec fn markdown(r: AuditReport) -> Seq<char> {
    markdown_header(r) + markdown_summary(r.vulnerabilities@) + markdown_findings(r.vulnerabilities@)
}

// ---------------------------------------------------------------------------
// Rendering
// ---------------------------------------------------------------------------

fn count_severity(vs: &Vec<Vulnerability>, level: Severity) -> (n: usize)
    ensures
        n == severity_count(vs@, level),
{
    let mut n: usize = 0;
    let mut i: usize = 0;
    while i < vs.len()
        invariant
            0 <= i <= vs@.len(),
            n <= i,
            n == severity_count(vs@.take(i as int), level),
        decreases vs@.len() - i,
    {
        proof {
            assert(vs@.take(i + 1).drop_last() =~= vs@.take(i as int));
        }
        if vs[i].severity == level {
            n = n + 1;
        }
        i = i + 1;
    }
    proof {
        assert(vs@.take(i as int) =~= vs@);
    }
    n
}

fn push_summary_row(out: &mut String, vs: &Vec<Vulnerability>, level: Severity)
    ensures
        final(out)@ == old(out)@ + summary_row(vs@, level),
{
    out.append("| ");
    out.append(level.as_label());
    out.append(" | ");
    let count = count_severity(vs, level);
    push_decimal(out, count as u64);
    out.append(" |\n");
    proof {
        assert(old(out)@ + summary_row(vs@, level) =~= old(out)@ + "| "@ + severity_label(level) + " | "@
            + decimal(severity_count(vs@, level)) + " |\n"@);
    }
}

fn push_section(out: &mut String, v: &Vulnerability, number: usize)
    ensures
        final(out)@ == old(out)@ + finding_section(*v, number as nat),
{
    let label = v.severity.as_label();
    out.append("### ");
    push_decimal(out, number as u64);
    out.append(". ");
    out.append(v.title.as_str());
    out.append(" [");
    out.append(label);
    out.append("]\n\n");
    out.append("- **ID:** ");
    out.append(v.id.as_str());
    out.append("\n- **Severity:** ");
    out.append(label);
    out.append("\n- **File:** `");
    out.append(v.file_path.as_str());
    out.append("`\n- **Span:** bytes ");
    push_decimal(out, v.span.start as u64);
    out.append("..");
    push_decimal(out, v.span.end as u64);
    out.append("\n\n");
    out.append(v.description.as_str());
    out.append("\n\n");
    proof {
        assert(old(out)@ + finding_section(*v, number as nat) =~= old(out)@ + "### "@ + decimal(
            number as nat,
        ) + ". "@ + v.title@ + " ["@ + severity_label(v.severity) + "]\n\n"@ + "- **ID:** "@ + v.id@
            + "\n- **Severity:** "@ + severity_label(v.severity) + "\n- **File:** `"@ + v.file_path@
            + "`\n- **Span:** bytes "@ + decimal(v.span.start as nat) + ".."@ + decimal(
            v.span.end as nat,
        ) + "\n\n"@ + v.description@ + "\n\n"@);
    }
}

/// Renders the report as scannable Markdown: title, severity summary table,
/// then one detailed section per finding in the report's order.
pub fn report_to_markdown(report: &AuditReport) -> (text: String)
    ensures
        text@ == markdown(*report),
{
    let vs = &report.vulnerabilities;
    let mut out = String::from_str("# Smart Contract Audit Report\n\n");
    out.append("**Target:** `");
    out.append(report.target_path.as_str());
    out.append("`  \n");
    out.append("**Generated (unix):** ");
    push_decimal(&mut out, report.timestamp);
    out.append("  \n");
    out.append("**Total findings:** ");
    push_decimal(&mut out, vs.len() as u64);
    out.append("\n\n");
    let ghost header = out@;
    proof {
        assert(header =~= markdown_header(*report));
    }
    out.append("## Summary\n\n| Severity | Count |\n|----------|-------|\n");
    push_summary_row(&mut out, vs, Severity::Critical);
    push_summary_row(&mut out, vs, Severity::High);
    push_summary_row(&mut out, vs, Severity::Medium);
    push_summary_row(&mut out, vs, Severity::Low);
    push_summary_row(&mut out, vs, Severity::Info);
    let ghost summary = out@;
    proof {
        assert(summary =~= header + markdown_summary(vs@));
    }
    out.append("\n## Findings\n\n");
    if vs.len() == 0 {
        out.append("No vulnerabilities were identified.\n");
        proof {
            assert(out@ =~= markdown(*report));
        }
        return out;
    }
    let ghost body = out@;
    let mut i: usize = 0;
    while i < vs.len()
        invariant
            0 <= i <= vs@.len(),
            out@ == body + finding_sections(vs@.take(i as int)),
        decreases vs@.len() - i,
    {
        push_section(&mut out, &vs[i], i + 1);
        proof {
            let t = vs@.take(i + 1);
            assert(t.drop_last() =~= vs@.take(i as int));
            assert(body + finding_sections(t) =~= body + finding_sections(vs@.take(i as int))
                + finding_section(vs@[i as int], (i + 1) as nat));
        }
        i = i + 1;
    }
    proof {
        assert(vs@.take(i as int) =~= vs@);
        assert(out@ =~= markdown(*report));
    }
    out
}

} // verus!
