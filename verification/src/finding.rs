//! Canonical finding types: the severity scale and individual security
//! findings.

use vstd::prelude::*;

use crate::ir::SourceSpan;

verus! {

/// Severity scale for findings. Declaration order drives `Ord`: `Critical`
/// is the smallest variant so an ascending sort lists it first.
#[derive(Debug, Clone, Copy, PartialEq, Eq, PartialOrd, Ord, Hash, Structural)]
pub enum Severity {
    Critical,
    High,
    Medium,
    Low,
    Info,
}

/// Position of a severity on the scale, `Critical` first.
pub open spec fn severity_rank(s: Severity) -> nat {
    match s {
        Severity::Critical => 0,
        Severity::High => 1,
        Severity::Medium => 2,
        Severity::Low => 3,
        Severity::Info => 4,
    }
}

/// The display label of a severity.
pub open spec fn severity_label(s: Severity) -> Seq<char> {
    match s {
        Severity::Critical => "Critical"@,
        Severity::High => "High"@,
        Severity::Medium => "Medium"@,
        Severity::Low => "Low"@,
        Severity::Info => "Info"@,
    }
}

impl Severity {
    /// Position on the scale: 0 for `Critical` through 4 for `Info`.
    pub fn rank(&self) -> (r: u8)
        ensures
            r == severity_rank(*self),
    {
        match self {
            Severity::Critical => 0,
            Severity::High => 1,
            Severity::Medium => 2,
            Severity::Low => 3,
            Severity::Info => 4,
        }
    }

    /// The display label: "Critical", "High", "Medium", "Low" or "Info".
    pub fn as_label(&self) -> (label: &'static str)
        ensures
            label@ == severity_label(*self),
    {
        match self {
            Severity::Critical => "Critical",
            Severity::High => "High",
            Severity::Medium => "Medium",
            Severity::Low => "Low",
            Severity::Info => "Info",
        }
    }

    /// The display label as an owned string.
    pub fn label(&self) -> (label: String)
        ensures
            label@ == severity_label(*self),
    {
        String::from_str(self.as_label())
    }
}

/// A single security finding produced by a detector.
#[derive(Debug, Clone, PartialEq, Eq)]
pub struct Vulnerability {
    /// Detector or registry identifier, e.g. "SWC-101" or "MC-REENTRANCY-001".
    pub id: String,
    pub title: String,
    pub description: String,
    pub severity: Severity,
    /// Byte range of the offending code.
    pub span: SourceSpan,
    pub file_path: String,
}

/// The mathematical value of a [`Vulnerability`]: its text fields as
/// character sequences.
pub struct FindingView {
    pub id: Seq<char>,
    pub title: Seq<char>,
    pub description: Seq<char>,
    pub severity: Severity,
    pub span: SourceSpan,
    pub file_path: Seq<char>,
}

impl View for Vulnerability {
    type V = FindingView;

    open spec fn view(&self) -> FindingView {
        FindingView {
            id: self.id@,
            title: self.title@,
            description: self.description@,
            severity: self.severity,
            span: self.span,
            file_path: self.file_path@,
        }
    }
}

} // verus!
