//! MintCheck: a deterministic keyword/brace scanner for Solidity-like sources,
//! a `tx.origin` detector over its intermediate representation, and the
//! severity-sorted audit report with its Markdown rendering.

pub mod clock;
pub mod detector;
pub mod finding;
pub mod ir;
pub mod markdown;
pub mod parser;
pub mod pipeline;
pub mod report;
pub mod scan;

pub use detector::{Detector, TxOriginDetector};
pub use finding::{Severity, Vulnerability};
pub use ir::{ASTNode, NodeKind, SourceSpan};
pub use markdown::report_to_markdown;
pub use parser::{ParseError, ParserEngine};
pub use pipeline::audit_source;
pub use report::AuditReport;
