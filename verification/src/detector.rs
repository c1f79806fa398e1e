//! Static analysis over the normalized IR: the `Detector` interface and the
//! SWC-115 detector, which flags authorization through `tx.origin`.

use vstd::prelude::*;
use vstd::string::StringSliceAdditionalSpecFns;
use vstd::utf8::{encode_utf8, is_char_boundary};

use crate::finding::{Severity, Vulnerability};
use crate::ir::{lemma_preorder_seq_prefix, preorder, preorder_seq, ASTNode, NodeKind, SourceSpan};

verus! {

/// A modular static-analysis routine. Each detector scans a normalized AST
/// and reports zero or more findings; detectors are stateless across files
/// and must be deterministic for identical inputs.
pub trait Detector {
    /// Human-readable detector name, e.g. "Authorization via tx.origin".
    fn name(&self) -> &'static str;

    /// Stable registry identifier, e.g. "SWC-115".
    fn id(&self) -> &'static str;

    /// Severity assigned to every finding this detector emits.
    fn severity(&self) -> Severity;

    /// Scans the subtree rooted at `node` and returns all findings,
    /// attributing each to `file_path`.
    fn check(&self, node: &ASTNode, file_path: &str) -> Vec<Vulnerability>;
}

/// `needle` occurs in `s` within the byte range `[start, end)`.
pub open spec fn occurs_within(s: Seq<u8>, start: int, end: int, needle: Seq<u8>) -> bool {
    exists|k: int|
        start <= k && k + needle.len() <= end && #[trigger] s.subrange(k, k + needle.len()) == needle
}

/// The source text of `span` exists (the span is ordered and both ends are
/// character boundaries) and contains `tx.origin`.
pub open spec fn span_uses_tx_origin(src: Seq<u8>, span: SourceSpan) -> bool {
    &&& span.start <= span.end
    &&& is_char_boundary(src, span.start as int)
    &&& is_char_boundary(src, span.end as int)
    &&& occurs_within(src, span.start as int, span.end as int, "tx.origin".spec_bytes())
}

/// A node that the SWC-115 detector reports.
pub open spec fn flags_tx_origin(src: Seq<u8>, n: ASTNode) -> bool {
    n.kind == NodeKind::Expression && span_uses_tx_origin(src, n.span)
}

/// Spans of the flagged nodes among `nodes`, in order.
pub open spec fn tx_origin_spans(src: Seq<u8>, nodes: Seq<ASTNode>) -> Seq<SourceSpan>
    decreases nodes.len(),
{
    if nodes.len() == 0 {
        seq![]
    } else if flags_tx_origin(src, nodes.last()) {
        tx_origin_spans(src, nodes.drop_last()).push(nodes.last().span)
    } else {
        tx_origin_spans(src, nodes.drop_last())
    }
}

/// The flagged spans of two listings in a row are those of each, in order.
pub proof fn lemma_tx_origin_spans_append(src: Seq<u8>, a: Seq<ASTNode>, b: Seq<ASTNode>)
    ensures
        tx_origin_spans(src, a + b) == tx_origin_spans(src, a) + tx_origin_spans(src, b),
    decreases b.len(),
{
    if b.len() == 0 {
        assert(a + b =~= a);
        assert(tx_origin_spans(src, a) + seq![] =~= tx_origin_spans(src, a));
    } else {
        assert((a + b).drop_last() =~= a + b.drop_last());
        assert((a + b).last() == b.last());
        lemma_tx_origin_spans_append(src, a, b.drop_last());
        if flags_tx_origin(src, b.last()) {
            assert(tx_origin_spans(src, a) + tx_origin_spans(src, b.drop_last()).push(b.last().span)
                =~= (tx_origin_spans(src, a) + tx_origin_spans(src, b.drop_last())).push(b.last().span));
        }
    }
}

/// The `k`-th span the detector reports is the span of an `Expression` node
/// of the listing whose source text exists and contains `tx.origin`.
pub proof fn lemma_flagged_span_is_expression_span(src: Seq<u8>, nodes: Seq<ASTNode>, k: int)
    requires
        0 <= k < tx_origin_spans(src, nodes).len(),
    ensures
        exists|j: int|
            0 <= j < nodes.len() && (#[trigger] nodes[j]).kind == NodeKind::Expression && nodes[j].span
                == tx_origin_spans(src, nodes)[k] && span_uses_tx_origin(src, nodes[j].span),
    decreases nodes.len(),
{
    let init = nodes.drop_last();
    let prev = tx_origin_spans(src, init);
    let spans = tx_origin_spans(src, nodes);
    let last = nodes.last();
    if flags_tx_origin(src, last) {
        assert(spans == prev.push(last.span));
    } else {
        assert(spans == prev);
    }
    if k < prev.len() {
        lemma_flagged_span_is_expression_span(src, init, k);
        let j = choose|j: int|
            0 <= j < init.len() && (#[trigger] init[j]).kind == NodeKind::Expression && init[j].span == prev[k]
                && span_uses_tx_origin(src, init[j].span);
        assert(nodes[j] == init[j]);
        assert(spans[k] == prev[k]);
    } else {
        assert(nodes[nodes.len() - 1] == last);
        assert(spans[k] == last.span);
    }
}

pub open spec fn tx_origin_description() -> Seq<char> {
    "tx.origin is the transaction originator, not the immediate caller; a phishing contract can relay calls that pass this check. Use msg.sender for authorization."@
}

/// `v` is the SWC-115 finding for `span` in the file at `file_path`.
pub open spec fn is_tx_origin_finding(v: Vulnerability, span: SourceSpan, file_path: Seq<char>) -> bool {
    &&& v.id@ == "SWC-115"@
    &&& v.title@ == "Authorization via tx.origin"@
    &&& v.description@ == tx_origin_description()
    &&& v.severity == Severity::High
    &&& v.span == span
    &&& v.file_path@ == file_path
}

/// The findings `vs` are the SWC-115 findings for `spans`, in order.
pub open spec fn tx_origin_findings(vs: Seq<Vulnerability>, spans: Seq<SourceSpan>, file_path: Seq<char>) -> bool {
    &&& vs.len() == spans.len()
    &&& forall|k: int| 0 <= k < spans.len() ==> is_tx_origin_finding(#[trigger] vs[k], spans[k], file_path)
}

/// SWC-115: authorization through `tx.origin`. The detector holds the
/// file's source so that it can resolve a node's byte span back to text.
pub struct TxOriginDetector {
    /// Source text of the file the AST under analysis was parsed from.
    source: String,
}

impl View for TxOriginDetector {
    type V = Seq<char>;

    /// The source text the detector reads spans from.
    closed spec fn view(&self) -> Seq<char> {
        self.source@
    }
}

/// Whether `needle` occurs in `s` within `[start, end)`.
fn occurs_within_exec(s: &[u8], start: usize, end: usize, needle: &[u8]) -> (r: bool)
    requires
        start <= end <= s@.len(),
    ensures
        r == occurs_within(s@, start as int, end as int, needle@),
{
    let mut k = start;
    while needle.len() <= end - k
        invariant
            start <= k <= end,
            end <= s@.len(),
            forall|j: int|
                start <= j < k ==> #[trigger] s@.subrange(j, j + needle@.len()) != needle@,
        decreases end - k,
    {
        let mut t: usize = 0;
        let mut same = true;
        while t < needle.len()
            invariant
                k + needle@.len() <= end,
                end <= s@.len(),
                0 <= t <= needle@.len(),
                same == (forall|u: int| 0 <= u < t ==> s@[k + u] == needle@[u]),
            decreases needle@.len() - t,
        {
            if s[k + t] != needle[t] {
                same = false;
            }
            t = t + 1;
        }
        if same {
            proof {
                assert(s@.subrange(k as int, k + needle@.len()) =~= needle@);
            }
            return true;
        }
        proof {
            let t0 = choose|u: int| 0 <= u < needle@.len() && s@[k + u] != needle@[u];
            assert(s@.subrange(k as int, k + needle@.len())[t0] != needle@[t0]);
        }
        k = k + 1;
    }
    false
}

impl TxOriginDetector {
    pub fn new(source: &str) -> (detector: Self)
        ensures
            detector@ == source@,
    {
        TxOriginDetector { source: String::from_str(source) }
    }

    /// Whether the source text of `span` exists and contains `tx.origin`.
    fn span_uses_tx_origin_exec(&self, span: SourceSpan) -> (r: bool)
        ensures
            r == span_uses_tx_origin(encode_utf8(self@), span),
    {
        let text = self.source.as_str();
        let src = text.as_bytes();
        if span.start > span.end || !text.is_char_boundary(span.start) || !text.is_char_boundary(
            span.end,
        ) {
            return false;
        }
        proof {
            vstd::utf8::encode_utf8_valid_utf8(text@);
            vstd::utf8::is_char_boundary_start_end_of_seq(src@);
            lemma_boundary_in_range(src@, span.end as int);
        }
        occurs_within_exec(src, span.start, span.end, "tx.origin".as_bytes())
    }

    /// Appends the findings for the subtree rooted at `node`.
    fn check_into(&self, node: &ASTNode, file_path: &str, findings: &mut Vec<Vulnerability>)
        ensures
            final(findings)@.len() == old(findings)@.len() + tx_origin_spans(
                encode_utf8(self@),
                preorder(*node),
            ).len(),
            forall|k: int| 0 <= k < old(findings)@.len() ==> #[trigger] final(findings)@[k] == old(findings)@[k],
            forall|k: int|
                0 <= k < tx_origin_spans(encode_utf8(self@), preorder(*node)).len()
                    ==> is_tx_origin_finding(
                    #[trigger] final(findings)@[old(findings)@.len() + k],
                    tx_origin_spans(encode_utf8(self@), preorder(*node))[k],
                    file_path@,
                ),
        decreases *node,
    {
        let ghost src = encode_utf8(self@);
        let ghost base = findings@;
        let ghost cs = node.children@;
        proof {
            reveal_strlit("SWC-115");
            reveal_strlit("Authorization via tx.origin");
            assert(seq![*node] + preorder_seq(cs) == preorder(*node));
            lemma_tx_origin_spans_append(src, seq![*node], preorder_seq(cs));
            assert(seq![*node].drop_last() =~= Seq::<ASTNode>::empty());
        }
        if node.kind == NodeKind::Expression && self.span_uses_tx_origin_exec(node.span) {
            findings.push(
                Vulnerability {
                    id: String::from_str(self.id()),
                    title: String::from_str(self.name()),
                    description: String::from_str(
                        "tx.origin is the transaction originator, not the immediate caller; a phishing contract can relay calls that pass this check. Use msg.sender for authorization.",
                    ),
                    severity: self.severity(),
                    span: node.span,
                    file_path: String::from_str(file_path),
                },
            );
        }
        let ghost head = findings@;
        proof {
            assert(tx_origin_spans(src, Seq::<ASTNode>::empty()) =~= Seq::<SourceSpan>::empty());
            let own = tx_origin_spans(src, seq![*node]);
            if flags_tx_origin(src, *node) {
                assert(own =~= seq![node.span]);
                assert(head.len() == base.len() + 1);
            } else {
                assert(own.len() == 0);
                assert(head == base);
            }
        }
        let mut i: usize = 0;
        while i < node.children.len()
            invariant
                cs == node.children@,
                src == encode_utf8(self@),
                0 <= i <= cs.len(),
                findings@.len() == head.len() + tx_origin_spans(src, preorder_seq(cs.take(i as int))).len(),
                forall|k: int| 0 <= k < head.len() ==> #[trigger] findings@[k] == head[k],
                forall|k: int|
                    0 <= k < tx_origin_spans(src, preorder_seq(cs.take(i as int))).len()
                        ==> is_tx_origin_finding(
                        #[trigger] findings@[head.len() + k],
                        tx_origin_spans(src, preorder_seq(cs.take(i as int)))[k],
                        file_path@,
                    ),
            decreases cs.len() - i,
        {
            let ghost before = findings@;
            self.check_into(&node.children[i], file_path, findings);
            proof {
                assert(cs.take(i + 1).drop_last() =~= cs.take(i as int));
                assert(cs.take(i + 1).last() == cs[i as int]);
                lemma_tx_origin_spans_append(src, preorder_seq(cs.take(i as int)), preorder(cs[i as int]));
                let a = tx_origin_spans(src, preorder_seq(cs.take(i as int)));
                let b = tx_origin_spans(src, preorder(cs[i as int]));
                assert forall|k: int| 0 <= k < (a + b).len() implies is_tx_origin_finding(
                    #[trigger] findings@[head.len() + k],
                    (a + b)[k],
                    file_path@,
                ) by {
                    if k < a.len() {
                        assert(findings@[head.len() + k] == before[head.len() + k]);
                    } else {
                        assert(findings@[head.len() + k] == findings@[before.len() + (k - a.len())]);
                    }
                }
            }
            i = i + 1;
        }
        proof {
            assert(cs.take(i as int) =~= cs);
            let own = tx_origin_spans(src, seq![*node]);
            let rest = tx_origin_spans(src, preorder_seq(cs));
            assert forall|k: int| 0 <= k < (own + rest).len() implies is_tx_origin_finding(
                #[trigger] findings@[base.len() + k],
                (own + rest)[k],
                file_path@,
            ) by {
                if k < own.len() {
                    assert(findings@[base.len() + k] == head[base.len() + k]);
                } else {
                    assert(findings@[base.len() + k] == findings@[head.len() + (k - own.len())]);
                }
            }
        }
    }
}

/// A character boundary lies within the byte sequence.
proof fn lemma_boundary_in_range(s: Seq<u8>, i: int)
    requires
        vstd::utf8::valid_utf8(s),
        is_char_boundary(s, i),
    ensures
        0 <= i <= s.len(),
    decreases s.len(),
{
    reveal_with_fuel(is_char_boundary, 1);
    if i != 0 && s.len() > 0 {
        let t = vstd::utf8::pop_first_scalar(s);
        lemma_boundary_in_range(t, i - vstd::utf8::length_of_first_scalar(s));
    }
}

impl Detector for TxOriginDetector {
    fn name(&self) -> (name: &'static str)
        ensures
            name@ == "Authorization via tx.origin"@,
    {
        "Authorization via tx.origin"
    }

    fn id(&self) -> (id: &'static str)
        ensures
            id@ == "SWC-115"@,
    {
        "SWC-115"
    }

    fn severity(&self) -> (s: Severity)
        ensures
            s == Severity::High,
    {
        Severity::High
    }

    /// Every `Expression` node of the subtree, visited in pre-order, whose
    /// source text contains `tx.origin` yields one High finding for its span.
    fn check(&self, node: &ASTNode, file_path: &str) -> (findings: Vec<Vulnerability>)
        ensures
            tx_origin_findings(
                findings@,
                tx_origin_spans(encode_utf8(self@), preorder(*node)),
                file_path@,
            ),
    {
        let mut findings = Vec::new();
        self.check_into(node, file_path, &mut findings);
        proof {
            let spans = tx_origin_spans(encode_utf8(self@), preorder(*node));
            assert forall|k: int| 0 <= k < spans.len() implies is_tx_origin_finding(
                #[trigger] findings@[k],
                spans[k],
                file_path@,
            ) by {
                assert(findings@[0 + k] == findings@[k]);
            }
        }
        findings
    }
}

} // verus!
