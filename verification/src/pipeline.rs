//! The audit pipeline for one source file: parsing, detector traversal and
//! aggregation of the findings into a severity-sorted report.

use vstd::prelude::*;
use vstd::string::StringSliceAdditionalSpecFns;

use crate::detector::{
    flags_tx_origin, is_tx_origin_finding, span_uses_tx_origin, tx_origin_findings,
    tx_origin_spans, Detector, TxOriginDetector,
};
use crate::finding::Vulnerability;
use crate::ir::{ASTNode, NodeKind, SourceSpan};
use crate::parser::{
    layout_matches, lemma_unit_layout, parse_model, span_is, unit_items, unit_matches, ContractShape,
    ParseError, ParserEngine,
};
use crate::report::{is_stable_sort, lemma_stable_sort_unique_by_value, AuditReport};

verus! {

/// The span `(start, end)` as a `SourceSpan`.
pub open spec fn item_span(it: (NodeKind, int, int)) -> SourceSpan {
    SourceSpan { start: it.1 as usize, end: it.2 as usize }
}

/// Spans of the `Expression` items among `items` whose text in `src`
/// contains `tx.origin`, in order.
pub open spec fn flagged_item_spans(src: Seq<u8>, items: Seq<(NodeKind, int, int)>) -> Seq<SourceSpan>
    decreases items.len(),
{
    if items.len() == 0 {
        seq![]
    } else {
        let it = items.last();
        if it.0 == NodeKind::Expression && span_uses_tx_origin(src, item_span(it)) {
            flagged_item_spans(src, items.drop_last()).push(item_span(it))
        } else {
            flagged_item_spans(src, items.drop_last())
        }
    }
}

/// The findings that auditing the file at `file_path`, whose bytes are `src`
/// and whose contracts are `cs`, reports: the SWC-115 findings of the parsed
/// tree, sorted most severe first with ties kept in traversal order.
pub open spec fn audit_findings(
    vs: Seq<Vulnerability>,
    src: Seq<u8>,
    cs: Seq<ContractShape>,
    file_path: Seq<char>,
) -> bool {
    exists|found: Seq<Vulnerability>|
        #![trigger is_stable_sort(found, vs)]
        tx_origin_findings(found, flagged_item_spans(src, unit_items(cs, src.len() as int)), file_path)
            && is_stable_sort(found, vs)
}

/// Auditing is deterministic: any two finding lists that an audit of the
/// same file may report hold findings of the same values, in the same order.
pub proof fn lemma_audit_findings_deterministic(
    a: Seq<Vulnerability>,
    b: Seq<Vulnerability>,
    src: Seq<u8>,
    cs: Seq<ContractShape>,
    file_path: Seq<char>,
)
    requires
        audit_findings(a, src, cs, file_path),
        audit_findings(b, src, cs, file_path),
    ensures
        a.len() == b.len(),
        forall|k: int| 0 <= k < a.len() ==> (#[trigger] a[k])@ == b[k]@,
{
    let spans = flagged_item_spans(src, unit_items(cs, src.len() as int));
    let fa = choose|found: Seq<Vulnerability>|
        #![trigger is_stable_sort(found, a)]
        tx_origin_findings(found, spans, file_path) && is_stable_sort(found, a);
    let fb = choose|found: Seq<Vulnerability>|
        #![trigger is_stable_sort(found, b)]
        tx_origin_findings(found, spans, file_path) && is_stable_sort(found, b);
    assert forall|k: int| 0 <= k < fa.len() implies (#[trigger] fa[k])@ == fb[k]@ by {
        assert(is_tx_origin_finding(fa[k], spans[k], file_path));
        assert(is_tx_origin_finding(fb[k], spans[k], file_path));
    }
    lemma_stable_sort_unique_by_value(fa, fb, a, b);
}

/// Nodes laid out as `items` are flagged exactly where the items are.
proof fn lemma_flagged_layout(src: Seq<u8>, nodes: Seq<ASTNode>, items: Seq<(NodeKind, int, int)>, id: nat)
    requires
        layout_matches(nodes, items, id),
    ensures
        tx_origin_spans(src, nodes) == flagged_item_spans(src, items),
    decreases nodes.len(),
{
    if nodes.len() > 0 {
        let last = nodes.len() - 1;
        assert(layout_matches(nodes.drop_last(), items.drop_last(), id)) by {
            assert forall|k: int| 0 <= k < nodes.drop_last().len() implies {
                &&& (#[trigger] nodes.drop_last()[k]).id == crate::parser::wrap_id((id + k) as nat)
                &&& nodes.drop_last()[k].kind == items.drop_last()[k].0
                &&& span_is(nodes.drop_last()[k].span, (items.drop_last()[k].1, items.drop_last()[k].2))
            } by {
                assert(nodes.drop_last()[k] == nodes[k]);
                assert(items.drop_last()[k] == items[k]);
            }
        }
        lemma_flagged_layout(src, nodes.drop_last(), items.drop_last(), id);
        assert(nodes[last].kind == items[last].0);
        assert(span_is(nodes[last].span, (items[last].1, items[last].2)));
        assert(nodes.last().span == item_span(items.last()));
        assert(flags_tx_origin(src, nodes.last()) == (items.last().0 == NodeKind::Expression
            && span_uses_tx_origin(src, item_span(items.last()))));
    }
}

/// The findings that an audit sorts are those that `TxOriginDetector::check`
/// reports on the parsed tree: the spans it flags in the tree's pre-order
/// listing are the flagged spans of the parsed shape.
pub proof fn lemma_audit_spans_are_detector_spans(source: &str, root: ASTNode)
    requires
        parse_model(source) is Ok,
        unit_matches(root, parse_model(source)->Ok_0, source.spec_bytes().len() as int),
    ensures
        tx_origin_spans(source.spec_bytes(), crate::ir::preorder(root)) == flagged_item_spans(
            source.spec_bytes(),
            unit_items(parse_model(source)->Ok_0, source.spec_bytes().len() as int),
        ),
{
    let len = source.spec_bytes().len() as int;
    let cs = parse_model(source)->Ok_0;
    lemma_unit_layout(root, cs, len);
    lemma_flagged_layout(source.spec_bytes(), crate::ir::preorder(root), unit_items(cs, len), 0);
}

/// The detectors that run on every file; detectors that read the raw source
/// to resolve spans back to text receive it here.
fn detector_suite(source: &str) -> (suite: Vec<TxOriginDetector>)
    ensures
        suite@.len() == 1,
        suite@[0]@ == source@,
{
    let mut suite = Vec::new();
    suite.push(TxOriginDetector::new(source));
    suite
}

/// Runs the audit pipeline over an in-memory source file and returns the
/// severity-sorted report. A parse failure is returned as it is; the
/// findings are those of the parsed tree, deterministic for a given input.
pub fn audit_source(file_path: &str, source: &str) -> (res: Result<AuditReport, ParseError>)
    ensures
        match parse_model(source) {
            Err(e) => res matches Err(err) && err@ == e,
            Ok(cs) => res matches Ok(report) && {
                &&& report.target_path@ == file_path@
                &&& audit_findings(report.vulnerabilities@, source.spec_bytes(), cs, file_path@)
            },
        },
{
    let ast = match ParserEngine::new().parse_solidity(source) {
        Ok(ast) => ast,
        Err(e) => {
            return Err(e);
        },
    };
    let ghost cs = parse_model(source)->Ok_0;
    let ghost src = source.spec_bytes();
    let ghost spans = tx_origin_spans(src, crate::ir::preorder(ast));
    proof {
        lemma_unit_layout(ast, cs, src.len() as int);
        lemma_flagged_layout(src, crate::ir::preorder(ast), unit_items(cs, src.len() as int), 0);
    }
    let mut report = AuditReport::started_now(file_path);
    let suite = detector_suite(source);
    let mut d: usize = 0;
    while d < suite.len()
        invariant
            suite@.len() == 1,
            suite@[0]@ == source@,
            spans == tx_origin_spans(source.spec_bytes(), crate::ir::preorder(ast)),
            0 <= d <= 1,
            report.target_path@ == file_path@,
            d == 0 ==> report.vulnerabilities@.len() == 0,
            d == 1 ==> tx_origin_findings(report.vulnerabilities@, spans, file_path@),
        decreases 1 - d,
    {
        let mut findings = suite[d].check(&ast, file_path);
        let ghost all = findings@;
        let ghost base = report.vulnerabilities@;
        while findings.len() > 0
            invariant
                report.target_path@ == file_path@,
                base.len() <= report.vulnerabilities@.len() <= base.len() + all.len(),
                report.vulnerabilities@ == base + all.take(report.vulnerabilities@.len() - base.len()),
                findings@ == all.skip(report.vulnerabilities@.len() - base.len()),
            decreases findings@.len(),
        {
            let ghost done = (report.vulnerabilities@.len() - base.len()) as int;
            let finding = findings.remove(0);
            report.add_vulnerability(finding);
            proof {
                assert(all.take(done + 1) =~= all.take(done).push(all[done]));
                assert(findings@ =~= all.skip(done + 1));
            }
        }
        proof {
            assert(all.take(all.len() as int) =~= all);
            assert(base.len() == 0);
            assert(base + all =~= all);
        }
        d = d + 1;
    }
    let ghost found = report.vulnerabilities@;
    report.sort_by_severity();
    proof {
        assert(tx_origin_findings(found, flagged_item_spans(src, unit_items(cs, src.len() as int)), file_path@));
        assert(is_stable_sort(found, report.vulnerabilities@));
    }
    Ok(report)
}

} // verus!
