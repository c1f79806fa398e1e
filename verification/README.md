# mintcheck

A smart-contract audit library verified with Verus. It scans Solidity-like
source text into a normalized tree of nodes, runs the SWC-115 detector
(authorization through `tx.origin`) over that tree, collects the findings in a
report sorted most severe first, and renders the report as Markdown.

## Layout

- `src/scan.rs` — byte and character scanning: keywords on identifier
  boundaries, byte search, brace matching, whitespace and name characters.
- `src/ir.rs` — spans, node kinds and the node tree; pre-order listing,
  `subtree_size` and `walk`.
- `src/parser.rs` — the parser. Spec functions describe the shape the scan
  finds; `parse_solidity` is proved to build exactly that tree, with ids in
  pre-order and every span a non-empty range of the source.
- `src/finding.rs` — severities and findings.
- `src/detector.rs` — the `Detector` interface and `TxOriginDetector`.
- `src/report.rs` — the report, the finding order and the stable insertion
  sort, with proofs that the sorted result is unique.
- `src/markdown.rs` — the Markdown rendering, specified character by
  character.
- `src/pipeline.rs` — `audit_source`: parse, detect, aggregate, sort.
- `src/clock.rs` — the wall-clock reading for report timestamps.
- `app/` — the `mintcheck` command line program and the JSON form of the
  report and tree types.
- `tests/` — tests of the library through its public interface.
