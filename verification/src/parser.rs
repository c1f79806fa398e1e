//! Deterministic parser for Solidity-like sources, producing normalized IR
//! trees. A single-pass keyword/brace scanner: it recognizes `contract`
//! definitions, `function` members, and state-variable declarations, mapping
//! each to byte-offset spans. Braces inside string literals count as
//! structural braces.
//!
//! The scan is described twice: by the spec functions below, which compute
//! the *shape* of the result (spans of contracts, members and statements) from
//! the bytes, and by the executable functions, whose contracts say that the
//! tree they build has exactly that shape, with node ids handed out in
//! depth-first pre-order.

use vstd::prelude::*;
use vstd::string::StringSliceAdditionalSpecFns;
use vstd::utf8::{
    decode_utf8, encode_utf8, encode_utf8_decode_utf8, encode_utf8_valid_utf8, is_char_boundary,
    is_char_boundary_iff_is_leading_byte, is_char_boundary_iff_not_is_continuation_byte,
    is_char_boundary_start_end_of_seq, valid_utf8, valid_utf8_split,
};

use crate::ir::{preorder, preorder_seq, ASTNode, NodeKind, SourceSpan};
use crate::scan::{
    find_byte, find_byte_exec, find_keyword, find_keyword_exec, find_open_or_semi,
    find_open_or_semi_exec, find_matching_brace, is_ascii_ws_byte, is_ascii_ws_byte_exec,
    is_blank, is_blank_exec, keyword_at, keyword_at_exec, leading_name, leading_name_exec,
    lemma_find_byte_bounds, lemma_find_keyword_bounds, lemma_find_open_or_semi_bounds,
    lemma_scan_keyword_first, lemma_starts_char_iff_boundary, scan_keyword, starts_char,
    lemma_find_byte_first,
    lemma_matching_brace_after, matching_brace,
};

verus! {

/// Failure states of the parser engine.
#[derive(Debug, Clone, PartialEq, Eq)]
pub enum ParseError {
    /// The input contained nothing but whitespace.
    EmptySource,
    /// The input was structurally invalid; the message names the problem.
    SyntaxError(String),
}

/// The mathematical value of a [`ParseError`].
pub enum ParseFailure {
    EmptySource,
    SyntaxError(Seq<char>),
}

impl View for ParseError {
    type V = ParseFailure;

    open spec fn view(&self) -> ParseFailure {
        match self {
            ParseError::EmptySource => ParseFailure::EmptySource,
            ParseError::SyntaxError(m) => ParseFailure::SyntaxError(m@),
        }
    }
}

/// The human-readable description of an error.
pub open spec fn error_message(e: ParseFailure) -> Seq<char> {
    match e {
        ParseFailure::EmptySource => "source text is empty"@,
        ParseFailure::SyntaxError(m) => "syntax error: "@ + m,
    }
}

impl ParseError {
    /// The human-readable description of the error.
    pub fn message(&self) -> (text: String)
        ensures
            text@ == error_message(self@),
    {
        match self {
            ParseError::EmptySource => String::from_str("source text is empty"),
            ParseError::SyntaxError(m) => {
                let mut text = String::from_str("syntax error: ");
                text.append(m.as_str());
                text
            },
        }
    }
}

fn syntax_error(msg: &str) -> (e: ParseError)
    ensures
        e@ == ParseFailure::SyntaxError(msg@),
{
    ParseError::SyntaxError(String::from_str(msg))
}

/// `"<prefix>'<name>'"` as a syntax error.
fn named_syntax_error(prefix: &str, name: &String) -> (e: ParseError)
    ensures
        e@ == ParseFailure::SyntaxError(prefix@ + "'"@ + name@ + "'"@),
{
    let mut m = String::from_str(prefix);
    m.append("'");
    m.append(name.as_str());
    m.append("'");
    ParseError::SyntaxError(m)
}

// ---------------------------------------------------------------------------
// Keywords
// ---------------------------------------------------------------------------

pub open spec fn kw_contract() -> Seq<u8> {
    "contract".spec_bytes()
}

pub open spec fn kw_function() -> Seq<u8> {
    "function".spec_bytes()
}

/// An elementary type keyword, which begins a state-variable declaration
/// when it appears at contract-body depth, occurs at `i`.
pub open spec fn type_keyword_at(s: Seq<u8>, i: int) -> bool {
    ||| keyword_at(s, i, "uint256".spec_bytes())
    ||| keyword_at(s, i, "uint128".spec_bytes())
    ||| keyword_at(s, i, "uint64".spec_bytes())
    ||| keyword_at(s, i, "uint8".spec_bytes())
    ||| keyword_at(s, i, "uint".spec_bytes())
    ||| keyword_at(s, i, "int256".spec_bytes())
    ||| keyword_at(s, i, "int".spec_bytes())
    ||| keyword_at(s, i, "address".spec_bytes())
    ||| keyword_at(s, i, "bool".spec_bytes())
    ||| keyword_at(s, i, "bytes32".spec_bytes())
    ||| keyword_at(s, i, "bytes".spec_bytes())
    ||| keyword_at(s, i, "mapping".spec_bytes())
}

fn type_keyword_at_exec(s: &[u8], i: usize) -> (r: bool)
    ensures
        r == type_keyword_at(s@, i as int),
{
    keyword_at_exec(s, i, "uint256".as_bytes()) || keyword_at_exec(s, i, "uint128".as_bytes())
        || keyword_at_exec(s, i, "uint64".as_bytes()) || keyword_at_exec(s, i, "uint8".as_bytes())
        || keyword_at_exec(s, i, "uint".as_bytes()) || keyword_at_exec(s, i, "int256".as_bytes())
        || keyword_at_exec(s, i, "int".as_bytes()) || keyword_at_exec(s, i, "address".as_bytes())
        || keyword_at_exec(s, i, "bool".as_bytes()) || keyword_at_exec(s, i, "bytes32".as_bytes())
        || keyword_at_exec(s, i, "bytes".as_bytes()) || keyword_at_exec(s, i, "mapping".as_bytes())
}

proof fn lemma_kw_contract()
    ensures
        kw_contract().len() == 8,
        kw_contract()[7] == 116,
{
    reveal_strlit("contract");
    assert(vstd::utf8::is_ascii_chars("contract"@));
    vstd::string::is_ascii_spec_bytes("contract");
}

proof fn lemma_kw_function()
    ensures
        kw_function().len() == 8,
{
    reveal_strlit("function");
    assert(vstd::utf8::is_ascii_chars("function"@));
    vstd::string::is_ascii_spec_bytes("function");
}

// ---------------------------------------------------------------------------
// Shapes: what the scan finds, as spans
// ---------------------------------------------------------------------------

/// A function member: its span and the spans of its top-level statements.
pub struct FunctionShape {
    pub start: int,
    pub end: int,
    pub stmts: Seq<(int, int)>,
}

/// A contract member.
pub enum MemberShape {
    Variable(int, int),
    Function(FunctionShape),
}

/// A contract: its span and its members in source order.
pub struct ContractShape {
    pub start: int,
    pub end: int,
    pub members: Seq<MemberShape>,
}

/// Statement scan of a function body over `[i, end)`: `depth` counts the
/// unclosed `{`, `open` is where the statement under way began. A statement
/// begins at the first non-whitespace byte at depth zero that is not a brace
/// and ends at the next `;` at depth zero, which it includes.
pub open spec fn scan_stmts(s: Seq<u8>, i: int, end: int, depth: nat, open: Option<int>) -> Seq<(int, int)>
    decreases end - i,
{
    if i >= end || i < 0 || i >= s.len() {
        seq![]
    } else {
        let b = s[i];
        if b == 123 {
            scan_stmts(s, i + 1, end, depth + 1, open)
        } else if b == 125 {
            scan_stmts(s, i + 1, end, if depth == 0 { 0 } else { (depth - 1) as nat }, open)
        } else if b == 59 && depth == 0 {
            match open {
                Some(st) => seq![(st, i + 1)] + scan_stmts(s, i + 1, end, depth, None),
                None => scan_stmts(s, i + 1, end, depth, None),
            }
        } else if depth == 0 && open is None && !is_ascii_ws_byte(b) {
            scan_stmts(s, i + 1, end, depth, Some(i))
        } else {
            scan_stmts(s, i + 1, end, depth, open)
        }
    }
}

/// One function, from its `function` keyword at `start` through its body's
/// closing brace, or through `;` when the first of `{`/`;` after it is `;`.
pub open spec fn function_shape(s: Seq<u8>, start: int) -> Result<FunctionShape, ParseFailure> {
    match find_open_or_semi(s, start) {
        None => Err(ParseFailure::SyntaxError("unterminated function definition"@)),
        Some(sig) => if s[sig] != 123 {
            Ok(FunctionShape { start, end: sig + 1, stmts: seq![] })
        } else {
            match matching_brace(s, sig) {
                None => Err(ParseFailure::SyntaxError("unbalanced braces in function body"@)),
                Some(close) => Ok(
                    FunctionShape { start, end: close + 1, stmts: scan_stmts(s, sig + 1, close, 0, None) },
                ),
            }
        },
    }
}

/// A function's span starts at its keyword and ends inside the source.
pub proof fn lemma_function_shape_span(s: Seq<u8>, start: int)
    requires
        0 <= start,
    ensures
        function_shape(s, start) matches Ok(f) ==> f.start == start && start < f.end <= s.len(),
{
    lemma_find_open_or_semi_bounds(s, start);
    if let Some(sig) = find_open_or_semi(s, start) {
        if s[sig] == 123 {
            lemma_matching_brace_after(s, sig);
        }
    }
}

/// `acc` followed by the members of a successful scan; a failed scan stays failed.
pub open spec fn then_members(acc: Seq<MemberShape>, r: Result<Seq<MemberShape>, ParseFailure>) -> Result<Seq<MemberShape>, ParseFailure> {
    match r {
        Ok(rest) => Ok(acc + rest),
        Err(e) => Err(e),
    }
}

/// Member scan of a contract body over `[i, end)` at brace depth `depth`:
/// a `function` keyword at depth zero starts a function member and the scan
/// resumes after it; a type keyword at depth zero starts a state variable
/// that runs through the next `;` before `end`.
pub open spec fn scan_members(s: Seq<u8>, i: int, end: int, depth: nat) -> Result<Seq<MemberShape>, ParseFailure>
    decreases s.len() - i,
{
    if i >= end || i < 0 || i >= s.len() {
        Ok(seq![])
    } else {
        let b = s[i];
        if b == 123 {
            scan_members(s, i + 1, end, depth + 1)
        } else if b == 125 {
            scan_members(s, i + 1, end, if depth == 0 { 0 } else { (depth - 1) as nat })
        } else if depth == 0 && keyword_at(s, i, kw_function()) {
            match function_shape(s, i) {
                Err(e) => Err(e),
                Ok(f) => {
                    proof {
                        lemma_function_shape_span(s, i);
                    }
                    then_members(seq![MemberShape::Function(f)], scan_members(s, f.end, end, depth))
                },
            }
        } else if depth == 0 && type_keyword_at(s, i) {
            match find_byte(s, 59, i, end) {
                None => Err(ParseFailure::SyntaxError("unterminated state variable declaration"@)),
                Some(semi) => {
                    proof {
                        lemma_find_byte_bounds(s, 59, i, end);
                    }
                    then_members(
                        seq![MemberShape::Variable(i, semi + 1)],
                        scan_members(s, semi + 1, end, depth),
                    )
                },
            }
        } else {
            scan_members(s, i + 1, end, depth)
        }
    }
}

/// The name written after the `contract` keyword that ends at `after`.
pub open spec fn contract_name(s: Seq<u8>, after: int) -> Seq<char> {
    leading_name(decode_utf8(s.subrange(after, s.len() as int)))
}

/// One contract whose `contract` keyword starts at `start`: name, body
/// braces, and the members of the body.
pub open spec fn contract_shape(s: Seq<u8>, start: int) -> Result<ContractShape, ParseFailure> {
    let after = start + kw_contract().len();
    let name = contract_name(s, after);
    if name.len() == 0 {
        Err(ParseFailure::SyntaxError("expected contract name after 'contract' keyword"@))
    } else {
        match find_byte(s, 123, after, s.len() as int) {
            None => Err(ParseFailure::SyntaxError("expected '{' after contract "@ + "'"@ + name + "'"@)),
            Some(open) => match matching_brace(s, open) {
                None => Err(ParseFailure::SyntaxError("unbalanced braces in contract "@ + "'"@ + name + "'"@)),
                Some(close) => match scan_members(s, open + 1, close, 0) {
                    Err(e) => Err(e),
                    Ok(members) => Ok(ContractShape { start, end: close + 1, members }),
                },
            },
        }
    }
}

/// The positions of the `{` and matching `}` of the contract whose keyword
/// starts at `start`, where it has a name and a balanced body.
pub open spec fn contract_braces(s: Seq<u8>, start: int) -> Option<(int, int)> {
    let after = start + kw_contract().len();
    if contract_name(s, after).len() == 0 {
        None
    } else {
        match find_byte(s, 123, after, s.len() as int) {
            None => None,
            Some(open) => match matching_brace(s, open) {
                None => None,
                Some(close) => Some((open, close)),
            },
        }
    }
}

/// A contract's span starts at its keyword and ends inside the source.
pub proof fn lemma_contract_shape_span(s: Seq<u8>, start: int)
    requires
        0 <= start,
    ensures
        contract_shape(s, start) matches Ok(c) ==> c.start == start && start < c.end <= s.len(),
{
    lemma_kw_contract();
    let after = start + 8;
    lemma_find_byte_bounds(s, 123, after, s.len() as int);
    if let Some(open) = find_byte(s, 123, after, s.len() as int) {
        lemma_matching_brace_after(s, open);
    }
}

pub open spec fn then_contracts(acc: Seq<ContractShape>, r: Result<Seq<ContractShape>, ParseFailure>) -> Result<Seq<ContractShape>, ParseFailure> {
    match r {
        Ok(rest) => Ok(acc + rest),
        Err(e) => Err(e),
    }
}

/// The contracts found from `cursor` on: each begins at the next `contract`
/// keyword after the previous contract's closing brace.
pub open spec fn scan_contracts(s: Seq<u8>, cursor: int) -> Result<Seq<ContractShape>, ParseFailure>
    decreases s.len() - cursor,
{
    if cursor < 0 {
        Ok(seq![])
    } else {
        match find_keyword(s, kw_contract(), cursor) {
            None => Ok(seq![]),
            Some(k) => match contract_shape(s, k) {
                Err(e) => Err(e),
                Ok(c) => {
                    proof {
                        lemma_find_keyword_bounds(s, kw_contract(), cursor);
                        lemma_contract_shape_span(s, k);
                    }
                    then_contracts(seq![c], scan_contracts(s, c.end))
                },
            },
        }
    }
}

/// What parsing `source` yields: the contracts of the source unit, or the
/// error that the parser reports.
pub open spec fn parse_model(source: &str) -> Result<Seq<ContractShape>, ParseFailure> {
    if is_blank(source@) {
        Err(ParseFailure::EmptySource)
    } else {
        match scan_contracts(source.spec_bytes(), 0) {
            Err(e) => Err(e),
            Ok(cs) => if cs.len() == 0 {
                Err(ParseFailure::SyntaxError("no contract definition found"@))
            } else {
                Ok(cs)
            },
        }
    }
}

// ---------------------------------------------------------------------------
// Node ids and the tree that realizes a shape
// ---------------------------------------------------------------------------

/// The id given to the `k`-th node created (counting from zero); ids are
/// `usize` and wrap around.
pub open spec fn wrap_id(k: nat) -> usize {
    (k % (usize::MAX as nat + 1)) as usize
}

proof fn lemma_wrap_succ(k: nat)
    ensures
        wrap_id(k + 1) == vstd::wrapping::usize_specs::wrapping_add(wrap_id(k), 1),
{
    let m = usize::MAX as nat + 1;
    assert(m > 0);
    let r = k % m;
    assert(r < m) by (nonlinear_arith)
        requires
            m > 0,
            r == k % m,
    ;
    if r + 1 == m {
        assert((k + 1) % m == 0) by (nonlinear_arith)
            requires
                m > 0,
                r == k % m,
                r + 1 == m,
        ;
    } else {
        assert((k + 1) % m == r + 1) by (nonlinear_arith)
            requires
                m > 0,
                r == k % m,
                r + 1 < m,
        ;
    }
}

pub open spec fn member_size(m: MemberShape) -> nat {
    match m {
        MemberShape::Variable(_, _) => 1,
        MemberShape::Function(f) => 1 + f.stmts.len(),
    }
}

/// Number of nodes that the members produce.
pub open spec fn members_size(ms: Seq<MemberShape>) -> nat
    decreases ms.len(),
{
    if ms.len() == 0 {
        0
    } else {
        members_size(ms.drop_last()) + member_size(ms.last())
    }
}

pub open spec fn contract_size(c: ContractShape) -> nat {
    1 + members_size(c.members)
}

/// Number of nodes that the contracts produce.
pub open spec fn contracts_size(cs: Seq<ContractShape>) -> nat
    decreases cs.len(),
{
    if cs.len() == 0 {
        0
    } else {
        contracts_size(cs.drop_last()) + contract_size(cs.last())
    }
}

pub open spec fn span_is(span: SourceSpan, r: (int, int)) -> bool {
    span.start == r.0 && span.end == r.1
}

/// `n` is a childless node with the given id (the `id`-th node made), kind and span.
pub open spec fn leaf_matches(n: ASTNode, id: nat, kind: NodeKind, span: (int, int)) -> bool {
    &&& n.id == wrap_id(id)
    &&& n.kind == kind
    &&& span_is(n.span, span)
    &&& n.children@.len() == 0
}

/// `n` is the function node for `f`, its statements being its children.
pub open spec fn function_matches(n: ASTNode, f: FunctionShape, id: nat) -> bool {
    &&& n.id == wrap_id(id)
    &&& n.kind == NodeKind::FunctionDefinition
    &&& span_is(n.span, (f.start, f.end))
    &&& n.children@.len() == f.stmts.len()
    &&& forall|k: int|
        0 <= k < f.stmts.len() ==> leaf_matches(
            #[trigger] n.children@[k],
            (id + 1 + k) as nat,
            NodeKind::Expression,
            f.stmts[k],
        )
}

pub open spec fn member_matches(n: ASTNode, m: MemberShape, id: nat) -> bool {
    match m {
        MemberShape::Variable(a, b) => leaf_matches(n, id, NodeKind::VariableDeclaration, (a, b)),
        MemberShape::Function(f) => function_matches(n, f, id),
    }
}

/// The nodes `ns` realize the members `ms`, the first taking id `id`.
pub open spec fn members_match(ns: Seq<ASTNode>, ms: Seq<MemberShape>, id: nat) -> bool {
    &&& ns.len() == ms.len()
    &&& forall|k: int|
        0 <= k < ms.len() ==> member_matches(#[trigger] ns[k], ms[k], id + members_size(ms.take(k)))
}

pub open spec fn contract_matches(n: ASTNode, c: ContractShape, id: nat) -> bool {
    &&& n.id == wrap_id(id)
    &&& n.kind == NodeKind::ContractDefinition
    &&& span_is(n.span, (c.start, c.end))
    &&& members_match(n.children@, c.members, id + 1)
}

/// `root` is the source unit spanning `len` bytes whose children realize `cs`.
pub open spec fn unit_matches(root: ASTNode, cs: Seq<ContractShape>, len: int) -> bool {
    &&& root.id == 0
    &&& root.kind == NodeKind::SourceUnit
    &&& span_is(root.span, (0, len))
    &&& root.children@.len() == cs.len()
    &&& forall|k: int|
        0 <= k < cs.len() ==> contract_matches(
            #[trigger] root.children@[k],
            cs[k],
            1 + contracts_size(cs.take(k)),
        )
}

// ---------------------------------------------------------------------------
// The pre-order listing of a parsed tree
// ---------------------------------------------------------------------------

/// The kind and span (start, end) of each node of a shape, in pre-order.
pub open spec fn function_items(f: FunctionShape) -> Seq<(NodeKind, int, int)> {
    seq![(NodeKind::FunctionDefinition, f.start, f.end)] + f.stmts.map_values(
        |st: (int, int)| (NodeKind::Expression, st.0, st.1),
    )
}

pub open spec fn member_items(m: MemberShape) -> Seq<(NodeKind, int, int)> {
    match m {
        MemberShape::Variable(a, b) => seq![(NodeKind::VariableDeclaration, a, b)],
        MemberShape::Function(f) => function_items(f),
    }
}

pub open spec fn members_items(ms: Seq<MemberShape>) -> Seq<(NodeKind, int, int)>
    decreases ms.len(),
{
    if ms.len() == 0 {
        seq![]
    } else {
        members_items(ms.drop_last()) + member_items(ms.last())
    }
}

pub open spec fn contract_items(c: ContractShape) -> Seq<(NodeKind, int, int)> {
    seq![(NodeKind::ContractDefinition, c.start, c.end)] + members_items(c.members)
}

pub open spec fn contracts_items(cs: Seq<ContractShape>) -> Seq<(NodeKind, int, int)>
    decreases cs.len(),
{
    if cs.len() == 0 {
        seq![]
    } else {
        contracts_items(cs.drop_last()) + contract_items(cs.last())
    }
}

/// Kinds and spans of all nodes of the tree parsed from a source of `len`
/// bytes whose contracts are `cs`, in pre-order.
pub open spec fn unit_items(cs: Seq<ContractShape>, len: int) -> Seq<(NodeKind, int, int)> {
    seq![(NodeKind::SourceUnit, 0, len)] + contracts_items(cs)
}

/// `nodes` carry the kinds and spans `items`, and the ids `id`, `id + 1`, ...
pub open spec fn layout_matches(nodes: Seq<ASTNode>, items: Seq<(NodeKind, int, int)>, id: nat) -> bool {
    &&& nodes.len() == items.len()
    &&& forall|k: int|
        0 <= k < nodes.len() ==> {
            &&& (#[trigger] nodes[k]).id == wrap_id((id + k) as nat)
            &&& nodes[k].kind == items[k].0
            &&& span_is(nodes[k].span, (items[k].1, items[k].2))
        }
}

proof fn lemma_layout_concat(
    a: Seq<ASTNode>,
    ia: Seq<(NodeKind, int, int)>,
    b: Seq<ASTNode>,
    ib: Seq<(NodeKind, int, int)>,
    id: nat,
)
    requires
        layout_matches(a, ia, id),
        layout_matches(b, ib, id + ia.len()),
    ensures
        layout_matches(a + b, ia + ib, id),
{
    assert forall|k: int| 0 <= k < (a + b).len() implies {
        &&& (#[trigger] (a + b)[k]).id == wrap_id((id + k) as nat)
        &&& (a + b)[k].kind == (ia + ib)[k].0
        &&& span_is((a + b)[k].span, ((ia + ib)[k].1, (ia + ib)[k].2))
    } by {
        if k >= a.len() {
            assert((a + b)[k] == b[k - a.len()]);
            assert((ia + ib)[k] == ib[k - a.len()]);
            assert(id + ia.len() + (k - a.len()) == id + k);
        }
    }
}

proof fn lemma_members_items_len(ms: Seq<MemberShape>)
    ensures
        members_items(ms).len() == members_size(ms),
    decreases ms.len(),
{
    if ms.len() > 0 {
        lemma_members_items_len(ms.drop_last());
    }
}

proof fn lemma_contracts_items_len(cs: Seq<ContractShape>)
    ensures
        contracts_items(cs).len() == contracts_size(cs),
    decreases cs.len(),
{
    if cs.len() > 0 {
        lemma_contracts_items_len(cs.drop_last());
        lemma_members_items_len(cs.last().members);
    }
}

/// Childless nodes list as themselves.
proof fn lemma_preorder_leaves(ns: Seq<ASTNode>)
    requires
        forall|k: int| 0 <= k < ns.len() ==> (#[trigger] ns[k]).children@.len() == 0,
    ensures
        preorder_seq(ns) == ns,
    decreases ns.len(),
{
    if ns.len() > 0 {
        lemma_preorder_leaves(ns.drop_last());
        let l = ns.last();
        assert(l.children@ =~= Seq::<ASTNode>::empty());
        assert(preorder(l) =~= seq![l]);
        assert(ns.drop_last() + seq![l] =~= ns);
    }
}

proof fn lemma_function_layout(n: ASTNode, f: FunctionShape, id: nat)
    requires
        function_matches(n, f, id),
    ensures
        layout_matches(preorder(n), function_items(f), id),
{
    let cs = n.children@;
    assert forall|k: int| 0 <= k < cs.len() implies (#[trigger] cs[k]).children@.len() == 0 by {
        assert(leaf_matches(cs[k], (id + 1 + k) as nat, NodeKind::Expression, f.stmts[k]));
    }
    lemma_preorder_leaves(cs);
    let items = function_items(f);
    let p = preorder(n);
    assert forall|k: int| 0 <= k < p.len() implies {
        &&& (#[trigger] p[k]).id == wrap_id((id + k) as nat)
        &&& p[k].kind == items[k].0
        &&& span_is(p[k].span, (items[k].1, items[k].2))
    } by {
        if k > 0 {
            assert(p[k] == cs[k - 1]);
            assert(leaf_matches(cs[k - 1], (id + 1 + (k - 1)) as nat, NodeKind::Expression, f.stmts[k - 1]));
        }
    }
}

proof fn lemma_member_layout(n: ASTNode, m: MemberShape, id: nat)
    requires
        member_matches(n, m, id),
    ensures
        layout_matches(preorder(n), member_items(m), id),
{
    match m {
        MemberShape::Variable(a, b) => {
            assert(n.children@ =~= Seq::<ASTNode>::empty());
            assert(preorder(n) =~= seq![n]);
        },
        MemberShape::Function(f) => {
            lemma_function_layout(n, f, id);
        },
    }
}

proof fn lemma_members_layout(ns: Seq<ASTNode>, ms: Seq<MemberShape>, id: nat)
    requires
        members_match(ns, ms, id),
    ensures
        layout_matches(preorder_seq(ns), members_items(ms), id),
    decreases ms.len(),
{
    if ms.len() > 0 {
        let last = ms.len() - 1;
        assert forall|k: int| 0 <= k < ms.drop_last().len() implies member_matches(
            #[trigger] ns.drop_last()[k],
            ms.drop_last()[k],
            id + members_size(ms.drop_last().take(k)),
        ) by {
            assert(ms.drop_last().take(k) =~= ms.take(k));
            assert(member_matches(ns[k], ms[k], id + members_size(ms.take(k))));
        }
        lemma_members_layout(ns.drop_last(), ms.drop_last(), id);
        assert(ms.take(last) =~= ms.drop_last());
        assert(member_matches(ns[last], ms[last], id + members_size(ms.take(last))));
        lemma_member_layout(ns.last(), ms.last(), id + members_size(ms.drop_last()));
        lemma_members_items_len(ms.drop_last());
        lemma_layout_concat(
            preorder_seq(ns.drop_last()),
            members_items(ms.drop_last()),
            preorder(ns.last()),
            member_items(ms.last()),
            id,
        );
    } else {
        assert(ns =~= Seq::<ASTNode>::empty());
    }
}

proof fn lemma_contract_layout(n: ASTNode, c: ContractShape, id: nat)
    requires
        contract_matches(n, c, id),
    ensures
        layout_matches(preorder(n), contract_items(c), id),
{
    lemma_members_layout(n.children@, c.members, id + 1);
    lemma_layout_concat(
        seq![n],
        seq![(NodeKind::ContractDefinition, c.start, c.end)],
        preorder_seq(n.children@),
        members_items(c.members),
        id,
    );
}

proof fn lemma_contracts_layout(ns: Seq<ASTNode>, cs: Seq<ContractShape>, id: nat)
    requires
        ns.len() == cs.len(),
        forall|k: int|
            0 <= k < cs.len() ==> contract_matches(
                #[trigger] ns[k],
                cs[k],
                id + contracts_size(cs.take(k)),
            ),
    ensures
        layout_matches(preorder_seq(ns), contracts_items(cs), id),
    decreases cs.len(),
{
    if cs.len() > 0 {
        let last = cs.len() - 1;
        assert forall|k: int| 0 <= k < cs.drop_last().len() implies contract_matches(
            #[trigger] ns.drop_last()[k],
            cs.drop_last()[k],
            id + contracts_size(cs.drop_last().take(k)),
        ) by {
            assert(cs.drop_last().take(k) =~= cs.take(k));
            assert(contract_matches(ns[k], cs[k], id + contracts_size(cs.take(k))));
        }
        lemma_contracts_layout(ns.drop_last(), cs.drop_last(), id);
        assert(cs.take(last) =~= cs.drop_last());
        assert(contract_matches(ns[last], cs[last], id + contracts_size(cs.take(last))));
        lemma_contract_layout(ns.last(), cs.last(), id + contracts_size(cs.drop_last()));
        lemma_contracts_items_len(cs.drop_last());
        lemma_layout_concat(
            preorder_seq(ns.drop_last()),
            contracts_items(cs.drop_last()),
            preorder(ns.last()),
            contract_items(cs.last()),
            id,
        );
    } else {
        assert(ns =~= Seq::<ASTNode>::empty());
    }
}

/// The pre-order listing of a parsed tree carries the kinds and spans of the
/// shape, and the `k`-th node listed has id `k` (wrapping).
pub proof fn lemma_unit_layout(root: ASTNode, cs: Seq<ContractShape>, len: int)
    requires
        unit_matches(root, cs, len),
    ensures
        layout_matches(preorder(root), unit_items(cs, len), 0),
{
    assert forall|k: int| 0 <= k < cs.len() implies contract_matches(
        #[trigger] root.children@[k],
        cs[k],
        1 + contracts_size(cs.take(k)),
    ) by {}
    lemma_contracts_layout(root.children@, cs, 1);
    assert(root.id == wrap_id(0)) by {
        assert(0nat % (usize::MAX as nat + 1) == 0) by (nonlinear_arith);
    }
    lemma_layout_concat(
        seq![root],
        seq![(NodeKind::SourceUnit, 0, len)],
        preorder_seq(root.children@),
        contracts_items(cs),
        0,
    );
}

/// Parsing numbers the nodes in depth-first pre-order: the `k`-th node of
/// the tree's pre-order listing has id `k` (ids are `usize` and wrap around),
/// so no two nodes share an id unless there are more than `usize::MAX + 1`.
pub proof fn lemma_parsed_ids_follow_preorder(source: &str, root: ASTNode)
    requires
        parse_model(source) is Ok,
        unit_matches(root, parse_model(source)->Ok_0, source.spec_bytes().len() as int),
    ensures
        forall|k: int|
            0 <= k < preorder(root).len() ==> #[trigger] preorder(root)[k].id == wrap_id(k as nat),
        forall|k: int| 0 <= k < preorder(root).len() && k <= usize::MAX ==> #[trigger] preorder(root)[k].id == k,
        preorder(root).len() <= usize::MAX + 1 ==> forall|a: int, b: int|
            0 <= a < b < preorder(root).len() ==> #[trigger] preorder(root)[a].id != #[trigger] preorder(root)[b].id,
{
    let cs = parse_model(source)->Ok_0;
    let nodes = preorder(root);
    lemma_unit_layout(root, cs, source.spec_bytes().len() as int);
    assert forall|k: int| 0 <= k < nodes.len() implies #[trigger] nodes[k].id == wrap_id(k as nat) by {
        assert(nodes[k].id == wrap_id((0 + k) as nat));
    }
    assert forall|k: int| 0 <= k < nodes.len() && k <= usize::MAX implies #[trigger] nodes[k].id == k by {
        let m = usize::MAX as nat + 1;
        assert(k % (m as int) == k) by (nonlinear_arith)
            requires
                0 <= k < m,
        ;
        assert(nodes[k].id == wrap_id(k as nat));
    }
    if nodes.len() <= usize::MAX + 1 {
        assert forall|a: int, b: int| 0 <= a < b < nodes.len() implies #[trigger] nodes[a].id != #[trigger] nodes[b].id by {
            assert(nodes[a].id == a);
            assert(nodes[b].id == b);
        }
    }
}

// ---------------------------------------------------------------------------
// Spans lie inside the source
// ---------------------------------------------------------------------------

/// Every item spans a non-empty byte range inside `[0, len]`.
pub open spec fn items_within(items: Seq<(NodeKind, int, int)>, len: int) -> bool {
    forall|k: int| 0 <= k < items.len() ==> 0 <= (#[trigger] items[k]).1 < items[k].2 <= len
}

proof fn lemma_items_within_concat(a: Seq<(NodeKind, int, int)>, b: Seq<(NodeKind, int, int)>, len: int)
    requires
        items_within(a, len),
        items_within(b, len),
    ensures
        items_within(a + b, len),
{
    assert forall|k: int| 0 <= k < (a + b).len() implies 0 <= (#[trigger] (a + b)[k]).1 < (a + b)[k].2 <= len by {
        if k < a.len() {
            assert((a + b)[k] == a[k]);
        } else {
            assert((a + b)[k] == b[k - a.len()]);
        }
    }
}

proof fn lemma_members_items_concat(a: Seq<MemberShape>, b: Seq<MemberShape>)
    ensures
        members_items(a + b) == members_items(a) + members_items(b),
    decreases b.len(),
{
    if b.len() == 0 {
        assert(a + b =~= a);
        assert(members_items(a) + members_items(b) =~= members_items(a));
    } else {
        assert((a + b).drop_last() =~= a + b.drop_last());
        assert((a + b).last() == b.last());
        lemma_members_items_concat(a, b.drop_last());
        assert(members_items(a + b) =~= members_items(a) + members_items(b));
    }
}

proof fn lemma_contracts_items_concat(a: Seq<ContractShape>, b: Seq<ContractShape>)
    ensures
        contracts_items(a + b) == contracts_items(a) + contracts_items(b),
    decreases b.len(),
{
    if b.len() == 0 {
        assert(a + b =~= a);
        assert(contracts_items(a) + contracts_items(b) =~= contracts_items(a));
    } else {
        assert((a + b).drop_last() =~= a + b.drop_last());
        assert((a + b).last() == b.last());
        lemma_contracts_items_concat(a, b.drop_last());
        assert(contracts_items(a + b) =~= contracts_items(a) + contracts_items(b));
    }
}

/// Every statement span of `r` begins at or after `lo` and ends by `end`.
spec fn stmts_within(r: Seq<(int, int)>, lo: int, end: int) -> bool {
    forall|k: int| 0 <= k < r.len() ==> lo <= (#[trigger] r[k]).0 < r[k].1 <= end
}

/// Statements found from `i` on begin at or after `lo` and end by `end`.
proof fn lemma_scan_stmts_within(s: Seq<u8>, i: int, end: int, depth: nat, open: Option<int>, lo: int)
    requires
        0 <= lo <= i,
        end <= s.len(),
        open matches Some(st) ==> lo <= st < i,
    ensures
        stmts_within(scan_stmts(s, i, end, depth, open), lo, end),
    decreases end - i,
{
    let r = scan_stmts(s, i, end, depth, open);
    if i >= end || i < 0 || i >= s.len() {
        assert(r.len() == 0);
    } else {
        let b = s[i];
        if b == 123 {
            lemma_scan_stmts_within(s, i + 1, end, depth + 1, open, lo);
            assert(r == scan_stmts(s, i + 1, end, depth + 1, open));
        } else if b == 125 {
            let d = if depth == 0 { 0 } else { (depth - 1) as nat };
            lemma_scan_stmts_within(s, i + 1, end, d, open, lo);
            assert(r == scan_stmts(s, i + 1, end, d, open));
        } else if b == 59 && depth == 0 {
            lemma_scan_stmts_within(s, i + 1, end, depth, None, lo);
            let rest = scan_stmts(s, i + 1, end, depth, None);
            if let Some(st) = open {
                assert(r == seq![(st, i + 1)] + rest);
                assert forall|k: int| 0 <= k < r.len() implies lo <= (#[trigger] r[k]).0 < r[k].1 <= end by {
                    if k > 0 {
                        assert(r[k] == rest[k - 1]);
                    }
                }
            } else {
                assert(r == rest);
            }
        } else if depth == 0 && open is None && !is_ascii_ws_byte(b) {
            lemma_scan_stmts_within(s, i + 1, end, depth, Some(i), lo);
            assert(r == scan_stmts(s, i + 1, end, depth, Some(i)));
        } else {
            lemma_scan_stmts_within(s, i + 1, end, depth, open, lo);
            assert(r == scan_stmts(s, i + 1, end, depth, open));
        }
    }
}

/// A byte that may begin a statement: not ASCII whitespace, a brace or `;`.
pub open spec fn starts_statement(b: u8) -> bool {
    !is_ascii_ws_byte(b) && b != 123 && b != 125 && b != 59
}

/// The statement spans `r` lie in `[lo, end]`, each begins at a byte that
/// may begin a statement and ends just after a `;`, and they come in source
/// order without overlapping.
pub open spec fn statements_well_formed(s: Seq<u8>, r: Seq<(int, int)>, lo: int, end: int) -> bool {
    &&& forall|k: int|
        0 <= k < r.len() ==> lo <= (#[trigger] r[k]).0 < r[k].1 <= end && starts_statement(s[r[k].0])
            && s[r[k].1 - 1] == 59
    &&& forall|i: int, j: int| 0 <= i < j < r.len() ==> (#[trigger] r[i]).1 <= (#[trigger] r[j]).0
}

proof fn lemma_scan_stmts_well_formed(s: Seq<u8>, i: int, end: int, depth: nat, open: Option<int>, lo: int)
    requires
        0 <= lo <= i,
        end <= s.len(),
        open matches Some(st) ==> lo <= st < i && starts_statement(s[st]),
    ensures
        statements_well_formed(s, scan_stmts(s, i, end, depth, open), lo, end),
    decreases end - i,
{
    let r = scan_stmts(s, i, end, depth, open);
    if i >= end || i < 0 || i >= s.len() {
        assert(r.len() == 0);
    } else {
        let b = s[i];
        if b == 123 {
            lemma_scan_stmts_well_formed(s, i + 1, end, depth + 1, open, lo);
            assert(r == scan_stmts(s, i + 1, end, depth + 1, open));
        } else if b == 125 {
            let d = if depth == 0 { 0 } else { (depth - 1) as nat };
            lemma_scan_stmts_well_formed(s, i + 1, end, d, open, lo);
            assert(r == scan_stmts(s, i + 1, end, d, open));
        } else if b == 59 && depth == 0 {
            lemma_scan_stmts_well_formed(s, i + 1, end, depth, None, i + 1);
            let rest = scan_stmts(s, i + 1, end, depth, None);
            if let Some(st) = open {
                assert(r == seq![(st, i + 1)] + rest);
                assert forall|k: int| 0 <= k < r.len() implies lo <= (#[trigger] r[k]).0 < r[k].1 <= end
                    && starts_statement(s[r[k].0]) && s[r[k].1 - 1] == 59 by {
                    if k > 0 {
                        assert(r[k] == rest[k - 1]);
                    }
                }
                assert forall|x: int, y: int| 0 <= x < y < r.len() implies (#[trigger] r[x]).1 <= (#[trigger] r[y]).0 by {
                    assert(r[y] == rest[y - 1]);
                    if x > 0 {
                        assert(r[x] == rest[x - 1]);
                    }
                }
            } else {
                assert(r == rest);
            }
        } else if depth == 0 && open is None && !is_ascii_ws_byte(b) {
            lemma_scan_stmts_well_formed(s, i + 1, end, depth, Some(i), lo);
            assert(r == scan_stmts(s, i + 1, end, depth, Some(i)));
        } else {
            lemma_scan_stmts_well_formed(s, i + 1, end, depth, open, lo);
            assert(r == scan_stmts(s, i + 1, end, depth, open));
        }
    }
}

/// The brace depth reached after scanning the body bytes `[lo, p)` from depth
/// zero: `{` opens a level, `}` closes one (never below zero).
pub open spec fn depth_at(s: Seq<u8>, lo: int, p: int) -> nat
    decreases p - lo,
{
    if p <= lo {
        0
    } else {
        let d = depth_at(s, lo, p - 1);
        let b = s[p - 1];
        if b == 123 {
            d + 1
        } else if b == 125 {
            if d == 0 {
                0
            } else {
                (d - 1) as nat
            }
        } else {
            d
        }
    }
}

/// Byte `t` of a body starting at `lo` is a `;` at depth zero.
pub open spec fn semi_at_depth_zero(s: Seq<u8>, lo: int, t: int) -> bool {
    s[t] == 59 && depth_at(s, lo, t) == 0
}

/// Byte `q` of a body starting at `lo` may begin a statement that is still
/// open at `p`: it lies at depth zero, may begin a statement, and no `;` at
/// depth zero lies in `[q, p)`.
pub open spec fn open_statement_start(s: Seq<u8>, lo: int, q: int, p: int) -> bool {
    &&& lo <= q < p
    &&& depth_at(s, lo, q) == 0
    &&& starts_statement(s[q])
    &&& forall|t: int| q <= t < p ==> !#[trigger] semi_at_depth_zero(s, lo, t)
}

/// Byte `p` of a body starting at `lo` is a `;` at depth zero that closes a
/// statement: some byte before it may begin one that is still open.
pub open spec fn closes_statement(s: Seq<u8>, lo: int, p: int) -> bool {
    &&& semi_at_depth_zero(s, lo, p)
    &&& exists|q: int| #[trigger] open_statement_start(s, lo, q, p)
}

/// Statement scan state at `i`: the depth matches the body's depth there;
/// an open statement began at a byte that may still begin one, with no
/// earlier such byte; with none open, no such byte is pending.
spec fn stmt_scan_state(s: Seq<u8>, lo: int, i: int, depth: nat, open: Option<int>) -> bool {
    &&& lo <= i
    &&& depth == depth_at(s, lo, i)
    &&& match open {
        Some(st) => open_statement_start(s, lo, st, i) && forall|q: int|
            lo <= q < st ==> !#[trigger] open_statement_start(s, lo, q, i),
        None => forall|q: int| lo <= q < i ==> !#[trigger] open_statement_start(s, lo, q, i),
    }
}

proof fn lemma_scan_stmts_exact(s: Seq<u8>, lo: int, i: int, end: int, depth: nat, open: Option<int>)
    requires
        end <= s.len(),
        0 <= lo,
        stmt_scan_state(s, lo, i, depth, open),
    ensures
        forall|k: int|
            0 <= k < scan_stmts(s, i, end, depth, open).len() ==> {
                let (a, b) = #[trigger] scan_stmts(s, i, end, depth, open)[k];
                &&& semi_at_depth_zero(s, lo, b - 1)
                &&& open_statement_start(s, lo, a, b - 1)
                &&& forall|q: int| lo <= q < a ==> !#[trigger] open_statement_start(s, lo, q, b - 1)
            },
        forall|p: int|
            i <= p < end && #[trigger] closes_statement(s, lo, p) ==> exists|k: int|
                0 <= k < scan_stmts(s, i, end, depth, open).len() && (#[trigger] scan_stmts(
                    s,
                    i,
                    end,
                    depth,
                    open,
                )[k]).1 == p + 1,
    decreases end - i,
{
    let r = scan_stmts(s, i, end, depth, open);
    if i >= end || i < 0 || i >= s.len() {
        assert(r.len() == 0);
    } else {
        let b = s[i];
        let d2 = depth_at(s, lo, i + 1);
        let semi0 = b == 59 && depth == 0;
        assert(semi0 == semi_at_depth_zero(s, lo, i));
        // The state after byte `i`.
        let open2 = if b == 123 || b == 125 {
            open
        } else if semi0 {
            None
        } else if depth == 0 && open is None && !is_ascii_ws_byte(b) {
            Some(i)
        } else {
            open
        };
        assert(r == if semi0 && open is Some {
            seq![(open->Some_0, i + 1)] + scan_stmts(s, i + 1, end, d2, open2)
        } else {
            scan_stmts(s, i + 1, end, d2, open2)
        });
        assert(stmt_scan_state(s, lo, i + 1, d2, open2)) by {
            assert forall|q: int, p2: int| lo <= q < i && #[trigger] open_statement_start(s, lo, q, p2) && p2 == i + 1
                implies open_statement_start(s, lo, q, i) by {
                assert forall|t: int| q <= t < i implies !#[trigger] semi_at_depth_zero(s, lo, t) by {
                    assert(!semi_at_depth_zero(s, lo, t));
                }
            }
            if semi0 {
                assert forall|q: int| lo <= q < i + 1 implies !#[trigger] open_statement_start(s, lo, q, i + 1) by {
                    assert(semi_at_depth_zero(s, lo, i));
                }
            } else if open2 == Some(i) && open is None {
                assert(starts_statement(b));
                assert forall|t: int| i <= t < i + 1 implies !#[trigger] semi_at_depth_zero(s, lo, t) by {}
                assert forall|q: int| lo <= q < i implies !#[trigger] open_statement_start(s, lo, q, i + 1) by {
                    if open_statement_start(s, lo, q, i + 1) {
                        assert(open_statement_start(s, lo, q, i));
                    }
                }
            } else {
                if let Some(st) = open {
                    assert(open_statement_start(s, lo, st, i + 1)) by {
                        assert forall|t: int| st <= t < i + 1 implies !#[trigger] semi_at_depth_zero(s, lo, t) by {
                            if t < i {
                                assert(open_statement_start(s, lo, st, i));
                            }
                        }
                    }
                    assert forall|q: int| lo <= q < st implies !#[trigger] open_statement_start(s, lo, q, i + 1) by {
                        if open_statement_start(s, lo, q, i + 1) {
                            assert(open_statement_start(s, lo, q, i));
                        }
                    }
                } else {
                    assert forall|q: int| lo <= q < i + 1 implies !#[trigger] open_statement_start(s, lo, q, i + 1) by {
                        if q < i && open_statement_start(s, lo, q, i + 1) {
                            assert(open_statement_start(s, lo, q, i));
                        }
                        if q == i {
                            assert(!starts_statement(b) || depth != 0);
                        }
                    }
                }
            }
        }
        lemma_scan_stmts_exact(s, lo, i + 1, end, d2, open2);
        let rest = scan_stmts(s, i + 1, end, d2, open2);
        if semi0 && open is Some {
            let st = open->Some_0;
            assert forall|k: int| 0 <= k < r.len() implies {
                let (a, b) = #[trigger] r[k];
                &&& semi_at_depth_zero(s, lo, b - 1)
                &&& open_statement_start(s, lo, a, b - 1)
                &&& forall|q: int| lo <= q < a ==> !#[trigger] open_statement_start(s, lo, q, b - 1)
            } by {
                if k > 0 {
                    assert(r[k] == rest[k - 1]);
                }
            }
            assert forall|p: int| i <= p < end && #[trigger] closes_statement(s, lo, p) implies exists|k: int|
                0 <= k < r.len() && (#[trigger] r[k]).1 == p + 1 by {
                if p == i {
                    assert(r[0].1 == p + 1);
                } else {
                    let k = choose|k: int| 0 <= k < rest.len() && (#[trigger] rest[k]).1 == p + 1;
                    assert(r[k + 1] == rest[k]);
                }
            }
        } else {
            assert forall|p: int| i <= p < end && #[trigger] closes_statement(s, lo, p) implies exists|k: int|
                0 <= k < r.len() && (#[trigger] r[k]).1 == p + 1 by {
                if p == i {
                    let q = choose|q: int| #[trigger] open_statement_start(s, lo, q, p);
                    assert(false);
                }
            }
        }
    }
}

/// The statements of a function with a body are exactly its statements at
/// brace depth zero. With `lo` the byte after the body's `{`: each statement
/// ends just after a `;` at depth zero and begins at the first byte that may
/// begin a statement still open there; and every `;` at depth zero of the
/// body that closes a statement ends one.
pub proof fn lemma_function_statements_exact(s: Seq<u8>, start: int)
    requires
        0 <= start,
    ensures
        function_shape(s, start) matches Ok(f) ==> match find_open_or_semi(s, start) {
            None => true,
            Some(sig) => s[sig] == 123 ==> {
            let lo = sig + 1;
            &&& forall|k: int|
                0 <= k < f.stmts.len() ==> {
                    let (a, b) = #[trigger] f.stmts[k];
                    &&& semi_at_depth_zero(s, lo, b - 1)
                    &&& open_statement_start(s, lo, a, b - 1)
                    &&& forall|q: int| lo <= q < a ==> !#[trigger] open_statement_start(s, lo, q, b - 1)
                }
            &&& forall|p: int|
                lo <= p < f.end - 1 && #[trigger] closes_statement(s, lo, p) ==> exists|k: int|
                    0 <= k < f.stmts.len() && (#[trigger] f.stmts[k]).1 == p + 1
            },
        },
{
    lemma_find_open_or_semi_bounds(s, start);
    if let Some(sig) = find_open_or_semi(s, start) {
        if s[sig] == 123 {
            lemma_matching_brace_after(s, sig);
            if let Some(close) = matching_brace(s, sig) {
                let lo = sig + 1;
                assert(depth_at(s, lo, lo) == 0);
                assert(stmt_scan_state(s, lo, lo, 0, None));
                lemma_scan_stmts_exact(s, lo, lo, close, 0, None);
                let f = function_shape(s, start)->Ok_0;
                let r = scan_stmts(s, lo, close, 0, None);
                assert(f.stmts == r);
                assert(f.end - 1 == close);
                assert forall|k: int| 0 <= k < f.stmts.len() implies {
                    let (a, b) = #[trigger] f.stmts[k];
                    &&& semi_at_depth_zero(s, lo, b - 1)
                    &&& open_statement_start(s, lo, a, b - 1)
                    &&& forall|q: int| lo <= q < a ==> !#[trigger] open_statement_start(s, lo, q, b - 1)
                } by {
                    assert(r[k] == f.stmts[k]);
                }
                assert forall|p: int| lo <= p < f.end - 1 && #[trigger] closes_statement(s, lo, p) implies exists|k: int|
                    0 <= k < f.stmts.len() && (#[trigger] f.stmts[k]).1 == p + 1 by {
                    let k = choose|k: int| 0 <= k < r.len() && (#[trigger] r[k]).1 == p + 1;
                    assert(f.stmts[k] == r[k]);
                }
            }
        }
    }
}

/// The statements of a function body lie strictly inside the function's
/// span, each beginning at a byte that is not whitespace, a brace or `;` and
/// ending just after a `;`, in source order without overlapping.
pub proof fn lemma_function_statements(s: Seq<u8>, start: int)
    requires
        0 <= start,
    ensures
        function_shape(s, start) matches Ok(f) ==> statements_well_formed(s, f.stmts, f.start + 1, f.end - 1),
{
    lemma_find_open_or_semi_bounds(s, start);
    if let Some(sig) = find_open_or_semi(s, start) {
        if s[sig] == 123 {
            lemma_matching_brace_after(s, sig);
            if let Some(close) = matching_brace(s, sig) {
                lemma_scan_stmts_well_formed(s, sig + 1, close, 0, None, sig + 1);
                let r = scan_stmts(s, sig + 1, close, 0, None);
                assert forall|k: int| 0 <= k < r.len() implies start + 1 <= (#[trigger] r[k]).0 < r[k].1 <= close
                    && starts_statement(s[r[k].0]) && s[r[k].1 - 1] == 59 by {
                    assert(sig + 1 <= r[k].0);
                }
            }
        }
    }
}

proof fn lemma_function_items_within(s: Seq<u8>, start: int)
    requires
        0 <= start,
    ensures
        function_shape(s, start) matches Ok(f) ==> items_within(function_items(f), s.len() as int),
{
    lemma_function_shape_span(s, start);
    lemma_find_open_or_semi_bounds(s, start);
    if let Some(sig) = find_open_or_semi(s, start) {
        if s[sig] == 123 {
            lemma_matching_brace_after(s, sig);
            if let Some(close) = matching_brace(s, sig) {
                lemma_scan_stmts_within(s, sig + 1, close, 0, None, sig + 1);
            }
        }
    }
    if let Ok(f) = function_shape(s, start) {
        let items = function_items(f);
        assert forall|k: int| 0 <= k < items.len() implies 0 <= (#[trigger] items[k]).1 < items[k].2 <= s.len() by {
            if k > 0 {
                assert(items[k] == (NodeKind::Expression, f.stmts[k - 1].0, f.stmts[k - 1].1));
            }
        }
    }
}

proof fn lemma_scan_members_within(s: Seq<u8>, i: int, end: int, depth: nat)
    requires
        0 <= i,
        end <= s.len(),
    ensures
        scan_members(s, i, end, depth) matches Ok(ms) ==> items_within(members_items(ms), s.len() as int),
    decreases s.len() - i,
{
    if i >= end || i >= s.len() {
        assert(members_items(Seq::<MemberShape>::empty()) =~= Seq::<(NodeKind, int, int)>::empty());
    } else {
        let b = s[i];
        if b == 123 {
            lemma_scan_members_within(s, i + 1, end, depth + 1);
        } else if b == 125 {
            lemma_scan_members_within(s, i + 1, end, if depth == 0 { 0 } else { (depth - 1) as nat });
        } else if depth == 0 && keyword_at(s, i, kw_function()) {
            lemma_function_shape_span(s, i);
            lemma_function_items_within(s, i);
            if let Ok(f) = function_shape(s, i) {
                lemma_scan_members_within(s, f.end, end, depth);
                if let Ok(rest) = scan_members(s, f.end, end, depth) {
                    let m = MemberShape::Function(f);
                    lemma_members_items_concat(seq![m], rest);
                    assert(seq![m].drop_last() =~= Seq::<MemberShape>::empty());
                    assert(seq![m].last() == m);
                    assert(members_items(Seq::<MemberShape>::empty()) =~= Seq::<(NodeKind, int, int)>::empty());
                    assert(members_items(seq![m]) =~= member_items(m));
                    lemma_items_within_concat(member_items(m), members_items(rest), s.len() as int);
                }
            }
        } else if depth == 0 && type_keyword_at(s, i) {
            lemma_find_byte_bounds(s, 59, i, end);
            if let Some(semi) = find_byte(s, 59, i, end) {
                lemma_scan_members_within(s, semi + 1, end, depth);
                if let Ok(rest) = scan_members(s, semi + 1, end, depth) {
                    let m = MemberShape::Variable(i, semi + 1);
                    lemma_members_items_concat(seq![m], rest);
                    assert(seq![m].drop_last() =~= Seq::<MemberShape>::empty());
                    assert(seq![m].last() == m);
                    assert(members_items(Seq::<MemberShape>::empty()) =~= Seq::<(NodeKind, int, int)>::empty());
                    assert(members_items(seq![m]) =~= member_items(m));
                    lemma_items_within_concat(member_items(m), members_items(rest), s.len() as int);
                }
            }
        } else {
            lemma_scan_members_within(s, i + 1, end, depth);
        }
    }
}

proof fn lemma_contract_items_within(s: Seq<u8>, start: int)
    requires
        0 <= start,
    ensures
        contract_shape(s, start) matches Ok(c) ==> items_within(contract_items(c), s.len() as int),
{
    lemma_contract_shape_span(s, start);
    lemma_kw_contract();
    let after = start + 8;
    lemma_find_byte_bounds(s, 123, after, s.len() as int);
    if let Some(open) = find_byte(s, 123, after, s.len() as int) {
        lemma_matching_brace_after(s, open);
        if let Some(close) = matching_brace(s, open) {
            lemma_scan_members_within(s, open + 1, close, 0);
        }
    }
    if let Ok(c) = contract_shape(s, start) {
        lemma_items_within_concat(
            seq![(NodeKind::ContractDefinition, c.start, c.end)],
            members_items(c.members),
            s.len() as int,
        );
    }
}

proof fn lemma_scan_contracts_within(s: Seq<u8>, cursor: int)
    ensures
        scan_contracts(s, cursor) matches Ok(cs) ==> items_within(contracts_items(cs), s.len() as int),
    decreases s.len() - cursor,
{
    if cursor >= 0 {
        lemma_find_keyword_bounds(s, kw_contract(), cursor);
        if let Some(k) = find_keyword(s, kw_contract(), cursor) {
            lemma_contract_shape_span(s, k);
            lemma_contract_items_within(s, k);
            if let Ok(c) = contract_shape(s, k) {
                lemma_scan_contracts_within(s, c.end);
                if let Ok(rest) = scan_contracts(s, c.end) {
                    lemma_contracts_items_concat(seq![c], rest);
                    assert(seq![c].drop_last() =~= Seq::<ContractShape>::empty());
                    assert(seq![c].last() == c);
                    assert(contracts_items(Seq::<ContractShape>::empty()) =~= Seq::<(NodeKind, int, int)>::empty());
                    assert(contracts_items(seq![c]) =~= contract_items(c));
                    lemma_items_within_concat(contract_items(c), contracts_items(rest), s.len() as int);
                }
            }
        } else {
            assert(contracts_items(Seq::<ContractShape>::empty()) =~= Seq::<(NodeKind, int, int)>::empty());
        }
    } else {
        assert(contracts_items(Seq::<ContractShape>::empty()) =~= Seq::<(NodeKind, int, int)>::empty());
    }
}

/// Every node of a parsed tree spans a non-empty byte range of the source:
/// its start lies before its end, and its end is at most the source length.
pub proof fn lemma_parsed_spans_within_source(source: &str, root: ASTNode)
    requires
        parse_model(source) is Ok,
        unit_matches(root, parse_model(source)->Ok_0, source.spec_bytes().len() as int),
    ensures
        forall|k: int|
            0 <= k < preorder(root).len() ==> (#[trigger] preorder(root)[k]).span.start < preorder(root)[k].span.end
                <= source.spec_bytes().len(),
{
    let s = source.spec_bytes();
    let len = s.len() as int;
    let cs = parse_model(source)->Ok_0;
    let nodes = preorder(root);
    let items = unit_items(cs, len);
    lemma_unit_layout(root, cs, len);
    lemma_scan_contracts_within(s, 0);
    assert(len > 0) by {
        assert(!is_blank(source@));
        encode_utf8_decode_utf8(source@);
        if len == 0 {
            assert(s =~= Seq::<u8>::empty());
            assert(decode_utf8(s) =~= Seq::<char>::empty());
        }
    }
    lemma_items_within_concat(seq![(NodeKind::SourceUnit, 0, len)], contracts_items(cs), len);
    assert forall|k: int| 0 <= k < nodes.len() implies (#[trigger] nodes[k]).span.start < nodes[k].span.end <= len by {
        assert(span_is(nodes[k].span, (items[k].1, items[k].2)));
    }
}

// ---------------------------------------------------------------------------
// Contracts come in source order
// ---------------------------------------------------------------------------

/// Each contract of `cs` starts at a `contract` keyword at or after `lo` and
/// ends inside `s` with a `}`, and each ends at or before the start of every
/// later one.
spec fn contracts_ordered(s: Seq<u8>, cs: Seq<ContractShape>, lo: int) -> bool {
    &&& forall|k: int|
        0 <= k < cs.len() ==> lo <= (#[trigger] cs[k]).start < cs[k].end <= s.len() && keyword_at(
            s,
            cs[k].start,
            kw_contract(),
        ) && s[cs[k].end - 1] == 125
    &&& forall|i: int, j: int| 0 <= i < j < cs.len() ==> (#[trigger] cs[i]).end <= (#[trigger] cs[j]).start
}

proof fn lemma_scan_contracts_ordered(s: Seq<u8>, cursor: int)
    ensures
        scan_contracts(s, cursor) matches Ok(cs) ==> contracts_ordered(s, cs, cursor),
    decreases s.len() - cursor,
{
    if cursor >= 0 {
        lemma_find_keyword_bounds(s, kw_contract(), cursor);
        if let Some(k) = find_keyword(s, kw_contract(), cursor) {
            lemma_contract_shape_span(s, k);
            lemma_contract_span_end(s, k);
            if let Ok(c) = contract_shape(s, k) {
                lemma_scan_contracts_ordered(s, c.end);
                if let Ok(rest) = scan_contracts(s, c.end) {
                    let cs = seq![c] + rest;
                    assert forall|t: int| 0 <= t < cs.len() implies cursor <= (#[trigger] cs[t]).start < cs[t].end
                        <= s.len() && keyword_at(s, cs[t].start, kw_contract()) && s[cs[t].end - 1] == 125 by {
                        if t > 0 {
                            assert(cs[t] == rest[t - 1]);
                        }
                    }
                    assert forall|i: int, j: int| 0 <= i < j < cs.len() implies (#[trigger] cs[i]).end
                        <= (#[trigger] cs[j]).start by {
                        assert(cs[j] == rest[j - 1]);
                        if i > 0 {
                            assert(cs[i] == rest[i - 1]);
                        }
                    }
                }
            }
        }
    }
}

/// The contracts of a parsed source unit lie in source order without
/// overlapping: each starts at a `contract` keyword, and each ends at or
/// before the start of every later one.
pub proof fn lemma_parsed_contracts_in_order(source: &str, root: ASTNode)
    requires
        parse_model(source) is Ok,
        unit_matches(root, parse_model(source)->Ok_0, source.spec_bytes().len() as int),
    ensures
        forall|k: int|
            0 <= k < root.children@.len() ==> keyword_at(
                source.spec_bytes(),
                (#[trigger] root.children@[k]).span.start as int,
                "contract".spec_bytes(),
            ),
        forall|i: int, j: int|
            0 <= i < j < root.children@.len() ==> (#[trigger] root.children@[i]).span.end
                <= (#[trigger] root.children@[j]).span.start,
{
    let s = source.spec_bytes();
    let cs = parse_model(source)->Ok_0;
    lemma_scan_contracts_ordered(s, 0);
    let ns = root.children@;
    assert forall|k: int| 0 <= k < ns.len() implies keyword_at(s, (#[trigger] ns[k]).span.start as int, "contract".spec_bytes()) by {
        assert(contract_matches(ns[k], cs[k], 1 + contracts_size(cs.take(k))));
        assert(cs[k] == cs[k]);
    }
    assert forall|i: int, j: int| 0 <= i < j < ns.len() implies (#[trigger] ns[i]).span.end <= (#[trigger] ns[j]).span.start by {
        assert(contract_matches(ns[i], cs[i], 1 + contracts_size(cs.take(i))));
        assert(contract_matches(ns[j], cs[j], 1 + contracts_size(cs.take(j))));
        assert(cs[i].end <= cs[j].start);
    }
}

// ---------------------------------------------------------------------------
// Members come in source order
// ---------------------------------------------------------------------------

/// The byte range `(start, end)` of a member.
pub open spec fn member_span(m: MemberShape) -> (int, int) {
    match m {
        MemberShape::Variable(a, b) => (a, b),
        MemberShape::Function(f) => (f.start, f.end),
    }
}

/// The members `ms` of a body scanned over `[lo, end)` begin inside that
/// range and end inside `s`; a state variable runs through the first `;`
/// after its start, which lies inside the range; and the members come in
/// source order without overlapping.
pub open spec fn members_well_formed(s: Seq<u8>, ms: Seq<MemberShape>, lo: int, end: int) -> bool {
    &&& forall|k: int|
        0 <= k < ms.len() ==> {
            let (a, b) = member_span(#[trigger] ms[k]);
            &&& lo <= a < end
            &&& a < b <= s.len()
            &&& ms[k] is Variable ==> b <= end && s[b - 1] == 59 && forall|t: int| a <= t < b - 1 ==> s[t] != 59
        }
    &&& forall|i: int, j: int| 0 <= i < j < ms.len() ==> member_span(#[trigger] ms[i]).1 <= member_span(#[trigger] ms[j]).0
}

/// The members that a body scan finds begin inside the body, come in source
/// order without overlapping, and each state variable runs through the first
/// `;` after its type keyword, inside the body.
pub proof fn lemma_members_well_formed(s: Seq<u8>, i: int, end: int, depth: nat)
    requires
        0 <= i,
        end <= s.len(),
    ensures
        scan_members(s, i, end, depth) matches Ok(ms) ==> members_well_formed(s, ms, i, end),
    decreases s.len() - i,
{
    if i >= end || i >= s.len() {
    } else {
        let b = s[i];
        if b == 123 {
            lemma_members_well_formed(s, i + 1, end, depth + 1);
        } else if b == 125 {
            lemma_members_well_formed(s, i + 1, end, if depth == 0 { 0 } else { (depth - 1) as nat });
        } else if depth == 0 && keyword_at(s, i, kw_function()) {
            lemma_function_shape_span(s, i);
            if let Ok(f) = function_shape(s, i) {
                lemma_members_well_formed(s, f.end, end, depth);
                if let Ok(rest) = scan_members(s, f.end, end, depth) {
                    lemma_members_prepend(s, MemberShape::Function(f), rest, i, f.end, end);
                }
            }
        } else if depth == 0 && type_keyword_at(s, i) {
            lemma_find_byte_bounds(s, 59, i, end);
            lemma_find_byte_first(s, 59, i, end);
            if let Some(semi) = find_byte(s, 59, i, end) {
                lemma_members_well_formed(s, semi + 1, end, depth);
                if let Ok(rest) = scan_members(s, semi + 1, end, depth) {
                    lemma_members_prepend(s, MemberShape::Variable(i, semi + 1), rest, i, semi + 1, end);
                }
            }
        } else {
            lemma_members_well_formed(s, i + 1, end, depth);
        }
    }
}

proof fn lemma_members_prepend(s: Seq<u8>, m: MemberShape, rest: Seq<MemberShape>, i: int, next: int, end: int)
    requires
        members_well_formed(s, rest, next, end),
        member_span(m) == (i, next),
        i < end,
        i < next <= s.len(),
        0 <= i,
        m is Variable ==> next <= end && s[next - 1] == 59 && forall|t: int| i <= t < next - 1 ==> s[t] != 59,
    ensures
        members_well_formed(s, seq![m] + rest, i, end),
{
    let ms = seq![m] + rest;
    assert forall|k: int| 0 <= k < ms.len() implies {
        let (a, b) = member_span(#[trigger] ms[k]);
        &&& i <= a < end
        &&& a < b <= s.len()
        &&& ms[k] is Variable ==> b <= end && s[b - 1] == 59 && forall|t: int| a <= t < b - 1 ==> s[t] != 59
    } by {
        if k > 0 {
            assert(ms[k] == rest[k - 1]);
        }
    }
    assert forall|x: int, y: int| 0 <= x < y < ms.len() implies member_span(#[trigger] ms[x]).1 <= member_span(#[trigger] ms[y]).0 by {
        assert(ms[y] == rest[y - 1]);
        if x > 0 {
            assert(ms[x] == rest[x - 1]);
        }
    }
}

// ---------------------------------------------------------------------------
// Every member keyword at depth zero begins a member
// ---------------------------------------------------------------------------

/// The elementary type keywords that begin a state-variable declaration.
pub open spec fn is_elementary_type(kw: Seq<u8>) -> bool {
    ||| kw == "uint256".spec_bytes() ||| kw == "uint128".spec_bytes() ||| kw == "uint64".spec_bytes() ||| kw == "uint8".spec_bytes() ||| kw == "uint".spec_bytes() ||| kw == "int256".spec_bytes() ||| kw == "int".spec_bytes() ||| kw == "address".spec_bytes() ||| kw == "bool".spec_bytes() ||| kw == "bytes32".spec_bytes() ||| kw == "bytes".spec_bytes() ||| kw == "mapping".spec_bytes()
}

/// Byte `q` lies inside the span of one of the members `ms`.
pub open spec fn in_member(ms: Seq<MemberShape>, q: int) -> bool {
    exists|k: int| 0 <= k < ms.len() && member_span(#[trigger] ms[k]).0 <= q < member_span(ms[k]).1
}

/// The brace depth of a contract body starting at `lo`, over the bytes of
/// `[lo, p)` that lie outside the members `ms`: `{` opens a level and `}`
/// closes one (never below zero).
pub open spec fn depth_outside(s: Seq<u8>, lo: int, p: int, ms: Seq<MemberShape>) -> nat
    decreases p - lo,
{
    if p <= lo {
        0
    } else {
        let d = depth_outside(s, lo, p - 1, ms);
        let b = s[p - 1];
        if in_member(ms, p - 1) {
            d
        } else if b == 123 {
            d + 1
        } else if b == 125 {
            if d == 0 {
                0
            } else {
                (d - 1) as nat
            }
        } else {
            d
        }
    }
}

proof fn lemma_member_keyword_bytes()
    ensures
        kw_function().len() == 8,
        kw_function()[0] == 102,
        "uint256".spec_bytes().len() > 0 && "uint256".spec_bytes()[0] != 102 && "uint256".spec_bytes()[0] != 123 && "uint256".spec_bytes()[0] != 125,
        "uint128".spec_bytes().len() > 0 && "uint128".spec_bytes()[0] != 102 && "uint128".spec_bytes()[0] != 123 && "uint128".spec_bytes()[0] != 125,
        "uint64".spec_bytes().len() > 0 && "uint64".spec_bytes()[0] != 102 && "uint64".spec_bytes()[0] != 123 && "uint64".spec_bytes()[0] != 125,
        "uint8".spec_bytes().len() > 0 && "uint8".spec_bytes()[0] != 102 && "uint8".spec_bytes()[0] != 123 && "uint8".spec_bytes()[0] != 125,
        "uint".spec_bytes().len() > 0 && "uint".spec_bytes()[0] != 102 && "uint".spec_bytes()[0] != 123 && "uint".spec_bytes()[0] != 125,
        "int256".spec_bytes().len() > 0 && "int256".spec_bytes()[0] != 102 && "int256".spec_bytes()[0] != 123 && "int256".spec_bytes()[0] != 125,
        "int".spec_bytes().len() > 0 && "int".spec_bytes()[0] != 102 && "int".spec_bytes()[0] != 123 && "int".spec_bytes()[0] != 125,
        "address".spec_bytes().len() > 0 && "address".spec_bytes()[0] != 102 && "address".spec_bytes()[0] != 123 && "address".spec_bytes()[0] != 125,
        "bool".spec_bytes().len() > 0 && "bool".spec_bytes()[0] != 102 && "bool".spec_bytes()[0] != 123 && "bool".spec_bytes()[0] != 125,
        "bytes32".spec_bytes().len() > 0 && "bytes32".spec_bytes()[0] != 102 && "bytes32".spec_bytes()[0] != 123 && "bytes32".spec_bytes()[0] != 125,
        "bytes".spec_bytes().len() > 0 && "bytes".spec_bytes()[0] != 102 && "bytes".spec_bytes()[0] != 123 && "bytes".spec_bytes()[0] != 125,
        "mapping".spec_bytes().len() > 0 && "mapping".spec_bytes()[0] != 102 && "mapping".spec_bytes()[0] != 123 && "mapping".spec_bytes()[0] != 125,
{
    reveal_strlit("function");
    assert(vstd::utf8::is_ascii_chars("function"@));
    vstd::string::is_ascii_spec_bytes("function");
    reveal_strlit("uint256");
    assert(vstd::utf8::is_ascii_chars("uint256"@));
    vstd::string::is_ascii_spec_bytes("uint256");
    reveal_strlit("uint128");
    assert(vstd::utf8::is_ascii_chars("uint128"@));
    vstd::string::is_ascii_spec_bytes("uint128");
    reveal_strlit("uint64");
    assert(vstd::utf8::is_ascii_chars("uint64"@));
    vstd::string::is_ascii_spec_bytes("uint64");
    reveal_strlit("uint8");
    assert(vstd::utf8::is_ascii_chars("uint8"@));
    vstd::string::is_ascii_spec_bytes("uint8");
    reveal_strlit("uint");
    assert(vstd::utf8::is_ascii_chars("uint"@));
    vstd::string::is_ascii_spec_bytes("uint");
    reveal_strlit("int256");
    assert(vstd::utf8::is_ascii_chars("int256"@));
    vstd::string::is_ascii_spec_bytes("int256");
    reveal_strlit("int");
    assert(vstd::utf8::is_ascii_chars("int"@));
    vstd::string::is_ascii_spec_bytes("int");
    reveal_strlit("address");
    assert(vstd::utf8::is_ascii_chars("address"@));
    vstd::string::is_ascii_spec_bytes("address");
    reveal_strlit("bool");
    assert(vstd::utf8::is_ascii_chars("bool"@));
    vstd::string::is_ascii_spec_bytes("bool");
    reveal_strlit("bytes32");
    assert(vstd::utf8::is_ascii_chars("bytes32"@));
    vstd::string::is_ascii_spec_bytes("bytes32");
    reveal_strlit("bytes");
    assert(vstd::utf8::is_ascii_chars("bytes"@));
    vstd::string::is_ascii_spec_bytes("bytes");
    reveal_strlit("mapping");
    assert(vstd::utf8::is_ascii_chars("mapping"@));
    vstd::string::is_ascii_spec_bytes("mapping");
}

/// A keyword at `i` begins with the byte at `i`.
proof fn lemma_keyword_first_byte(s: Seq<u8>, i: int, kw: Seq<u8>)
    requires
        keyword_at(s, i, kw),
        kw.len() > 0,
    ensures
        s[i] == kw[0],
{
    assert(s.subrange(i, i + kw.len())[0] == s[i]);
}

/// Over bytes that all lie inside members, the depth outside the members
/// does not change.
proof fn lemma_depth_outside_skips(s: Seq<u8>, lo: int, a: int, b: int, ms: Seq<MemberShape>)
    requires
        lo <= a <= b,
        forall|q: int| a <= q < b ==> in_member(ms, q),
    ensures
        depth_outside(s, lo, b, ms) == depth_outside(s, lo, a, ms),
    decreases b - a,
{
    if a < b {
        lemma_depth_outside_skips(s, lo, a, b - 1, ms);
        assert(in_member(ms, b - 1));
    }
}

/// What the scan from `i` finds: every keyword at depth zero outside the
/// members of `all` (which agree with the found members from `i` on)
/// begins a found member.
spec fn members_complete_from(s: Seq<u8>, lo: int, i: int, end: int, all: Seq<MemberShape>, found: Seq<MemberShape>) -> bool {
    forall|p: int|
        i <= p < end && !in_member(all, p) && #[trigger] depth_outside(s, lo, p, all) == 0 ==> {
            &&& keyword_at(s, p, kw_function()) ==> exists|k: int|
                0 <= k < found.len() && found[k] is Function && member_span(#[trigger] found[k]).0 == p
            &&& type_keyword_at(s, p) ==> exists|k: int|
                0 <= k < found.len() && found[k] is Variable && member_span(#[trigger] found[k]).0 == p
        }
}

proof fn lemma_scan_members_complete(s: Seq<u8>, lo: int, i: int, end: int, depth: nat, all: Seq<MemberShape>)
    requires
        0 <= lo <= i,
        end <= s.len(),
        depth == depth_outside(s, lo, i, all),
        scan_members(s, i, end, depth) matches Ok(found) ==> forall|q: int|
            i <= q ==> (in_member(all, q) <==> in_member(found, q)),
    ensures
        scan_members(s, i, end, depth) matches Ok(found) ==> members_complete_from(s, lo, i, end, all, found),
    decreases s.len() - i,
{
    lemma_member_keyword_bytes();
    if let Ok(found) = scan_members(s, i, end, depth) {
        if i >= end || i >= s.len() {
            assert(members_complete_from(s, lo, i, end, all, found));
        } else {
            let b = s[i];
            lemma_members_well_formed(s, i, end, depth);
            // No member of `all` covers `i` unless a found member starts there.
            if b == 123 || b == 125 || !(depth == 0 && (keyword_at(s, i, kw_function()) || type_keyword_at(s, i))) {
                let d2 = if b == 123 {
                    depth + 1
                } else if b == 125 {
                    if depth == 0 { 0 } else { (depth - 1) as nat }
                } else {
                    depth
                };
                assert(scan_members(s, i, end, depth) == scan_members(s, i + 1, end, d2));
                lemma_members_well_formed(s, i + 1, end, d2);
                assert(!in_member(found, i)) by {
                    if in_member(found, i) {
                        let k = choose|k: int| 0 <= k < found.len() && member_span(#[trigger] found[k]).0 <= i < member_span(found[k]).1;
                    }
                }
                assert(depth_outside(s, lo, i + 1, all) == d2);
                lemma_scan_members_complete(s, lo, i + 1, end, d2, all);
                assert forall|p: int|
                    i <= p < end && !in_member(all, p) && #[trigger] depth_outside(s, lo, p, all) == 0 implies {
                        &&& keyword_at(s, p, kw_function()) ==> exists|k: int|
                            0 <= k < found.len() && found[k] is Function && member_span(#[trigger] found[k]).0 == p
                        &&& type_keyword_at(s, p) ==> exists|k: int|
                            0 <= k < found.len() && found[k] is Variable && member_span(#[trigger] found[k]).0 == p
                    } by {
                    if p == i {
                        if keyword_at(s, p, kw_function()) {
                            lemma_keyword_first_byte(s, p, kw_function());
                        }
                        if type_keyword_at(s, p) {
                            lemma_type_keyword_first_byte(s, p);
                        }
                    }
                }
            } else if keyword_at(s, i, kw_function()) {
                lemma_function_shape_span(s, i);
                let f = function_shape(s, i)->Ok_0;
                let rest = scan_members(s, f.end, end, depth)->Ok_0;
                let m = MemberShape::Function(f);
                assert(found == seq![m] + rest);
                assert(found[0] == m);
                assert forall|q: int| i <= q < f.end implies in_member(all, q) by {
                    assert(member_span(found[0]).0 <= q < member_span(found[0]).1);
                }
                lemma_depth_outside_skips(s, lo, i, f.end, all);
                assert forall|q: int| f.end <= q implies (in_member(all, q) <==> in_member(rest, q)) by {
                    if in_member(found, q) {
                        let k = choose|k: int| 0 <= k < found.len() && member_span(#[trigger] found[k]).0 <= q < member_span(found[k]).1;
                        assert(k > 0);
                        assert(found[k] == rest[k - 1]);
                    }
                    if in_member(rest, q) {
                        let k = choose|k: int| 0 <= k < rest.len() && member_span(#[trigger] rest[k]).0 <= q < member_span(rest[k]).1;
                        assert(found[k + 1] == rest[k]);
                    }
                }
                lemma_scan_members_complete(s, lo, f.end, end, depth, all);
                lemma_members_prefix_complete(s, lo, i, f.end, end, all, m, rest);
            } else {
                lemma_find_byte_bounds(s, 59, i, end);
                let semi = find_byte(s, 59, i, end)->Some_0;
                let rest = scan_members(s, semi + 1, end, depth)->Ok_0;
                let m = MemberShape::Variable(i, semi + 1);
                assert(found == seq![m] + rest);
                assert(found[0] == m);
                assert forall|q: int| i <= q < semi + 1 implies in_member(all, q) by {
                    assert(member_span(found[0]).0 <= q < member_span(found[0]).1);
                }
                lemma_depth_outside_skips(s, lo, i, semi + 1, all);
                assert forall|q: int| semi + 1 <= q implies (in_member(all, q) <==> in_member(rest, q)) by {
                    if in_member(found, q) {
                        let k = choose|k: int| 0 <= k < found.len() && member_span(#[trigger] found[k]).0 <= q < member_span(found[k]).1;
                        assert(k > 0);
                        assert(found[k] == rest[k - 1]);
                    }
                    if in_member(rest, q) {
                        let k = choose|k: int| 0 <= k < rest.len() && member_span(#[trigger] rest[k]).0 <= q < member_span(rest[k]).1;
                        assert(found[k + 1] == rest[k]);
                    }
                }
                lemma_scan_members_complete(s, lo, semi + 1, end, depth, all);
                lemma_members_prefix_complete(s, lo, i, semi + 1, end, all, m, rest);
            }
        }
    }
}

/// A type keyword never begins with the byte of `function`, a brace.
proof fn lemma_type_keyword_first_byte(s: Seq<u8>, i: int)
    requires
        type_keyword_at(s, i),
    ensures
        s[i] != 102 && s[i] != 123 && s[i] != 125,
{
    lemma_member_keyword_bytes();
    if keyword_at(s, i, "uint256".spec_bytes()) { lemma_keyword_first_byte(s, i, "uint256".spec_bytes()); }
    if keyword_at(s, i, "uint128".spec_bytes()) { lemma_keyword_first_byte(s, i, "uint128".spec_bytes()); }
    if keyword_at(s, i, "uint64".spec_bytes()) { lemma_keyword_first_byte(s, i, "uint64".spec_bytes()); }
    if keyword_at(s, i, "uint8".spec_bytes()) { lemma_keyword_first_byte(s, i, "uint8".spec_bytes()); }
    if keyword_at(s, i, "uint".spec_bytes()) { lemma_keyword_first_byte(s, i, "uint".spec_bytes()); }
    if keyword_at(s, i, "int256".spec_bytes()) { lemma_keyword_first_byte(s, i, "int256".spec_bytes()); }
    if keyword_at(s, i, "int".spec_bytes()) { lemma_keyword_first_byte(s, i, "int".spec_bytes()); }
    if keyword_at(s, i, "address".spec_bytes()) { lemma_keyword_first_byte(s, i, "address".spec_bytes()); }
    if keyword_at(s, i, "bool".spec_bytes()) { lemma_keyword_first_byte(s, i, "bool".spec_bytes()); }
    if keyword_at(s, i, "bytes32".spec_bytes()) { lemma_keyword_first_byte(s, i, "bytes32".spec_bytes()); }
    if keyword_at(s, i, "bytes".spec_bytes()) { lemma_keyword_first_byte(s, i, "bytes".spec_bytes()); }
    if keyword_at(s, i, "mapping".spec_bytes()) { lemma_keyword_first_byte(s, i, "mapping".spec_bytes()); }
}

/// A member `m` spanning `[i, next)` followed by members complete from
/// `next` on gives members complete from `i` on.
proof fn lemma_members_prefix_complete(
    s: Seq<u8>,
    lo: int,
    i: int,
    next: int,
    end: int,
    all: Seq<MemberShape>,
    m: MemberShape,
    rest: Seq<MemberShape>,
)
    requires
        i < next,
        member_span(m) == (i, next),
        forall|q: int| i <= q < next ==> in_member(all, q),
        members_complete_from(s, lo, next, end, all, rest),
        keyword_at(s, i, kw_function()) ==> m is Function,
        type_keyword_at(s, i) ==> m is Variable,
    ensures
        members_complete_from(s, lo, i, end, all, seq![m] + rest),
{
    let found = seq![m] + rest;
    assert(found[0] == m);
    assert forall|p: int|
        i <= p < end && !in_member(all, p) && #[trigger] depth_outside(s, lo, p, all) == 0 implies {
            &&& keyword_at(s, p, kw_function()) ==> exists|k: int|
                0 <= k < found.len() && found[k] is Function && member_span(#[trigger] found[k]).0 == p
            &&& type_keyword_at(s, p) ==> exists|k: int|
                0 <= k < found.len() && found[k] is Variable && member_span(#[trigger] found[k]).0 == p
        } by {
        assert(p >= next);
        if keyword_at(s, p, kw_function()) {
            let k = choose|k: int| 0 <= k < rest.len() && rest[k] is Function && member_span(#[trigger] rest[k]).0 == p;
            assert(found[k + 1] == rest[k]);
        }
        if type_keyword_at(s, p) {
            let k = choose|k: int| 0 <= k < rest.len() && rest[k] is Variable && member_span(#[trigger] rest[k]).0 == p;
            assert(found[k + 1] == rest[k]);
        }
    }
}

/// Every member keyword of a contract body is found: with the body's brace
/// depth counted over the bytes outside the members found, each `function`
/// keyword and each elementary type keyword that lies at depth zero and
/// outside those members begins a member there, a function member for
/// `function` and a state-variable member for a type keyword.
pub proof fn lemma_members_complete(s: Seq<u8>, lo: int, end: int)
    requires
        0 <= lo,
        end <= s.len(),
    ensures
        scan_members(s, lo, end, 0) matches Ok(ms) ==> forall|p: int|
            lo <= p < end && !in_member(ms, p) && #[trigger] depth_outside(s, lo, p, ms) == 0 ==> {
                &&& keyword_at(s, p, "function".spec_bytes()) ==> exists|k: int|
                    0 <= k < ms.len() && ms[k] is Function && member_span(#[trigger] ms[k]).0 == p
                &&& forall|kw: Seq<u8>|
                    is_elementary_type(kw) && #[trigger] keyword_at(s, p, kw) ==> exists|k: int|
                        0 <= k < ms.len() && ms[k] is Variable && member_span(#[trigger] ms[k]).0 == p
            },
{
    if let Ok(ms) = scan_members(s, lo, end, 0) {
        assert(depth_outside(s, lo, lo, ms) == 0);
        lemma_scan_members_complete(s, lo, lo, end, 0, ms);
        assert forall|p: int|
            lo <= p < end && !in_member(ms, p) && #[trigger] depth_outside(s, lo, p, ms) == 0 implies {
                &&& keyword_at(s, p, "function".spec_bytes()) ==> exists|k: int|
                    0 <= k < ms.len() && ms[k] is Function && member_span(#[trigger] ms[k]).0 == p
                &&& forall|kw: Seq<u8>|
                    is_elementary_type(kw) && #[trigger] keyword_at(s, p, kw) ==> exists|k: int|
                        0 <= k < ms.len() && ms[k] is Variable && member_span(#[trigger] ms[k]).0 == p
            } by {
            assert forall|kw: Seq<u8>| is_elementary_type(kw) && #[trigger] keyword_at(s, p, kw) implies type_keyword_at(s, p) by {}
        }
    }
}

// ---------------------------------------------------------------------------
// Where spans end, and where the contracts are
// ---------------------------------------------------------------------------

/// A function's span ends with its body's closing `}`, or with the `;` of a
/// declaration without a body.
pub proof fn lemma_function_span_end(s: Seq<u8>, start: int)
    requires
        0 <= start,
    ensures
        function_shape(s, start) matches Ok(f) ==> s[f.end - 1] == 125 || (s[f.end - 1] == 59 && f.stmts.len()
            == 0),
{
    lemma_find_open_or_semi_bounds(s, start);
    if let Some(sig) = find_open_or_semi(s, start) {
        if s[sig] == 123 {
            lemma_matching_brace_after(s, sig);
        }
    }
}

/// A contract's span ends with the `}` that matches its body's `{`.
pub proof fn lemma_contract_span_end(s: Seq<u8>, start: int)
    requires
        0 <= start,
    ensures
        contract_shape(s, start) matches Ok(c) ==> s[c.end - 1] == 125,
{
    lemma_kw_contract();
    let after = start + 8;
    lemma_find_byte_bounds(s, 123, after, s.len() as int);
    if let Some(open) = find_byte(s, 123, after, s.len() as int) {
        lemma_matching_brace_after(s, open);
    }
}

proof fn lemma_scan_contracts_cover(s: Seq<u8>, cursor: int)
    requires
        valid_utf8(s),
        0 <= cursor,
        starts_char(s, cursor),
    ensures
        scan_contracts(s, cursor) matches Ok(cs) ==> forall|p: int|
            cursor <= p && #[trigger] keyword_at(s, p, kw_contract()) ==> exists|k: int|
                0 <= k < cs.len() && (#[trigger] cs[k]).start <= p < cs[k].end,
    decreases s.len() - cursor,
{
    lemma_kw_contract();
    lemma_scan_keyword_first(s, kw_contract(), cursor);
    lemma_find_keyword_bounds(s, kw_contract(), cursor);
    if let Ok(cs) = scan_contracts(s, cursor) {
        match find_keyword(s, kw_contract(), cursor) {
            None => {
                assert forall|p: int| cursor <= p && #[trigger] keyword_at(s, p, kw_contract()) implies exists|t: int|
                    0 <= t < cs.len() && (#[trigger] cs[t]).start <= p < cs[t].end by {
                    assert(scan_keyword(s, kw_contract(), cursor) is None);
                }
            },
            Some(k) => {
                lemma_contract_shape_span(s, k);
                lemma_contract_span_end(s, k);
                let c = contract_shape(s, k)->Ok_0;
                lemma_boundary_after_ascii(s, c.end - 1);
                lemma_starts_char_iff_boundary(s, c.end);
                lemma_scan_contracts_cover(s, c.end);
                let rest = scan_contracts(s, c.end)->Ok_0;
                assert(cs == seq![c] + rest);
                assert forall|p: int| cursor <= p && #[trigger] keyword_at(s, p, kw_contract()) implies exists|t: int|
                    0 <= t < cs.len() && (#[trigger] cs[t]).start <= p < cs[t].end by {
                    if p < k {
                        assert(!keyword_at(s, p, kw_contract()));
                    } else if p < c.end {
                        assert(cs[0] == c);
                    } else {
                        let t = choose|t: int| 0 <= t < rest.len() && (#[trigger] rest[t]).start <= p < rest[t].end;
                        assert(cs[t + 1] == rest[t]);
                    }
                }
            },
        }
    }
}

/// Each contract of a parsed source unit ends with a `}`, and every
/// `contract` keyword of the source lies inside the span of some contract.
pub proof fn lemma_parsed_contracts_cover_keywords(source: &str, root: ASTNode)
    requires
        parse_model(source) is Ok,
        unit_matches(root, parse_model(source)->Ok_0, source.spec_bytes().len() as int),
    ensures
        forall|k: int|
            0 <= k < root.children@.len() ==> source.spec_bytes()[(#[trigger] root.children@[k]).span.end - 1]
                == 125,
        forall|p: int|
            #[trigger] keyword_at(source.spec_bytes(), p, "contract".spec_bytes()) ==> exists|k: int|
                0 <= k < root.children@.len() && (#[trigger] root.children@[k]).span.start <= p
                    < root.children@[k].span.end,
{
    let s = source.spec_bytes();
    let cs = parse_model(source)->Ok_0;
    let ns = root.children@;
    encode_utf8_valid_utf8(source@);
    lemma_starts_char_iff_boundary(s, 0);
    is_char_boundary_start_end_of_seq(s);
    lemma_scan_contracts_cover(s, 0);
    lemma_scan_contracts_ordered(s, 0);
    assert forall|k: int| 0 <= k < ns.len() implies s[(#[trigger] ns[k]).span.end - 1] == 125 by {
        assert(contract_matches(ns[k], cs[k], 1 + contracts_size(cs.take(k))));
        assert(cs[k] == cs[k]);
    }
    assert forall|p: int| #[trigger] keyword_at(s, p, "contract".spec_bytes()) implies exists|k: int|
        0 <= k < ns.len() && (#[trigger] ns[k]).span.start <= p < ns[k].span.end by {
        assert(0 <= p);
        let k = choose|k: int| 0 <= k < cs.len() && (#[trigger] cs[k]).start <= p < cs[k].end;
        assert(contract_matches(ns[k], cs[k], 1 + contracts_size(cs.take(k))));
    }
}

// ---------------------------------------------------------------------------
// UTF-8 facts
// ---------------------------------------------------------------------------

/// In valid UTF-8, the position after an ASCII byte is a character boundary.
proof fn lemma_boundary_after_ascii(s: Seq<u8>, k: int)
    requires
        valid_utf8(s),
        0 <= k < s.len(),
        s[k] < 128,
    ensures
        is_char_boundary(s, k + 1),
{
    is_char_boundary_iff_is_leading_byte(s, k);
    is_char_boundary_start_end_of_seq(s);
    if k + 1 < s.len() {
        let t = s.subrange(k, s.len() as int);
        valid_utf8_split(s, k);
        assert(valid_utf8(t));
        reveal_with_fuel(is_char_boundary, 2);
        assert(vstd::utf8::pop_first_scalar(t) =~= s.subrange(k + 1, s.len() as int));
        assert(is_char_boundary(t, 1));
        is_char_boundary_iff_not_is_continuation_byte(t, 1);
        is_char_boundary_iff_not_is_continuation_byte(s, k + 1);
    }
}

// ---------------------------------------------------------------------------
// The parser
// ---------------------------------------------------------------------------

/// Deterministic Solidity source parser. Stateless; one engine can parse
/// any number of sources.
#[derive(Debug)]
pub struct ParserEngine;

impl Default for ParserEngine {
    fn default() -> (engine: Self)
        ensures
            engine == ParserEngine,
    {
        ParserEngine
    }
}

fn take_id(next_id: &mut usize) -> (id: usize)
    ensures
        id == *old(next_id),
        *final(next_id) == vstd::wrapping::usize_specs::wrapping_add(*old(next_id), 1),
{
    let id = *next_id;
    *next_id = next_id.wrapping_add(1);
    id
}

spec fn opt_int(o: Option<usize>) -> Option<int> {
    match o {
        Some(x) => Some(x as int),
        None => None,
    }
}

/// Parses one function: from the `function` keyword through its body's
/// closing brace (or `;` for a bodyless declaration). Each `;`-terminated
/// statement at body depth becomes an `Expression` child node.
fn parse_function(s: &[u8], start: usize, next_id: &mut usize, Ghost(g): Ghost<nat>) -> (res: Result<ASTNode, ParseError>)
    requires
        *old(next_id) == wrap_id(g),
    ensures
        match function_shape(s@, start as int) {
            Ok(f) => res matches Ok(node) && function_matches(node, f, g) && *final(next_id)
                == wrap_id(g + 1 + f.stmts.len()),
            Err(e) => res matches Err(err) && err@ == e && *final(next_id) == *old(next_id),
        },
{
    proof {
        lemma_find_open_or_semi_bounds(s@, start as int);
    }
    let sig_end = match find_open_or_semi_exec(s, start) {
        None => {
            return Err(syntax_error("unterminated function definition"));
        },
        Some(k) => k,
    };
    if s[sig_end] != 123 {
        proof {
            lemma_wrap_succ(g);
        }
        let id = take_id(next_id);
        return Ok(ASTNode::new(id, NodeKind::FunctionDefinition, SourceSpan::new(start, sig_end + 1)));
    }
    proof {
        lemma_matching_brace_after(s@, sig_end as int);
    }
    let close = match find_matching_brace(s, sig_end) {
        None => {
            return Err(syntax_error("unbalanced braces in function body"));
        },
        Some(c) => c,
    };
    proof {
        lemma_wrap_succ(g);
    }
    let id = take_id(next_id);
    let mut node = ASTNode::new(id, NodeKind::FunctionDefinition, SourceSpan::new(start, close + 1));
    let ghost total = scan_stmts(s@, sig_end + 1, close as int, 0, None);
    let ghost mut acc: Seq<(int, int)> = seq![];
    let mut depth: usize = 0;
    let mut stmt_start: Option<usize> = None;
    let mut i = sig_end + 1;
    proof {
        assert(acc + total =~= total);
    }
    while i < close
        invariant
            sig_end < i <= close < s@.len(),
            depth <= i,
            node.id == wrap_id(g),
            node.kind == NodeKind::FunctionDefinition,
            span_is(node.span, (start as int, close + 1)),
            node.children@.len() == acc.len(),
            forall|k: int|
                0 <= k < acc.len() ==> leaf_matches(
                    #[trigger] node.children@[k],
                    (g + 1 + k) as nat,
                    NodeKind::Expression,
                    acc[k],
                ),
            *next_id == wrap_id(g + 1 + acc.len()),
            stmt_start matches Some(st) ==> st < i,
            acc + scan_stmts(s@, i as int, close as int, depth as nat, opt_int(stmt_start)) == total,
        decreases close - i,
    {
        let b = s[i];
        if b == 123 {
            depth = depth + 1;
        } else if b == 125 {
            depth = depth.saturating_sub(1);
        } else if b == 59 && depth == 0 {
            if let Some(st) = stmt_start {
                proof {
                    lemma_wrap_succ(g + 1 + acc.len());
                }
                let eid = take_id(next_id);
                node.children.push(ASTNode::new(eid, NodeKind::Expression, SourceSpan::new(st, i + 1)));
                proof {
                    let rest = scan_stmts(s@, i + 1, close as int, depth as nat, None);
                    assert(acc + (seq![(st as int, i + 1)] + rest) =~= acc.push((st as int, i + 1)) + rest);
                    acc = acc.push((st as int, i + 1));
                }
            }
            stmt_start = None;
        } else if depth == 0 && stmt_start.is_none() && !is_ascii_ws_byte_exec(b) {
            stmt_start = Some(i);
        }
        i = i + 1;
    }
    proof {
        assert(acc =~= total);
    }
    Ok(node)
}

/// Scans a contract body for members at body depth: functions and
/// state-variable declarations, in source order, appended to `contract`.
fn parse_members(
    s: &[u8],
    body_start: usize,
    body_end: usize,
    next_id: &mut usize,
    contract: &mut ASTNode,
    Ghost(g): Ghost<nat>,
) -> (res: Result<(), ParseError>)
    requires
        body_end <= s@.len(),
        *old(next_id) == wrap_id(g),
    ensures
        final(contract).id == old(contract).id,
        final(contract).kind == old(contract).kind,
        final(contract).span == old(contract).span,
        match scan_members(s@, body_start as int, body_end as int, 0) {
            Ok(ms) => {
                &&& res is Ok
                &&& final(contract).children@ == old(contract).children@ + final(contract).children@.skip(
                    old(contract).children@.len() as int,
                )
                &&& members_match(final(contract).children@.skip(old(contract).children@.len() as int), ms, g)
                &&& *final(next_id) == wrap_id(g + members_size(ms))
            },
            Err(e) => res matches Err(err) && err@ == e,
        },
{
    let ghost total = scan_members(s@, body_start as int, body_end as int, 0);
    let ghost mut acc: Seq<MemberShape> = seq![];
    let ghost c0 = contract.children@;
    let ghost mut added: Seq<ASTNode> = seq![];
    let mut depth: usize = 0;
    let mut i = body_start;
    proof {
        assert(then_members(acc, total) == total) by {
            if let Ok(ms) = total {
                assert(acc + ms =~= ms);
            }
        }
        lemma_kw_function();
        assert(c0 + added =~= c0);
    }
    while i < body_end
        invariant
            body_start <= i,
            body_end <= s@.len(),
            depth <= i,
            contract.id == old(contract).id,
            contract.kind == old(contract).kind,
            contract.span == old(contract).span,
            c0 == old(contract).children@,
            contract.children@ == c0 + added,
            members_match(added, acc, g),
            *next_id == wrap_id(g + members_size(acc)),
            then_members(acc, scan_members(s@, i as int, body_end as int, depth as nat)) == total,
            kw_function().len() == 8,
            total == scan_members(s@, body_start as int, body_end as int, 0),
        decreases s@.len() - i,
    {
        let b = s[i];
        if b == 123 {
            depth = depth + 1;
            i = i + 1;
        } else if b == 125 {
            depth = depth.saturating_sub(1);
            i = i + 1;
        } else if depth == 0 && keyword_at_exec(s, i, "function".as_bytes()) {
            proof {
                lemma_function_shape_span(s@, i as int);
            }
            let function = match parse_function(s, i, next_id, Ghost(g + members_size(acc))) {
                Ok(f) => f,
                Err(e) => {
                    proof {
                        assert(scan_members(s@, i as int, body_end as int, depth as nat) == Err::<Seq<MemberShape>, ParseFailure>(e@));
                    }
                    return Err(e);
                },
            };
            let ghost f = function_shape(s@, i as int)->Ok_0;
            let ghost m = MemberShape::Function(f);
            let end = function.span.end;
            let ghost added2 = added.push(function);
            contract.children.push(function);
            proof {
                assert(contract.children@ =~= c0 + added2);
                added = added2;
                let rest = scan_members(s@, end as int, body_end as int, depth as nat);
                let acc2 = acc.push(m);
                assert(acc2.drop_last() =~= acc);
                assert forall|k: int| 0 <= k < acc2.len() implies member_matches(
                    #[trigger] added[k],
                    acc2[k],
                    g + members_size(acc2.take(k)),
                ) by {
                    if k < acc.len() {
                        assert(acc2.take(k) =~= acc.take(k));
                    } else {
                        assert(acc2.take(k) =~= acc);
                    }
                }
                match rest {
                    Ok(r) => {
                        assert(acc + (seq![m] + r) =~= acc2 + r);
                    },
                    Err(_) => {},
                }
                acc = acc2;
            }
            i = end;
        } else if depth == 0 && type_keyword_at_exec(s, i) {
            proof {
                lemma_find_byte_bounds(s@, 59, i as int, body_end as int);
            }
            let semi = match find_byte_exec(s, 59, i, body_end) {
                None => {
                    proof {
                        assert(scan_members(s@, i as int, body_end as int, depth as nat) == Err::<Seq<MemberShape>, ParseFailure>(ParseFailure::SyntaxError("unterminated state variable declaration"@)));
                    }
                    return Err(syntax_error("unterminated state variable declaration"));
                },
                Some(k) => k,
            };
            proof {
                lemma_wrap_succ(g + members_size(acc));
            }
            let vid = take_id(next_id);
            let var = ASTNode::new(vid, NodeKind::VariableDeclaration, SourceSpan::new(i, semi + 1));
            let ghost added2 = added.push(var);
            contract.children.push(var);
            proof {
                assert(contract.children@ =~= c0 + added2);
                added = added2;
                let m = MemberShape::Variable(i as int, semi + 1);
                let rest = scan_members(s@, semi + 1, body_end as int, depth as nat);
                let acc2 = acc.push(m);
                assert(acc2.drop_last() =~= acc);
                assert forall|k: int| 0 <= k < acc2.len() implies member_matches(
                    #[trigger] added[k],
                    acc2[k],
                    g + members_size(acc2.take(k)),
                ) by {
                    if k < acc.len() {
                        assert(acc2.take(k) =~= acc.take(k));
                    } else {
                        assert(acc2.take(k) =~= acc);
                    }
                }
                match rest {
                    Ok(r) => {
                        assert(acc + (seq![m] + r) =~= acc2 + r);
                    },
                    Err(_) => {},
                }
                acc = acc2;
            }
            i = semi + 1;
        } else {
            i = i + 1;
        }
    }
    proof {
        assert(acc + seq![] =~= acc);
        assert(contract.children@.skip(c0.len() as int) =~= added);
    }
    Ok(())
}

/// Parses the contract whose `contract` keyword starts at `start`.
fn parse_contract(source: &str, s: &[u8], start: usize, next_id: &mut usize, Ghost(g): Ghost<nat>) -> (res: Result<ASTNode, ParseError>)
    requires
        s@ == source.spec_bytes(),
        keyword_at(s@, start as int, kw_contract()),
        *old(next_id) == wrap_id(g),
    ensures
        match contract_shape(s@, start as int) {
            Ok(c) => res matches Ok(node) && contract_matches(node, c, g) && *final(next_id) == wrap_id(
                g + contract_size(c),
            ),
            Err(e) => res matches Err(err) && err@ == e,
        },
        contract_braces(s@, start as int) is None ==> *final(next_id) == *old(next_id),
{
    let kw = "contract".as_bytes();
    proof {
        lemma_kw_contract();
        assert(s@[start + 7] == s@.subrange(start as int, start + 8)[7]);
        encode_utf8_valid_utf8(source@);
        lemma_boundary_after_ascii(s@, start + 7);
    }
    assert(s@.len() == s.len());
    let after_kw = start + kw.len();
    let (_, rest) = source.split_at(after_kw);
    proof {
        encode_utf8_decode_utf8(rest@);
    }
    let name = leading_name_exec(rest);
    if name.as_str().is_empty() {
        proof {
            assert(name@.len() == 0);
        }
        return Err(syntax_error("expected contract name after 'contract' keyword"));
    }
    proof {
        assert(name@.len() != 0);
        lemma_find_byte_bounds(s@, 123, after_kw as int, s@.len() as int);
    }
    let open = match find_byte_exec(s, 123, after_kw, s.len()) {
        None => {
            return Err(named_syntax_error("expected '{' after contract ", &name));
        },
        Some(k) => k,
    };
    proof {
        lemma_matching_brace_after(s@, open as int);
    }
    let close = match find_matching_brace(s, open) {
        None => {
            return Err(named_syntax_error("unbalanced braces in contract ", &name));
        },
        Some(c) => c,
    };
    proof {
        lemma_wrap_succ(g);
    }
    let id = take_id(next_id);
    let mut node = ASTNode::new(id, NodeKind::ContractDefinition, SourceSpan::new(start, close + 1));
    match parse_members(s, open + 1, close, next_id, &mut node, Ghost(g + 1)) {
        Ok(()) => {},
        Err(e) => {
            return Err(e);
        },
    }
    proof {
        assert(node.children@.skip(0) =~= node.children@);
    }
    Ok(node)
}

impl ParserEngine {
    pub fn new() -> (engine: Self)
        ensures
            engine == ParserEngine,
    {
        ParserEngine
    }

    /// Parses Solidity-like source text into a normalized AST rooted at a
    /// `SourceUnit` node spanning the entire input.
    pub fn parse_solidity(&self, source: &str) -> (res: Result<ASTNode, ParseError>)
        ensures
            match parse_model(source) {
                Ok(cs) => res matches Ok(root) && unit_matches(root, cs, source.spec_bytes().len() as int),
                Err(e) => res matches Err(err) && err@ == e,
            },
    {
        if is_blank_exec(source) {
            return Err(ParseError::EmptySource);
        }
        let s = source.as_bytes();
        let kw = "contract".as_bytes();
        let mut next_id: usize = 0;
        proof {
            lemma_wrap_succ(0);
            assert(wrap_id(0) == 0) by (nonlinear_arith);
        }
        let root_id = take_id(&mut next_id);
        let mut root = ASTNode::new(root_id, NodeKind::SourceUnit, SourceSpan::new(0, s.len()));
        let ghost total = scan_contracts(s@, 0);
        let ghost mut acc: Seq<ContractShape> = seq![];
        let mut cursor: usize = 0;
        proof {
            assert(then_contracts(acc, total) == total) by {
                if let Ok(cs) = total {
                    assert(acc + cs =~= cs);
                }
            }
        }
        loop
            invariant_except_break
                cursor <= s@.len(),
                then_contracts(acc, scan_contracts(s@, cursor as int)) == total,
            invariant
                s@ == source.spec_bytes(),
                !is_blank(source@),
                total == scan_contracts(s@, 0),
                kw@ == kw_contract(),
                root.id == 0,
                root.kind == NodeKind::SourceUnit,
                span_is(root.span, (0, s@.len() as int)),
                root.children@.len() == acc.len(),
                forall|k: int|
                    0 <= k < acc.len() ==> contract_matches(
                        #[trigger] root.children@[k],
                        acc[k],
                        1 + contracts_size(acc.take(k)),
                    ),
                next_id == wrap_id(1 + contracts_size(acc)),
            ensures
                total == Ok::<Seq<ContractShape>, ParseFailure>(acc),
            decreases s@.len() - cursor,
        {
            proof {
                lemma_find_keyword_bounds(s@, kw@, cursor as int);
            }
            match find_keyword_exec(s, kw, cursor) {
                None => {
                    proof {
                        assert(acc + seq![] =~= acc);
                    }
                    break;
                },
                Some(k) => {
                    proof {
                        lemma_contract_shape_span(s@, k as int);
                    }
                    let contract = match parse_contract(source, s, k, &mut next_id, Ghost(1 + contracts_size(acc))) {
                        Ok(c) => c,
                        Err(e) => {
                            proof {
                                assert(scan_contracts(s@, cursor as int) == Err::<Seq<ContractShape>, ParseFailure>(e@));
                                assert(total == Err::<Seq<ContractShape>, ParseFailure>(e@));
                            }
                            return Err(e);
                        },
                    };
                    let ghost c = contract_shape(s@, k as int)->Ok_0;
                    let end = contract.span.end;
                    root.children.push(contract);
                    proof {
                        let rest = scan_contracts(s@, end as int);
                        let acc2 = acc.push(c);
                        assert(acc2.drop_last() =~= acc);
                        assert forall|j: int| 0 <= j < acc2.len() implies contract_matches(
                            #[trigger] root.children@[j],
                            acc2[j],
                            1 + contracts_size(acc2.take(j)),
                        ) by {
                            if j < acc.len() {
                                assert(acc2.take(j) =~= acc.take(j));
                            } else {
                                assert(acc2.take(j) =~= acc);
                            }
                        }
                        match rest {
                            Ok(r) => {
                                assert(acc + (seq![c] + r) =~= acc2 + r);
                            },
                            Err(_) => {},
                        }
                        acc = acc2;
                    }
                    cursor = end;
                },
            }
        }
        if root.children.len() == 0 {
            return Err(syntax_error("no contract definition found"));
        }
        Ok(root)
    }
}

} // verus!
