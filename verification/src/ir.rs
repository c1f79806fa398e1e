//! Normalized intermediate representation: byte spans, node kinds and the
//! tree of nodes that the parser produces and the detectors walk.

use vstd::prelude::*;

verus! {

/// Byte-offset range of a node in its source file (half-open: `[start, end)`).
#[derive(Debug, Clone, Copy, PartialEq, Eq, Structural)]
pub struct SourceSpan {
    pub start: usize,
    pub end: usize,
}

impl SourceSpan {
    /// Length in bytes: `end - start`, or 0 when `end < start`.
    pub open spec fn spec_len(self) -> nat {
        if self.end >= self.start {
            (self.end - self.start) as nat
        } else {
            0
        }
    }

    pub fn new(start: usize, end: usize) -> (span: Self)
        ensures
            span.start == start,
            span.end == end,
    {
        SourceSpan { start, end }
    }

    /// Length of the spanned region in bytes.
    pub fn len(&self) -> (n: usize)
        ensures
            n == self.spec_len(),
    {
        self.end.saturating_sub(self.start)
    }

    pub fn is_empty(&self) -> (b: bool)
        ensures
            b == (self.spec_len() == 0),
    {
        self.len() == 0
    }
}

/// Fundamental smart contract constructs, unified across source languages.
#[derive(Debug, Clone, Copy, PartialEq, Eq, Structural)]
pub enum NodeKind {
    SourceUnit,
    ContractDefinition,
    FunctionDefinition,
    VariableDeclaration,
    Statement,
    Expression,
}

/// A node in the normalized AST: a unique id, its construct kind, its
/// source location, and its child nodes in source order.
#[derive(Debug, PartialEq, Eq)]
pub struct ASTNode {
    pub id: usize,
    pub kind: NodeKind,
    pub span: SourceSpan,
    pub children: Vec<ASTNode>,
}

/// The nodes of the subtree rooted at `n`, in depth-first pre-order.
pub open spec fn preorder(n: ASTNode) -> Seq<ASTNode>
    decreases n, 1nat,
{
    seq![n] + preorder_seq(n.children@)
}

/// The concatenated pre-order listings of a sequence of sibling subtrees.
pub open spec fn preorder_seq(cs: Seq<ASTNode>) -> Seq<ASTNode>
    decreases cs, 0nat,
{
    if cs.len() == 0 {
        seq![]
    } else {
        preorder_seq(cs.drop_last()) + preorder(cs.last())
    }
}

/// The sum of the subtree sizes of the siblings `cs`.
pub open spec fn sizes_sum(cs: Seq<ASTNode>) -> nat
    decreases cs.len(),
{
    if cs.len() == 0 {
        0
    } else {
        sizes_sum(cs.drop_last()) + preorder(cs.last()).len()
    }
}

/// A node's subtree holds the node itself and its children's subtrees:
/// the listing of siblings is as long as their sizes added up.
pub proof fn lemma_preorder_seq_len(cs: Seq<ASTNode>)
    ensures
        preorder_seq(cs).len() == sizes_sum(cs),
    decreases cs.len(),
{
    if cs.len() > 0 {
        lemma_preorder_seq_len(cs.drop_last());
    }
}

/// Listing a prefix of the siblings lists no more nodes than listing them all.
pub proof fn lemma_preorder_seq_prefix(cs: Seq<ASTNode>, k: int)
    requires
        0 <= k <= cs.len(),
    ensures
        preorder_seq(cs.take(k)).len() <= preorder_seq(cs).len(),
    decreases cs.len(),
{
    if k < cs.len() {
        assert(cs.drop_last().take(k) =~= cs.take(k));
        lemma_preorder_seq_prefix(cs.drop_last(), k);
    } else {
        assert(cs.take(k) =~= cs);
    }
}

/// Every node listed for a sibling sequence is listed for one of the siblings.
pub proof fn lemma_preorder_seq_member(cs: Seq<ASTNode>, x: ASTNode)
    requires
        preorder_seq(cs).contains(x),
    ensures
        exists|i: int| 0 <= i < cs.len() && #[trigger] preorder(cs[i]).contains(x),
    decreases cs.len(),
{
    if cs.len() > 0 {
        let a = preorder_seq(cs.drop_last());
        let b = preorder(cs.last());
        let j = choose|j: int| 0 <= j < (a + b).len() && (a + b)[j] == x;
        if j < a.len() {
            assert(a[j] == x);
            lemma_preorder_seq_member(cs.drop_last(), x);
            let i = choose|i: int| 0 <= i < cs.drop_last().len() && #[trigger] preorder(cs.drop_last()[i]).contains(x);
            assert(cs[i] == cs.drop_last()[i]);
        } else {
            assert(b[j - a.len()] == x);
            assert(preorder(cs[cs.len() - 1]).contains(x));
        }
    }
}

/// `a` is a node-for-node copy of `b`: same id, kind and span, and children
/// that are copies of `b`'s children, in order.
pub open spec fn is_copy_of(a: ASTNode, b: ASTNode) -> bool
    decreases b, 1nat,
{
    &&& a.id == b.id
    &&& a.kind == b.kind
    &&& a.span == b.span
    &&& are_copies_of(a.children@, b.children@)
}

/// `xs` and `ys` have the same length and each `xs[k]` copies `ys[k]`.
pub open spec fn are_copies_of(xs: Seq<ASTNode>, ys: Seq<ASTNode>) -> bool
    decreases ys, 0nat,
{
    &&& xs.len() == ys.len()
    &&& ys.len() > 0 ==> are_copies_of(xs.drop_last(), ys.drop_last()) && is_copy_of(xs.last(), ys.last())
}

/// A copy of the subtree rooted at `n`.
fn copy_tree(n: &ASTNode) -> (copy: ASTNode)
    ensures
        is_copy_of(copy, *n),
    decreases *n,
{
    let ghost cs = n.children@;
    let mut children: Vec<ASTNode> = Vec::new();
    let mut i: usize = 0;
    proof {
        assert(cs.take(0) =~= Seq::<ASTNode>::empty());
    }
    while i < n.children.len()
        invariant
            cs == n.children@,
            0 <= i <= cs.len(),
            are_copies_of(children@, cs.take(i as int)),
        decreases cs.len() - i,
    {
        let ghost before = children@;
        let child = copy_tree(&n.children[i]);
        children.push(child);
        proof {
            assert(cs.take(i + 1).drop_last() =~= cs.take(i as int));
            assert(cs.take(i + 1).last() == cs[i as int]);
            assert(children@.drop_last() =~= before);
        }
        i = i + 1;
    }
    proof {
        assert(cs.take(i as int) =~= cs);
    }
    ASTNode { id: n.id, kind: n.kind, span: n.span, children }
}

impl Clone for ASTNode {
    /// A node-for-node copy of the subtree.
    fn clone(&self) -> (copy: Self)
        ensures
            is_copy_of(copy, *self),
    {
        copy_tree(self)
    }
}

impl ASTNode {
    /// Creates a leaf node (no children).
    pub fn new(id: usize, kind: NodeKind, span: SourceSpan) -> (node: Self)
        ensures
            node.id == id,
            node.kind == kind,
            node.span == span,
            node.children@.len() == 0,
    {
        ASTNode { id, kind, span, children: Vec::new() }
    }

    /// Builder-style helper to attach a child node.
    #[must_use]
    pub fn with_child(self, child: ASTNode) -> (node: Self)
        ensures
            node.id == self.id,
            node.kind == self.kind,
            node.span == self.span,
            node.children@ == self.children@.push(child),
    {
        let mut node = self;
        node.children.push(child);
        node
    }

    /// Total number of nodes in this subtree, including `self`.
    pub fn subtree_size(&self) -> (n: usize)
        requires
            preorder(*self).len() <= usize::MAX,
        ensures
            n == preorder(*self).len(),
            n == 1 + sizes_sum(self.children@),
        decreases *self,
    {
        proof {
            lemma_preorder_seq_len(self.children@);
        }
        let ghost cs = self.children@;
        let mut total: usize = 1;
        let mut i: usize = 0;
        while i < self.children.len()
            invariant
                cs == self.children@,
                0 <= i <= cs.len(),
                preorder(*self).len() <= usize::MAX,
                total == 1 + preorder_seq(cs.take(i as int)).len(),
            decreases cs.len() - i,
        {
            proof {
                assert(cs.take(i + 1).drop_last() =~= cs.take(i as int));
                assert(cs.take(i + 1).last() == cs[i as int]);
                lemma_preorder_seq_prefix(cs, i + 1);
            }
            let child_size = self.children[i].subtree_size();
            total = total + child_size;
            i = i + 1;
        }
        proof {
            assert(cs.take(i as int) =~= cs);
        }
        total
    }

    /// The nodes of the subtree rooted at `self`, in depth-first pre-order:
    /// `self` first, then the listing of each child in stored order.
    pub fn preorder_nodes(&self) -> (nodes: Vec<&ASTNode>)
        ensures
            nodes@.len() == preorder(*self).len(),
            forall|k: int| 0 <= k < nodes@.len() ==> *(#[trigger] nodes@[k]) == preorder(*self)[k],
    {
        let mut nodes: Vec<&ASTNode> = Vec::new();
        self.push_preorder(&mut nodes);
        proof {
            assert forall|k: int| 0 <= k < nodes@.len() implies *(#[trigger] nodes@[k]) == preorder(*self)[k] by {
                assert(nodes@[0 + k] == nodes@[k]);
            }
        }
        nodes
    }

    /// Appends the pre-order listing of the subtree rooted at `self`.
    fn push_preorder<'a>(&'a self, out: &mut Vec<&'a ASTNode>)
        ensures
            final(out)@.len() == old(out)@.len() + preorder(*self).len(),
            forall|k: int| 0 <= k < old(out)@.len() ==> #[trigger] final(out)@[k] == old(out)@[k],
            forall|k: int|
                0 <= k < preorder(*self).len() ==> *(#[trigger] final(out)@[old(out)@.len() + k]) == preorder(*self)[k],
        decreases *self,
    {
        let ghost base = out@;
        let ghost cs = self.children@;
        out.push(self);
        let mut i: usize = 0;
        proof {
            assert(cs.take(0) =~= Seq::<ASTNode>::empty());
        }
        while i < self.children.len()
            invariant
                cs == self.children@,
                0 <= i <= cs.len(),
                out@.len() == base.len() + 1 + preorder_seq(cs.take(i as int)).len(),
                forall|k: int| 0 <= k < base.len() ==> #[trigger] out@[k] == base[k],
                *out@[base.len() as int] == *self,
                forall|k: int|
                    0 <= k < preorder_seq(cs.take(i as int)).len() ==> *(#[trigger] out@[base.len() + 1 + k])
                        == preorder_seq(cs.take(i as int))[k],
            decreases cs.len() - i,
        {
            let ghost before = out@;
            self.children[i].push_preorder(out);
            proof {
                let a = preorder_seq(cs.take(i as int));
                let b = preorder(cs[i as int]);
                assert(cs.take(i + 1).drop_last() =~= cs.take(i as int));
                assert(cs.take(i + 1).last() == cs[i as int]);
                assert(preorder_seq(cs.take(i + 1)) == a + b);
                assert forall|k: int| 0 <= k < (a + b).len() implies *(#[trigger] out@[base.len() + 1 + k]) == (a + b)[k] by {
                    if k < a.len() {
                        assert(out@[base.len() + 1 + k] == before[base.len() + 1 + k]);
                    } else {
                        assert(out@[base.len() + 1 + k] == out@[before.len() + (k - a.len())]);
                    }
                }
            }
            i = i + 1;
        }
        proof {
            assert(cs.take(i as int) =~= cs);
            let p = preorder(*self);
            assert forall|k: int| 0 <= k < p.len() implies *(#[trigger] out@[base.len() + k]) == p[k] by {
                if k > 0 {
                    assert(out@[base.len() + k] == out@[base.len() + 1 + (k - 1)]);
                }
            }
        }
    }

    /// Depth-first pre-order traversal over the subtree rooted at `self`:
    /// `visit` is called once for each entry of `preorder_nodes`, in order.
    pub fn walk<F: FnMut(&ASTNode)>(&self, visit: &mut F)
        requires
            forall|n: &ASTNode| #[trigger] call_requires(*old(visit), (n,)),
        ensures
            *final(visit) == *old(visit),
            forall|k: int|
                0 <= k < preorder(*self).len() ==> call_ensures(*old(visit), (&#[trigger] preorder(*self)[k],), ()),
    {
        let nodes = self.preorder_nodes();
        let mut i: usize = 0;
        while i < nodes.len()
            invariant
                0 <= i <= nodes@.len(),
                nodes@.len() == preorder(*self).len(),
                forall|k: int| 0 <= k < nodes@.len() ==> *(#[trigger] nodes@[k]) == preorder(*self)[k],
                *visit == *old(visit),
                forall|n: &ASTNode| #[trigger] call_requires(*visit, (n,)),
                forall|k: int| 0 <= k < i ==> call_ensures(*visit, (#[trigger] nodes@[k],), ()),
            decreases nodes@.len() - i,
        {
            visit(nodes[i]);
            i = i + 1;
        }
        proof {
            assert forall|k: int| 0 <= k < preorder(*self).len() implies call_ensures(
                *old(visit),
                (&#[trigger] preorder(*self)[k],),
                (),
            ) by {
                assert(*nodes@[k] == preorder(*self)[k]);
            }
        }
    }
}

} // verus!
