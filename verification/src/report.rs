//! The aggregated audit report: target, findings and run timestamp, with the
//! deterministic most-severe-first ordering of findings.

use vstd::prelude::*;
use vstd::string::StringSliceAdditionalSpecFns;
use vstd::utf8::encode_utf8;

use crate::clock::unix_seconds_now;
use crate::finding::{severity_rank, Vulnerability};

verus! {

// ---------------------------------------------------------------------------
// Byte-string order
// ---------------------------------------------------------------------------

/// Lexicographic order on byte strings (the order of `str` and `String`).
pub open spec fn bytes_lt(a: Seq<u8>, b: Seq<u8>) -> bool
    decreases a.len(),
{
    if a.len() == 0 {
        b.len() > 0
    } else if b.len() == 0 {
        false
    } else if a[0] != b[0] {
        a[0] < b[0]
    } else {
        bytes_lt(a.drop_first(), b.drop_first())
    }
}

/// No byte string sorts before itself.
pub proof fn lemma_bytes_lt_irreflexive(a: Seq<u8>)
    ensures
        !bytes_lt(a, a),
    decreases a.len(),
{
    if a.len() > 0 {
        lemma_bytes_lt_irreflexive(a.drop_first());
    }
}

/// Two byte strings never sort before each other.
pub proof fn lemma_bytes_lt_asymmetric(a: Seq<u8>, b: Seq<u8>)
    ensures
        bytes_lt(a, b) ==> !bytes_lt(b, a),
    decreases a.len(),
{
    if a.len() > 0 && b.len() > 0 && a[0] == b[0] {
        lemma_bytes_lt_asymmetric(a.drop_first(), b.drop_first());
    }
}

/// Lexicographic order on byte strings is transitive.
pub proof fn lemma_bytes_lt_transitive(a: Seq<u8>, b: Seq<u8>, c: Seq<u8>)
    ensures
        bytes_lt(a, b) && bytes_lt(b, c) ==> bytes_lt(a, c),
    decreases a.len(),
{
    if a.len() > 0 && b.len() > 0 && c.len() > 0 {
        lemma_bytes_lt_transitive(a.drop_first(), b.drop_first(), c.drop_first());
    }
}

/// Of two different byte strings, one sorts before the other.
pub proof fn lemma_bytes_lt_total(a: Seq<u8>, b: Seq<u8>)
    ensures
        bytes_lt(a, b) || bytes_lt(b, a) || a == b,
    decreases a.len(),
{
    if a.len() > 0 && b.len() > 0 && a[0] == b[0] {
        lemma_bytes_lt_total(a.drop_first(), b.drop_first());
        if a.drop_first() == b.drop_first() {
            assert(a =~= seq![a[0]] + a.drop_first());
            assert(b =~= seq![b[0]] + b.drop_first());
        }
    } else if a.len() == 0 && b.len() == 0 {
        assert(a =~= b);
    }
}

/// `bytes_lt` is lexicographic order: `a` sorts before `b` exactly when `a`
/// is a proper prefix of `b`, or at the first index where they differ the
/// byte of `a` is the smaller.
pub proof fn lemma_bytes_lt_is_lexicographic(a: Seq<u8>, b: Seq<u8>)
    ensures
        bytes_lt(a, b) <==> {
            ||| a.len() < b.len() && a =~= b.take(a.len() as int)
            ||| exists|k: int|
                0 <= k < a.len() && k < b.len() && a.take(k) =~= b.take(k) && #[trigger] a[k] < b[k]
        },
    decreases a.len(),
{
    if a.len() == 0 {
        assert(a =~= b.take(0));
    } else if b.len() == 0 {
    } else if a[0] != b[0] {
        if a[0] < b[0] {
            assert(a.take(0) =~= b.take(0));
        } else {
            assert forall|k: int| 0 <= k < a.len() && k < b.len() && a.take(k) =~= b.take(k) implies !(
            #[trigger] a[k] < b[k]) by {
                if k > 0 {
                    assert(a.take(k)[0] == b.take(k)[0]);
                }
            }
        }
        if a.len() < b.len() && a =~= b.take(a.len() as int) {
            assert(a[0] == b.take(a.len() as int)[0]);
        }
    } else {
        let (a2, b2) = (a.drop_first(), b.drop_first());
        lemma_bytes_lt_is_lexicographic(a2, b2);
        // The prefix alternative shifts by one.
        if a.len() < b.len() && a =~= b.take(a.len() as int) {
            assert(a2 =~= b2.take(a2.len() as int));
        }
        if a2.len() < b2.len() && a2 =~= b2.take(a2.len() as int) {
            assert(a =~= b.take(a.len() as int)) by {
                assert forall|t: int| 0 <= t < a.len() implies #[trigger] a[t] == b.take(a.len() as int)[t] by {
                    if t > 0 {
                        assert(a[t] == a2[t - 1]);
                        assert(b[t] == b2[t - 1]);
                    }
                }
            }
        }
        // The first-difference alternative shifts by one.
        if exists|k: int| 0 <= k < a.len() && k < b.len() && a.take(k) =~= b.take(k) && #[trigger] a[k] < b[k] {
            let k = choose|k: int| 0 <= k < a.len() && k < b.len() && a.take(k) =~= b.take(k) && #[trigger] a[k] < b[k];
            assert(k > 0);
            assert(a2.take(k - 1) =~= b2.take(k - 1)) by {
                assert forall|t: int| 0 <= t < k - 1 implies #[trigger] a2.take(k - 1)[t] == b2.take(k - 1)[t] by {
                    assert(a.take(k)[t + 1] == b.take(k)[t + 1]);
                }
            }
            assert(a2[k - 1] == a[k] && b2[k - 1] == b[k]);
        }
        if exists|k: int| 0 <= k < a2.len() && k < b2.len() && a2.take(k) =~= b2.take(k) && #[trigger] a2[k] < b2[k] {
            let k = choose|k: int| 0 <= k < a2.len() && k < b2.len() && a2.take(k) =~= b2.take(k) && #[trigger] a2[k] < b2[k];
            assert(a.take(k + 1) =~= b.take(k + 1)) by {
                assert forall|t: int| 0 <= t < k + 1 implies #[trigger] a.take(k + 1)[t] == b.take(k + 1)[t] by {
                    if t > 0 {
                        assert(a2.take(k)[t - 1] == b2.take(k)[t - 1]);
                    }
                }
            }
            assert(a[k + 1] == a2[k] && b[k + 1] == b2[k]);
        }
    }
}

/// How one byte string relates to another in lexicographic order.
pub enum Precedence {
    Before,
    Same,
    After,
}

/// Compares two byte strings lexicographically.
pub fn compare_bytes(a: &[u8], b: &[u8]) -> (r: Precedence)
    ensures
        r is Before <==> bytes_lt(a@, b@),
        r is Same <==> a@ == b@,
        r is After <==> bytes_lt(b@, a@),
{
    proof {
        lemma_bytes_lt_irreflexive(a@);
        lemma_bytes_lt_asymmetric(a@, b@);
        lemma_bytes_lt_total(a@, b@);
        assert(a@.skip(0) =~= a@);
        assert(b@.skip(0) =~= b@);
    }
    let mut i: usize = 0;
    while i < a.len() && i < b.len()
        invariant
            i <= a@.len(),
            i <= b@.len(),
            bytes_lt(a@, b@) == bytes_lt(a@.skip(i as int), b@.skip(i as int)),
            bytes_lt(b@, a@) == bytes_lt(b@.skip(i as int), a@.skip(i as int)),
            (a@ == b@) == (a@.skip(i as int) == b@.skip(i as int)),
        decreases a@.len() - i,
    {
        proof {
            assert(a@.skip(i as int).drop_first() =~= a@.skip(i + 1));
            assert(b@.skip(i as int).drop_first() =~= b@.skip(i + 1));
            assert(a@.skip(i as int)[0] == a@[i as int]);
            assert(b@.skip(i as int)[0] == b@[i as int]);
        }
        if a[i] < b[i] {
            proof {
                assert(a@.skip(i as int)[0] != b@.skip(i as int)[0]);
            }
            return Precedence::Before;
        }
        if a[i] > b[i] {
            proof {
                assert(a@.skip(i as int)[0] != b@.skip(i as int)[0]);
            }
            return Precedence::After;
        }
        proof {
            let x = a@.skip(i as int);
            let y = b@.skip(i as int);
            if x == y {
                assert(x.drop_first() == y.drop_first());
            }
            if x.drop_first() == y.drop_first() {
                assert(x =~= seq![x[0]] + x.drop_first());
                assert(y =~= seq![y[0]] + y.drop_first());
            }
        }
        i = i + 1;
    }
    proof {
        let x = a@.skip(i as int);
        let y = b@.skip(i as int);
        if x.len() == 0 && y.len() == 0 {
            assert(x =~= y);
        }
    }
    if a.len() == b.len() {
        Precedence::Same
    } else if i == a.len() {
        Precedence::Before
    } else {
        Precedence::After
    }
}

// ---------------------------------------------------------------------------
// The report order
// ---------------------------------------------------------------------------

/// The bytes of a string field.
pub open spec fn text_bytes(s: String) -> Seq<u8> {
    encode_utf8(s@)
}

/// `a` sorts strictly before `b`: most severe first, then by file path,
/// then by span start, then by detector id.
pub open spec fn key_lt(a: Vulnerability, b: Vulnerability) -> bool {
    let (ra, rb) = (severity_rank(a.severity), severity_rank(b.severity));
    let (fa, fb) = (text_bytes(a.file_path), text_bytes(b.file_path));
    let (ia, ib) = (text_bytes(a.id), text_bytes(b.id));
    ||| ra < rb
    ||| ra == rb && bytes_lt(fa, fb)
    ||| ra == rb && fa == fb && a.span.start < b.span.start
    ||| ra == rb && fa == fb && a.span.start == b.span.start && bytes_lt(ia, ib)
}

/// `a` and `b` tie in the report order.
pub open spec fn key_eq(a: Vulnerability, b: Vulnerability) -> bool {
    &&& severity_rank(a.severity) == severity_rank(b.severity)
    &&& text_bytes(a.file_path) == text_bytes(b.file_path)
    &&& a.span.start == b.span.start
    &&& text_bytes(a.id) == text_bytes(b.id)
}

/// Tied findings do not sort before one another.
pub proof fn lemma_key_lt_irreflexive(a: Vulnerability, b: Vulnerability)
    ensures
        key_eq(a, b) ==> !key_lt(a, b),
{
    lemma_bytes_lt_irreflexive(text_bytes(a.file_path));
    lemma_bytes_lt_irreflexive(text_bytes(a.id));
}

/// Two findings never sort before each other.
pub proof fn lemma_key_lt_asymmetric(a: Vulnerability, b: Vulnerability)
    ensures
        key_lt(a, b) ==> !key_lt(b, a),
{
    lemma_bytes_lt_asymmetric(text_bytes(a.file_path), text_bytes(b.file_path));
    lemma_bytes_lt_asymmetric(text_bytes(a.id), text_bytes(b.id));
    lemma_bytes_lt_irreflexive(text_bytes(a.file_path));
    lemma_bytes_lt_irreflexive(text_bytes(a.id));
}

/// The report order is transitive.
pub proof fn lemma_key_lt_transitive(a: Vulnerability, b: Vulnerability, c: Vulnerability)
    ensures
        key_lt(a, b) && key_lt(b, c) ==> key_lt(a, c),
{
    lemma_bytes_lt_transitive(text_bytes(a.file_path), text_bytes(b.file_path), text_bytes(c.file_path));
    lemma_bytes_lt_transitive(text_bytes(a.id), text_bytes(b.id), text_bytes(c.id));
}

/// Any two findings are ordered one way or the other, or tie.
pub proof fn lemma_key_total(a: Vulnerability, b: Vulnerability)
    ensures
        key_lt(a, b) || key_lt(b, a) || key_eq(a, b),
{
    lemma_bytes_lt_total(text_bytes(a.file_path), text_bytes(b.file_path));
    lemma_bytes_lt_total(text_bytes(a.id), text_bytes(b.id));
}

/// `v` sorts before `y` when it sorts before some `x` that does not sort after `y`.
proof fn lemma_key_lt_then_not_after(v: Vulnerability, x: Vulnerability, y: Vulnerability)
    requires
        key_lt(v, x),
        !key_lt(y, x),
    ensures
        key_lt(v, y),
{
    lemma_key_total(x, y);
    lemma_key_lt_transitive(v, x, y);
}

/// Whether `a` sorts strictly before `b`.
pub fn key_lt_exec(a: &Vulnerability, b: &Vulnerability) -> (r: bool)
    ensures
        r == key_lt(*a, *b),
{
    let ra = a.severity.rank();
    let rb = b.severity.rank();
    if ra != rb {
        return ra < rb;
    }
    match compare_bytes(a.file_path.as_str().as_bytes(), b.file_path.as_str().as_bytes()) {
        Precedence::Before => {
            return true;
        },
        Precedence::After => {
            proof {
                lemma_bytes_lt_asymmetric(text_bytes(b.file_path), text_bytes(a.file_path));
                lemma_bytes_lt_irreflexive(text_bytes(a.file_path));
            }
            return false;
        },
        Precedence::Same => {},
    }
    if a.span.start != b.span.start {
        return a.span.start < b.span.start;
    }
    match compare_bytes(a.id.as_str().as_bytes(), b.id.as_str().as_bytes()) {
        Precedence::Before => true,
        _ => {
            proof {
                lemma_bytes_lt_irreflexive(text_bytes(a.file_path));
            }
            false
        },
    }
}

/// No finding sorts strictly before an earlier one.
pub open spec fn sorted_by_key(vs: Seq<Vulnerability>) -> bool {
    forall|i: int, j: int| 0 <= i < j < vs.len() ==> !key_lt(#[trigger] vs[j], #[trigger] vs[i])
}

/// `vs` lists `orig[p[0]], orig[p[1]], ...` for a permutation `p` that keeps
/// tied findings in their input order.
pub open spec fn stable_reordering(orig: Seq<Vulnerability>, vs: Seq<Vulnerability>, p: Seq<int>) -> bool {
    &&& vs.len() == orig.len()
    &&& p.len() == vs.len()
    &&& forall|k: int| 0 <= k < p.len() ==> 0 <= #[trigger] p[k] < orig.len() && vs[k] == orig[p[k]]
    &&& forall|k1: int, k2: int| 0 <= k1 < k2 < p.len() ==> #[trigger] p[k1] != #[trigger] p[k2]
    &&& forall|j: int| 0 <= j < orig.len() ==> #[trigger] p.contains(j)
    &&& forall|k1: int, k2: int|
        0 <= k1 < k2 < p.len() && key_eq(#[trigger] vs[k1], #[trigger] vs[k2]) ==> p[k1] < p[k2]
}

/// `vs` is `orig` sorted by the report order, ties kept in input order.
pub open spec fn is_stable_sort(orig: Seq<Vulnerability>, vs: Seq<Vulnerability>) -> bool {
    &&& sorted_by_key(vs)
    &&& exists|p: Seq<int>| stable_reordering(orig, vs, p)
}

/// Index `x` of `orig` comes before index `y` in the report order: its
/// finding sorts strictly before, or ties and came first.
pub open spec fn precedes(orig: Seq<Vulnerability>, x: int, y: int) -> bool {
    key_lt(orig[x], orig[y]) || (key_eq(orig[x], orig[y]) && x < y)
}

proof fn lemma_precedes_asymmetric(orig: Seq<Vulnerability>, x: int, y: int)
    ensures
        !(precedes(orig, x, y) && precedes(orig, y, x)),
{
    lemma_key_lt_asymmetric(orig[x], orig[y]);
    lemma_key_lt_irreflexive(orig[x], orig[y]);
    lemma_key_lt_irreflexive(orig[y], orig[x]);
}

/// A stable reordering into report order lists the indices of `orig` in
/// `precedes` order.
proof fn lemma_reordering_follows_precedes(orig: Seq<Vulnerability>, vs: Seq<Vulnerability>, p: Seq<int>)
    requires
        sorted_by_key(vs),
        stable_reordering(orig, vs, p),
    ensures
        forall|k1: int, k2: int| 0 <= k1 < k2 < p.len() ==> precedes(orig, #[trigger] p[k1], #[trigger] p[k2]),
{
    assert forall|k1: int, k2: int| 0 <= k1 < k2 < p.len() implies precedes(orig, #[trigger] p[k1], #[trigger] p[k2]) by {
        assert(!key_lt(vs[k2], vs[k1]));
        lemma_key_total(vs[k1], vs[k2]);
        assert(vs[k1] == orig[p[k1]] && vs[k2] == orig[p[k2]]);
    }
}

/// Two permutations that both list the indices of `orig` in `precedes`
/// order agree up to position `k`.
proof fn lemma_same_order_prefix(orig: Seq<Vulnerability>, pa: Seq<int>, pb: Seq<int>, k: int)
    requires
        pa.len() == orig.len(),
        pb.len() == orig.len(),
        0 <= k < orig.len(),
        forall|t: int| 0 <= t < pa.len() ==> 0 <= #[trigger] pa[t] < orig.len(),
        forall|t: int| 0 <= t < pb.len() ==> 0 <= #[trigger] pb[t] < orig.len(),
        forall|k1: int, k2: int| 0 <= k1 < k2 < pb.len() ==> #[trigger] pb[k1] != #[trigger] pb[k2],
        forall|k1: int, k2: int| 0 <= k1 < k2 < pa.len() ==> #[trigger] pa[k1] != #[trigger] pa[k2],
        forall|j: int| 0 <= j < orig.len() ==> #[trigger] pa.contains(j),
        forall|j: int| 0 <= j < orig.len() ==> #[trigger] pb.contains(j),
        forall|k1: int, k2: int| 0 <= k1 < k2 < pa.len() ==> precedes(orig, #[trigger] pa[k1], #[trigger] pa[k2]),
        forall|k1: int, k2: int| 0 <= k1 < k2 < pb.len() ==> precedes(orig, #[trigger] pb[k1], #[trigger] pb[k2]),
    ensures
        forall|t: int| 0 <= t <= k ==> #[trigger] pa[t] == pb[t],
    decreases k,
{
    if k > 0 {
        lemma_same_order_prefix(orig, pa, pb, k - 1);
    }
    let x = pa[k];
    let y = pb[k];
    if x != y {
        assert(pa.contains(y));
        let m = choose|m: int| 0 <= m < pa.len() && pa[m] == y;
        if m < k {
            assert(pb[m] == pa[m]);
            assert(pb[m] != pb[k]);
        }
        assert(precedes(orig, pa[k], pa[m]));
        assert(pb.contains(x));
        let m2 = choose|m: int| 0 <= m < pb.len() && pb[m] == x;
        if m2 < k {
            assert(pa[m2] == pb[m2]);
            assert(pa[m2] != pa[k]);
        }
        assert(precedes(orig, pb[k], pb[m2]));
        lemma_precedes_asymmetric(orig, x, y);
    }
}

/// Sorting is deterministic: the report order with ties kept in input
/// order leaves exactly one possible arrangement of a list of findings.
pub proof fn lemma_stable_sort_unique(orig: Seq<Vulnerability>, a: Seq<Vulnerability>, b: Seq<Vulnerability>)
    requires
        is_stable_sort(orig, a),
        is_stable_sort(orig, b),
    ensures
        a == b,
{
    let pa = choose|p: Seq<int>| stable_reordering(orig, a, p);
    let pb = choose|p: Seq<int>| stable_reordering(orig, b, p);
    lemma_reordering_follows_precedes(orig, a, pa);
    lemma_reordering_follows_precedes(orig, b, pb);
    if orig.len() > 0 {
        lemma_same_order_prefix(orig, pa, pb, orig.len() - 1);
    }
    assert forall|k: int| 0 <= k < a.len() implies #[trigger] a[k] == b[k] by {
        assert(pa[k] == pb[k]);
    }
    assert(a =~= b);
}

/// Sorting depends on the findings' values only: lists whose findings have
/// the same values, one by one, sort to lists whose findings have the same
/// values, one by one.
pub proof fn lemma_stable_sort_unique_by_value(
    oa: Seq<Vulnerability>,
    ob: Seq<Vulnerability>,
    a: Seq<Vulnerability>,
    b: Seq<Vulnerability>,
)
    requires
        oa.len() == ob.len(),
        forall|k: int| 0 <= k < oa.len() ==> (#[trigger] oa[k])@ == ob[k]@,
        is_stable_sort(oa, a),
        is_stable_sort(ob, b),
    ensures
        a.len() == b.len(),
        forall|k: int| 0 <= k < a.len() ==> (#[trigger] a[k])@ == b[k]@,
{
    let pa = choose|p: Seq<int>| stable_reordering(oa, a, p);
    let pb = choose|p: Seq<int>| stable_reordering(ob, b, p);
    lemma_reordering_follows_precedes(oa, a, pa);
    lemma_reordering_follows_precedes(ob, b, pb);
    assert forall|k1: int, k2: int| 0 <= k1 < k2 < pb.len() implies precedes(oa, #[trigger] pb[k1], #[trigger] pb[k2]) by {
        let (x, y) = (pb[k1], pb[k2]);
        assert(precedes(ob, x, y));
        assert(oa[x]@ == ob[x]@ && oa[y]@ == ob[y]@);
    }
    if oa.len() > 0 {
        lemma_same_order_prefix(oa, pa, pb, oa.len() - 1);
    }
    assert forall|k: int| 0 <= k < a.len() implies (#[trigger] a[k])@ == b[k]@ by {
        assert(pa[k] == pb[k]);
        assert(oa[pa[k]]@ == ob[pb[k]]@);
    }
}

/// `vs` lists `orig[p[0]], orig[p[1]], ...` for a permutation `p` of the
/// indices of `orig`.
pub open spec fn is_reordering(orig: Seq<Vulnerability>, vs: Seq<Vulnerability>, p: Seq<int>) -> bool {
    &&& vs.len() == orig.len()
    &&& p.len() == vs.len()
    &&& forall|k: int| 0 <= k < p.len() ==> 0 <= #[trigger] p[k] < orig.len() && vs[k] == orig[p[k]]
    &&& forall|k1: int, k2: int| 0 <= k1 < k2 < p.len() ==> #[trigger] p[k1] != #[trigger] p[k2]
    &&& forall|j: int| 0 <= j < orig.len() ==> #[trigger] p.contains(j)
}

/// Where no two findings tie in the report order, the sorted report does not
/// depend on the order in which the findings were added.
pub proof fn lemma_sort_ignores_insertion_order(
    orig: Seq<Vulnerability>,
    shuffled: Seq<Vulnerability>,
    a: Seq<Vulnerability>,
    b: Seq<Vulnerability>,
)
    requires
        exists|q: Seq<int>| is_reordering(orig, shuffled, q),
        forall|i: int, j: int| 0 <= i < orig.len() && 0 <= j < orig.len() && i != j ==> !key_eq(#[trigger] orig[i], #[trigger] orig[j]),
        is_stable_sort(orig, a),
        is_stable_sort(shuffled, b),
    ensures
        a == b,
{
    let q = choose|q: Seq<int>| is_reordering(orig, shuffled, q);
    let pb = choose|p: Seq<int>| stable_reordering(shuffled, b, p);
    let r = Seq::new(pb.len(), |k: int| q[pb[k]]);
    assert forall|k: int| 0 <= k < r.len() implies 0 <= #[trigger] r[k] < orig.len() && b[k] == orig[r[k]] by {
        assert(0 <= pb[k] < shuffled.len());
        assert(shuffled[pb[k]] == orig[q[pb[k]]]);
    }
    assert forall|k1: int, k2: int| 0 <= k1 < k2 < r.len() implies #[trigger] r[k1] != #[trigger] r[k2] by {
        assert(pb[k1] != pb[k2]);
        if pb[k1] < pb[k2] {
            assert(q[pb[k1]] != q[pb[k2]]);
        } else {
            assert(q[pb[k2]] != q[pb[k1]]);
        }
    }
    assert forall|j: int| 0 <= j < orig.len() implies #[trigger] r.contains(j) by {
        assert(q.contains(j));
        let m = choose|m: int| 0 <= m < q.len() && q[m] == j;
        assert(pb.contains(m));
        let k = choose|k: int| 0 <= k < pb.len() && pb[k] == m;
        assert(r[k] == j);
    }
    assert forall|k1: int, k2: int|
        0 <= k1 < k2 < r.len() && key_eq(#[trigger] b[k1], #[trigger] b[k2]) implies r[k1] < r[k2] by {
        assert(r[k1] != r[k2]);
        assert(!key_eq(orig[r[k1]], orig[r[k2]]));
    }
    assert(stable_reordering(orig, b, r));
    lemma_stable_sort_unique(orig, a, b);
}

/// Sorting findings that are already in report order leaves them unchanged.
pub proof fn lemma_sorting_sorted_is_identity(vs: Seq<Vulnerability>, out: Seq<Vulnerability>)
    requires
        sorted_by_key(vs),
        is_stable_sort(vs, out),
    ensures
        out == vs,
{
    let id = Seq::new(vs.len(), |k: int| k);
    assert forall|j: int| 0 <= j < vs.len() implies #[trigger] id.contains(j) by {
        assert(id[j] == j);
    }
    assert(stable_reordering(vs, vs, id));
    lemma_stable_sort_unique(vs, vs, out);
}

/// The state of the insertion sort after `i` findings of `orig` were placed:
/// `sorted` holds them in report order, `p` says where each came from.
spec fn sort_progress(orig: Seq<Vulnerability>, sorted: Seq<Vulnerability>, p: Seq<int>, i: int) -> bool {
    &&& sorted.len() == i
    &&& p.len() == i
    &&& forall|k: int| 0 <= k < p.len() ==> 0 <= #[trigger] p[k] < i && sorted[k] == orig[p[k]]
    &&& forall|k1: int, k2: int| 0 <= k1 < k2 < p.len() ==> #[trigger] p[k1] != #[trigger] p[k2]
    &&& forall|t: int| 0 <= t < i ==> #[trigger] p.contains(t)
    &&& forall|k1: int, k2: int|
        0 <= k1 < k2 < p.len() && key_eq(#[trigger] sorted[k1], #[trigger] sorted[k2]) ==> p[k1] < p[k2]
    &&& sorted_by_key(sorted)
}

/// Inserting index `i` at position `j` of a permutation of `0..i` gives a
/// permutation of `0..i + 1` that lists the inserted finding at `j`.
proof fn lemma_insert_index(
    orig: Seq<Vulnerability>,
    old_sorted: Seq<Vulnerability>,
    old_p: Seq<int>,
    i: int,
    j: int,
)
    requires
        0 <= i < orig.len(),
        old_sorted.len() == i,
        old_p.len() == i,
        0 <= j <= i,
        forall|k: int| 0 <= k < old_p.len() ==> 0 <= #[trigger] old_p[k] < i && old_sorted[k] == orig[old_p[k]],
        forall|k1: int, k2: int| 0 <= k1 < k2 < old_p.len() ==> #[trigger] old_p[k1] != #[trigger] old_p[k2],
        forall|t: int| 0 <= t < i ==> #[trigger] old_p.contains(t),
    ensures
        ({
            let n = old_sorted.insert(j, orig[i]);
            let p = old_p.insert(j, i);
            &&& forall|k: int| 0 <= k < p.len() ==> 0 <= #[trigger] p[k] < i + 1 && n[k] == orig[p[k]]
            &&& forall|k1: int, k2: int| 0 <= k1 < k2 < p.len() ==> #[trigger] p[k1] != #[trigger] p[k2]
            &&& forall|t: int| 0 <= t < i + 1 ==> #[trigger] p.contains(t)
        }),
{
    let n = old_sorted.insert(j, orig[i]);
    let p = old_p.insert(j, i);
    assert forall|k: int| 0 <= k < p.len() implies 0 <= #[trigger] p[k] < i + 1 && n[k] == orig[p[k]] by {
        if k < j {
            assert(p[k] == old_p[k]);
        } else if k > j {
            assert(p[k] == old_p[k - 1]);
        }
    }
    assert forall|k1: int, k2: int| 0 <= k1 < k2 < p.len() implies #[trigger] p[k1] != #[trigger] p[k2] by {
        if k1 != j && k2 != j {
            let a = if k1 < j { k1 } else { k1 - 1 };
            let b = if k2 < j { k2 } else { k2 - 1 };
            assert(p[k1] == old_p[a] && p[k2] == old_p[b]);
        } else if k1 == j {
            assert(p[k2] == old_p[k2 - 1]);
        } else {
            assert(p[k1] == old_p[k1]);
        }
    }
    assert forall|t: int| 0 <= t < i + 1 implies #[trigger] p.contains(t) by {
        if t == i {
            assert(p[j] == t);
        } else {
            assert(old_p.contains(t));
            let k0 = choose|k: int| 0 <= k < old_p.len() && old_p[k] == t;
            if k0 < j {
                assert(p[k0] == t);
            } else {
                assert(p[k0 + 1] == t);
            }
        }
    }
}

/// Inserting `v` before the first finding that sorts after it keeps a list
/// in report order, and everything after `v` sorts strictly after it.
proof fn lemma_insert_sorted(old_sorted: Seq<Vulnerability>, v: Vulnerability, j: int)
    requires
        sorted_by_key(old_sorted),
        0 <= j <= old_sorted.len(),
        forall|t: int| 0 <= t < j ==> !key_lt(v, #[trigger] old_sorted[t]),
        j < old_sorted.len() ==> key_lt(v, old_sorted[j]),
    ensures
        sorted_by_key(old_sorted.insert(j, v)),
        forall|k: int| j < k < old_sorted.len() + 1 ==> key_lt(v, #[trigger] old_sorted.insert(j, v)[k]),
{
    let n = old_sorted.insert(j, v);
    assert forall|k: int| j < k < n.len() implies key_lt(v, #[trigger] n[k]) by {
        assert(n[k] == old_sorted[k - 1]);
        if k - 1 != j {
            assert(!key_lt(old_sorted[k - 1], old_sorted[j]));
            lemma_key_lt_then_not_after(v, old_sorted[j], old_sorted[k - 1]);
        }
    }
    assert forall|a: int, b: int| 0 <= a < b < n.len() implies !key_lt(#[trigger] n[b], #[trigger] n[a]) by {
        if b < j {
            assert(n[a] == old_sorted[a] && n[b] == old_sorted[b]);
        } else if b == j {
            assert(n[a] == old_sorted[a]);
        } else if a > j {
            assert(n[a] == old_sorted[a - 1] && n[b] == old_sorted[b - 1]);
        } else if a == j {
            assert(key_lt(v, n[b]));
            lemma_key_lt_asymmetric(v, n[b]);
        } else {
            assert(n[a] == old_sorted[a] && n[b] == old_sorted[b - 1]);
        }
    }
}

/// Inserting the newest index `i` at `j`, before only findings that sort
/// strictly after it, keeps ties in input order.
proof fn lemma_insert_stable(old_sorted: Seq<Vulnerability>, old_p: Seq<int>, v: Vulnerability, i: int, j: int)
    requires
        old_p.len() == old_sorted.len(),
        0 <= j <= old_sorted.len(),
        forall|k: int| 0 <= k < old_p.len() ==> #[trigger] old_p[k] < i,
        forall|k1: int, k2: int|
            0 <= k1 < k2 < old_p.len() && key_eq(#[trigger] old_sorted[k1], #[trigger] old_sorted[k2]) ==> old_p[k1] < old_p[k2],
        forall|k: int| j < k < old_sorted.len() + 1 ==> key_lt(v, #[trigger] old_sorted.insert(j, v)[k]),
    ensures
        forall|k1: int, k2: int|
            0 <= k1 < k2 < old_p.len() + 1 && key_eq(#[trigger] old_sorted.insert(j, v)[k1], #[trigger] old_sorted.insert(j, v)[k2])
                ==> old_p.insert(j, i)[k1] < old_p.insert(j, i)[k2],
{
    let n = old_sorted.insert(j, v);
    let p = old_p.insert(j, i);
    assert forall|k1: int, k2: int|
        0 <= k1 < k2 < p.len() && key_eq(#[trigger] n[k1], #[trigger] n[k2]) implies p[k1] < p[k2] by {
        if k1 == j {
            assert(key_lt(v, n[k2]));
            lemma_key_lt_irreflexive(n[k1], n[k2]);
        } else if k2 == j {
            assert(p[k1] == old_p[k1]);
        } else {
            let a = if k1 < j { k1 } else { k1 - 1 };
            let b = if k2 < j { k2 } else { k2 - 1 };
            assert(n[k1] == old_sorted[a] && n[k2] == old_sorted[b]);
            assert(p[k1] == old_p[a] && p[k2] == old_p[b]);
        }
    }
}

/// Inserting `orig[i]` before the first placed finding that sorts after it
/// keeps the sort's state.
proof fn lemma_insert_keeps_progress(orig: Seq<Vulnerability>, old_sorted: Seq<Vulnerability>, old_p: Seq<int>, i: int, j: int)
    requires
        0 <= i < orig.len(),
        sort_progress(orig, old_sorted, old_p, i),
        0 <= j <= old_sorted.len(),
        forall|t: int| 0 <= t < j ==> !key_lt(orig[i], #[trigger] old_sorted[t]),
        j < old_sorted.len() ==> key_lt(orig[i], old_sorted[j]),
    ensures
        sort_progress(orig, old_sorted.insert(j, orig[i]), old_p.insert(j, i), i + 1),
{
    lemma_insert_index(orig, old_sorted, old_p, i, j);
    lemma_insert_sorted(old_sorted, orig[i], j);
    lemma_insert_stable(old_sorted, old_p, orig[i], i, j);
}

/// Aggregated result of one audit run.
#[derive(Debug, Clone, PartialEq, Eq)]
pub struct AuditReport {
    /// Project root or file that was audited.
    pub target_path: String,
    pub vulnerabilities: Vec<Vulnerability>,
    /// Seconds since the Unix epoch at run start.
    pub timestamp: u64,
}

impl AuditReport {
    /// Creates an empty report with an explicit timestamp (deterministic;
    /// preferred in tests and reproducible pipelines).
    pub fn new(target_path: &str, timestamp: u64) -> (report: Self)
        ensures
            report.target_path@ == target_path@,
            report.vulnerabilities@.len() == 0,
            report.timestamp == timestamp,
    {
        AuditReport { target_path: String::from_str(target_path), vulnerabilities: Vec::new(), timestamp }
    }

    /// Creates an empty report stamped with the current wall-clock time.
    pub fn started_now(target_path: &str) -> (report: Self)
        ensures
            report.target_path@ == target_path@,
            report.vulnerabilities@.len() == 0,
    {
        let timestamp = unix_seconds_now();
        Self::new(target_path, timestamp)
    }

    pub fn add_vulnerability(&mut self, vulnerability: Vulnerability)
        ensures
            final(self).target_path == old(self).target_path,
            final(self).timestamp == old(self).timestamp,
            final(self).vulnerabilities@ == old(self).vulnerabilities@.push(vulnerability),
    {
        self.vulnerabilities.push(vulnerability);
    }

    /// Sorts findings most-severe-first; ties keep a stable, reproducible
    /// order by file path, then span start, then detector id.
    pub fn sort_by_severity(&mut self)
        ensures
            final(self).target_path == old(self).target_path,
            final(self).timestamp == old(self).timestamp,
            is_stable_sort(old(self).vulnerabilities@, final(self).vulnerabilities@),
    {
        let ghost orig = self.vulnerabilities@;
        let mut pending: Vec<Vulnerability> = Vec::new();
        std::mem::swap(&mut pending, &mut self.vulnerabilities);
        let mut sorted: Vec<Vulnerability> = Vec::new();
        let ghost mut p: Seq<int> = seq![];
        let ghost mut i: int = 0;
        proof {
            assert(orig.skip(0) =~= orig);
        }
        while pending.len() > 0
            invariant
                0 <= i <= orig.len(),
                pending@ == orig.skip(i),
                sort_progress(orig, sorted@, p, i),
            decreases pending@.len(),
        {
            let v = pending.remove(0);
            proof {
                assert(v == orig[i]);
                assert(pending@ =~= orig.skip(i + 1));
            }
            let mut j: usize = 0;
            while j < sorted.len() && !key_lt_exec(&v, &sorted[j])
                invariant
                    sorted@.len() == i,
                    0 <= j <= sorted@.len(),
                    forall|t: int| 0 <= t < j ==> !key_lt(v, #[trigger] sorted@[t]),
                decreases sorted@.len() - j,
            {
                j = j + 1;
            }
            let ghost old_sorted = sorted@;
            let ghost old_p = p;
            sorted.insert(j, v);
            proof {
                lemma_insert_keeps_progress(orig, old_sorted, old_p, i, j as int);
                p = old_p.insert(j as int, i);
                i = i + 1;
            }
        }
        proof {
            assert(stable_reordering(orig, sorted@, p));
        }
        self.vulnerabilities = sorted;
    }
}

} // verus!
