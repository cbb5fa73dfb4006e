//! Walks and connectivity in a finite undirected graph, as specifications.
//!
//! The vertices are `0..n`; the edges are given by a predicate. Both the
//! transitivity check of a coupling and the spanning forest of a mesh are
//! stated over these definitions.

use vstd::prelude::*;

verus! {

/// Step `i` of the walk `p` follows an edge.
pub open spec fn linked(edge: spec_fn(int, int) -> bool, p: Seq<int>, i: int) -> bool {
    edge(p[i], p[i + 1])
}

/// `p` is a walk of at least one vertex in the graph on `0..n`.
pub open spec fn is_walk(edge: spec_fn(int, int) -> bool, n: int, p: Seq<int>) -> bool {
    &&& p.len() >= 1
    &&& forall|i: int| 0 <= i < p.len() ==> 0 <= #[trigger] p[i] < n
    &&& forall|i: int| 0 <= i < p.len() - 1 ==> #[trigger] linked(edge, p, i)
}

/// Some walk leads from `a` to `b`.
pub open spec fn connected(edge: spec_fn(int, int) -> bool, n: int, a: int, b: int) -> bool {
    exists|p: Seq<int>| #[trigger] is_walk(edge, n, p) && p[0] == a && p.last() == b
}

/// The edge predicate is symmetric.
pub open spec fn symmetric(edge: spec_fn(int, int) -> bool) -> bool {
    forall|x: int, y: int| #[trigger] edge(x, y) ==> edge(y, x)
}

/// Every vertex reaches itself.
pub proof fn lemma_connected_refl(edge: spec_fn(int, int) -> bool, n: int, a: int)
    requires
        0 <= a < n,
    ensures
        connected(edge, n, a, a),
{
    let p = seq![a];
    assert(is_walk(edge, n, p));
}

/// An edge is a walk.
pub proof fn lemma_connected_edge(edge: spec_fn(int, int) -> bool, n: int, a: int, b: int)
    requires
        0 <= a < n,
        0 <= b < n,
        edge(a, b),
    ensures
        connected(edge, n, a, b),
{
    let p = seq![a, b];
    assert(linked(edge, p, 0));
    assert(is_walk(edge, n, p));
}

/// In an undirected graph a walk can be taken backwards.
pub proof fn lemma_connected_sym(edge: spec_fn(int, int) -> bool, n: int, a: int, b: int)
    requires
        symmetric(edge),
        connected(edge, n, a, b),
    ensures
        connected(edge, n, b, a),
{
    let p = choose|p: Seq<int>| #[trigger] is_walk(edge, n, p) && p[0] == a && p.last() == b;
    let q = p.reverse();
    assert forall|i: int| 0 <= i < q.len() - 1 implies #[trigger] linked(edge, q, i) by {
        let j = p.len() - 2 - i;
        assert(linked(edge, p, j));
        assert(q[i] == p[j + 1]);
        assert(q[i + 1] == p[j]);
    }
    assert forall|i: int| 0 <= i < q.len() implies 0 <= #[trigger] q[i] < n by {
        assert(q[i] == p[p.len() - 1 - i]);
    }
    assert(is_walk(edge, n, q));
}

/// Walks compose.
pub proof fn lemma_connected_trans(
    edge: spec_fn(int, int) -> bool,
    n: int,
    a: int,
    b: int,
    c: int,
)
    requires
        connected(edge, n, a, b),
        connected(edge, n, b, c),
    ensures
        connected(edge, n, a, c),
{
    let p = choose|p: Seq<int>| #[trigger] is_walk(edge, n, p) && p[0] == a && p.last() == b;
    let q = choose|q: Seq<int>| #[trigger] is_walk(edge, n, q) && q[0] == b && q.last() == c;
    let r = p + q.drop_first();
    assert forall|i: int| 0 <= i < r.len() implies 0 <= #[trigger] r[i] < n by {
        if i >= p.len() {
            assert(r[i] == q[i - p.len() + 1]);
        }
    }
    assert forall|i: int| 0 <= i < r.len() - 1 implies #[trigger] linked(edge, r, i) by {
        if i < p.len() - 1 {
            assert(linked(edge, p, i));
        } else {
            let j = i - p.len() + 1;
            assert(linked(edge, q, j));
            assert(r[i] == q[j]);
            assert(r[i + 1] == q[j + 1]);
        }
    }
    assert(is_walk(edge, n, r));
    assert(r.last() == c) by {
        if q.len() == 1 {
            assert(r =~= p);
        } else {
            assert(r.last() == q.last());
        }
    }
}

/// A labelling that agrees across every edge agrees along every walk.
pub proof fn lemma_walk_keeps_label(
    edge: spec_fn(int, int) -> bool,
    n: int,
    label: spec_fn(int) -> int,
    p: Seq<int>,
)
    requires
        is_walk(edge, n, p),
        forall|x: int, y: int| 0 <= x < n && 0 <= y < n && #[trigger] edge(x, y) ==> label(x) == label(y),
    ensures
        label(p[0]) == label(p.last()),
    decreases p.len(),
{
    if p.len() > 1 {
        let q = p.drop_last();
        assert forall|i: int| 0 <= i < q.len() - 1 implies #[trigger] linked(edge, q, i) by {
            assert(linked(edge, p, i));
        }
        assert(is_walk(edge, n, q));
        lemma_walk_keeps_label(edge, n, label, q);
        assert(linked(edge, p, p.len() - 2));
        assert(0 <= p[p.len() - 2] < n);
    }
}

/// Connected vertices carry the same label, for a labelling that agrees
/// across every edge.
pub proof fn lemma_connected_keeps_label(
    edge: spec_fn(int, int) -> bool,
    n: int,
    label: spec_fn(int) -> int,
    a: int,
    b: int,
)
    requires
        connected(edge, n, a, b),
        forall|x: int, y: int| 0 <= x < n && 0 <= y < n && #[trigger] edge(x, y) ==> label(x) == label(y),
    ensures
        label(a) == label(b),
{
    let p = choose|p: Seq<int>| #[trigger] is_walk(edge, n, p) && p[0] == a && p.last() == b;
    lemma_walk_keeps_label(edge, n, label, p);
}

} // verus!
