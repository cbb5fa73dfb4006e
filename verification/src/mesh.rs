//! Ports and the mesh (loop) basis of the filament circuit.
//!
//! After discretization every filament is a *branch* joining the two nodes
//! of its segment, so the filaments of one segment are branches in
//! parallel. The unknowns of mesh analysis are currents circulating in a
//! set of independent closed loops, given here as the sparse signed
//! loop–branch incidence matrix of [`MeshMatrix`].
//!
//! Three families of loops:
//!
//! 1. **Bundle loops**: within every segment, filament `k ≥ 1` forwards and
//!    filament `0` backwards.
//! 2. **Conductor loops**: a breadth-first spanning forest of the segment
//!    graph is grown; every segment left out of it closes one loop through
//!    the forest, on filament `0` of each segment involved.
//! 3. **Port loops**: for every port, the forest path from its positive to
//!    its negative node, again on filament `0` of each segment.
//!
//! Families 1 and 2 are the internal loops; they come first, then the port
//! loops in port order.

use vstd::prelude::*;

use crate::coupling::{lemma_prefix_sum_monotone, prefix_sum};
use crate::geometry::NodeId;
use crate::graph::{
    connected, is_walk, lemma_connected_edge, lemma_connected_keeps_label, lemma_connected_refl,
    lemma_connected_sym, lemma_connected_trans, linked, symmetric,
};
use crate::text::to_string;
use vstd::relations::injective_on;
use vstd::set_lib::{lemma_int_range, lemma_len_subset, lemma_map_size, lemma_set_disjoint_lens, set_int_range};

verus! {

/// A terminal pair at which the impedance is extracted: current enters at
/// `positive` and leaves at `negative`.
#[derive(Clone, Debug, PartialEq, Eq, Hash)]
pub struct Port {
    /// Node at which the port current enters the conductor.
    pub positive: NodeId,
    /// Node at which the port current leaves the conductor.
    pub negative: NodeId,
    /// Optional label, carried through to the results.
    pub name: Option<String>,
}

impl Port {
    /// An unnamed port from `positive` to `negative`.
    pub fn new(positive: NodeId, negative: NodeId) -> (r: Self)
        ensures
            r.positive == positive,
            r.negative == negative,
            r.name is None,
    {
        Port { positive, negative, name: None }
    }

    /// Returns the port with a label.
    pub fn named(self, name: &str) -> (r: Self)
        ensures
            r.positive == self.positive,
            r.negative == self.negative,
            r.name is Some,
            r.name.unwrap()@ == name@,
    {
        Port { positive: self.positive, negative: self.negative, name: Some(to_string(name)) }
    }
}

/// Why a set of ports cannot be attached to a geometry.
#[derive(Clone, Copy, Debug, PartialEq, Eq)]
pub enum MeshError {
    /// No port was given, so there is no impedance to extract.
    NoPorts,
    /// A port refers to a node the geometry does not have.
    UnknownPortNode { port: usize, node: usize, node_count: usize },
    /// Both terminals of a port are the same node.
    DegeneratePort { port: usize, node: usize },
    /// The two terminals of a port are not joined by conductor.
    PortNotConnected { port: usize, positive: usize, negative: usize },
    /// The per-segment filament counts do not match the geometry.
    SegmentCountMismatch { expected: usize, got: usize },
    /// A segment was given no filaments.
    EmptySegment { segment: usize },
}

/// The end nodes of segment `s`.
pub open spec fn ends(segs: Seq<(NodeId, NodeId)>, s: int) -> (int, int) {
    (segs[s].0.0 as int, segs[s].1.0 as int)
}

/// Segment `s` joins `x` and `y`, in either direction.
pub open spec fn joins(segs: Seq<(NodeId, NodeId)>, s: int, x: int, y: int) -> bool {
    ends(segs, s) == (x, y) || ends(segs, s) == (y, x)
}

/// Two nodes are adjacent when a segment joins them.
pub open spec fn seg_edge(segs: Seq<(NodeId, NodeId)>) -> spec_fn(int, int) -> bool {
    |x: int, y: int| exists|s: int| 0 <= s < segs.len() && #[trigger] joins(segs, s, x, y)
}

/// Every segment end is a node of the geometry.
pub open spec fn ends_in_range(segs: Seq<(NodeId, NodeId)>, n: int) -> bool {
    forall|s: int| 0 <= s < segs.len() ==> 0 <= (#[trigger] ends(segs, s)).0 < n && 0 <= ends(segs, s).1 < n
}

/// Net current leaving node `v` when a signed list of segments carries
/// unit current, each entry `(segment, ±1)`.
pub open spec fn divergence(segs: Seq<(NodeId, NodeId)>, row: Seq<(int, int)>, v: int) -> int
    decreases row.len(),
{
    if row.len() == 0 {
        0
    } else {
        let (s, sign) = row.last();
        let (a, b) = ends(segs, s);
        divergence(segs, row.drop_last(), v) + sign * ((if a == v {
            1int
        } else {
            0int
        }) - (if b == v {
            1int
        } else {
            0int
        }))
    }
}

/// A source at `from` and a sink at `to`.
pub open spec fn source_sink(from: int, to: int, v: int) -> int {
    (if v == from {
        1int
    } else {
        0int
    }) - (if v == to {
        1int
    } else {
        0int
    })
}

/// A signed list of segments: valid segment indices, each with sign `±1`.
pub open spec fn signed_segments(segs: Seq<(NodeId, NodeId)>, row: Seq<(int, int)>) -> bool {
    forall|k: int|
        0 <= k < row.len() ==> 0 <= (#[trigger] row[k]).0 < segs.len() && (row[k].1 == 1 || row[k].1
            == -1)
}

/// Divergence of a concatenation is the sum.
proof fn lemma_divergence_append(
    segs: Seq<(NodeId, NodeId)>,
    p: Seq<(int, int)>,
    q: Seq<(int, int)>,
    v: int,
)
    ensures
        divergence(segs, p + q, v) == divergence(segs, p, v) + divergence(segs, q, v),
    decreases q.len(),
{
    if q.len() == 0 {
        assert(p + q =~= p);
    } else {
        lemma_divergence_append(segs, p, q.drop_last(), v);
        assert((p + q).drop_last() =~= p + q.drop_last());
        assert((p + q).last() == q.last());
    }
}

/// One signed segment carries its current from one end to the other.
proof fn lemma_divergence_single(segs: Seq<(NodeId, NodeId)>, e: (int, int), v: int)
    ensures
        divergence(segs, seq![e], v) == e.1 * source_sink(ends(segs, e.0).0, ends(segs, e.0).1, v),
{
    assert(seq![e].drop_last() =~= Seq::<(int, int)>::empty());
    assert(seq![e].last() == e);
    assert(divergence(segs, Seq::<(int, int)>::empty(), v) == 0);
}

/// Every entry of a signed segment list is a forest segment.
pub open spec fn on_tree(in_tree: Seq<bool>, row: Seq<(int, int)>) -> bool {
    forall|k: int| 0 <= k < row.len() ==> #[trigger] in_tree[row[k].0]
}

/// A conductor loop as signed segments: forwards along a segment left out
/// of the forest, then through forest segments only.
pub open spec fn link_loop(segs: Seq<(NodeId, NodeId)>, in_tree: Seq<bool>, r: Seq<(int, int)>) -> bool {
    &&& r.len() > 0
    &&& r[0].1 == 1
    &&& !in_tree[r[0].0]
    &&& on_tree(in_tree, r.drop_first())
    &&& signed_segments(segs, r)
    &&& trail(segs, r, ends(segs, r[0].0).0, ends(segs, r[0].0).0)
}

/// The node a signed entry leaves: its segment's start when forwards.
pub open spec fn leaves(segs: Seq<(NodeId, NodeId)>, e: (int, int)) -> int {
    if e.1 == 1 {
        ends(segs, e.0).0
    } else {
        ends(segs, e.0).1
    }
}

/// The node a signed entry enters: its segment's end when forwards.
pub open spec fn enters(segs: Seq<(NodeId, NodeId)>, e: (int, int)) -> int {
    if e.1 == 1 {
        ends(segs, e.0).1
    } else {
        ends(segs, e.0).0
    }
}

/// `r` walks from `from` to `to`: each entry leaves the node the one
/// before it entered.
pub open spec fn walk(segs: Seq<(NodeId, NodeId)>, r: Seq<(int, int)>, from: int, to: int) -> bool {
    if r.len() == 0 {
        from == to
    } else {
        &&& leaves(segs, r[0]) == from
        &&& enters(segs, r[r.len() - 1]) == to
        &&& forall|k: int| 0 <= k < r.len() - 1 ==> #[trigger] enters(segs, r[k]) == leaves(segs, r[k + 1])
    }
}

/// `r` walks from `from` to `to` and traverses no segment twice.
pub open spec fn trail(segs: Seq<(NodeId, NodeId)>, r: Seq<(int, int)>, from: int, to: int) -> bool {
    &&& walk(segs, r, from, to)
    &&& forall|a: int, b: int| 0 <= a < b < r.len() ==> (#[trigger] r[a]).0 != (#[trigger] r[b]).0
}

proof fn lemma_walk_push(segs: Seq<(NodeId, NodeId)>, r: Seq<(int, int)>, from: int, x: int, e: (int, int))
    requires
        walk(segs, r, from, x),
        leaves(segs, e) == x,
    ensures
        walk(segs, r.push(e), from, enters(segs, e)),
{
    let q = r.push(e);
    assert forall|k: int| 0 <= k < q.len() - 1 implies #[trigger] enters(segs, q[k]) == leaves(segs, q[k + 1]) by {
        assert(q[k] == r[k]);
        if k + 1 < r.len() {
            assert(q[k + 1] == r[k + 1]);
            assert(enters(segs, r[k]) == leaves(segs, r[k + 1]));
        }
    }
    if r.len() > 0 {
        assert(q[0] == r[0]);
    }
}

proof fn lemma_walk_prepend(segs: Seq<(NodeId, NodeId)>, e: (int, int), r: Seq<(int, int)>, y: int, to: int)
    requires
        walk(segs, r, y, to),
        enters(segs, e) == y,
    ensures
        walk(segs, seq![e] + r, leaves(segs, e), to),
{
    let q = seq![e] + r;
    assert forall|k: int| 0 <= k < q.len() - 1 implies #[trigger] enters(segs, q[k]) == leaves(segs, q[k + 1]) by {
        assert(q[k + 1] == r[k]);
        if k > 0 {
            assert(q[k] == r[k - 1]);
            assert(enters(segs, r[k - 1]) == leaves(segs, r[k]));
        }
    }
    if r.len() > 0 {
        assert(q[q.len() - 1] == r[r.len() - 1]);
    }
}

/// The entries of `w`, climbed one after another, lead from `top` down to
/// `bottom` when taken last to first.
spec fn climbed(segs: Seq<(NodeId, NodeId)>, w: Seq<(int, int)>, top: int, bottom: int) -> bool {
    if w.len() == 0 {
        top == bottom
    } else {
        &&& enters(segs, w[0]) == bottom
        &&& leaves(segs, w[w.len() - 1]) == top
        &&& forall|k: int| 0 <= k < w.len() - 1 ==> #[trigger] leaves(segs, w[k]) == enters(segs, w[k + 1])
    }
}

/// A tree segment is the parent link of one node only.
proof fn lemma_parent_segment_injective(f: &Forest, segs: Seq<(NodeId, NodeId)>, n: int, u: int, v: int)
    requires
        f.wf(segs, n),
        0 <= u < n,
        0 <= v < n,
        f.parent@[u] is Some,
        f.parent@[v] is Some,
        f.parent@[u].unwrap().1 == f.parent@[v].unwrap().1,
    ensures
        u == v,
{
    let (pu, su, fu) = f.parent@[u].unwrap();
    let (pv, sv, fv) = f.parent@[v].unwrap();
    assert(f.depth@[u] == f.depth@[pu as int] + 1);
    assert(f.depth@[v] == f.depth@[pv as int] + 1);
}

/// Breadth-first spanning forest of the segment graph.
struct Forest {
    /// For every non-root node reached: its parent, the tree segment
    /// joining them, and whether that segment is oriented parent → node.
    parent: Vec<Option<(usize, usize, bool)>>,
    depth: Vec<usize>,
    /// Connected component of every node that has at least one segment.
    component: Vec<Option<usize>>,
    in_tree: Vec<bool>,
}

/// The parent links form trees: every link follows a tree segment to a
/// node one level up in the same component, a node outside every component
/// has no parent and depth zero, and each component has a single root, at
/// depth zero.
spec fn trees(
    parent: Seq<Option<(usize, usize, bool)>>,
    depth: Seq<usize>,
    comp: Seq<Option<usize>>,
    in_tree: Seq<bool>,
    segs: Seq<(NodeId, NodeId)>,
    n: int,
) -> bool {
    &&& parent.len() == n
    &&& depth.len() == n
    &&& comp.len() == n
    &&& in_tree.len() == segs.len()
    &&& forall|x: int|
        0 <= x < n && (#[trigger] parent[x]) is Some ==> {
            let (p, s, fwd) = parent[x].unwrap();
            &&& (p as int) < n
            &&& (s as int) < segs.len()
            &&& comp[x] is Some
            &&& comp[p as int] == comp[x]
            &&& depth[x] == depth[p as int] + 1
            &&& (fwd ==> ends(segs, s as int) == (p as int, x))
            &&& (!fwd ==> ends(segs, s as int) == (x, p as int))
            &&& in_tree[s as int]
        }
    &&& forall|x: int| 0 <= x < n && (#[trigger] comp[x]) is None ==> parent[x] is None
    &&& forall|x: int| 0 <= x < n && (#[trigger] parent[x]) is None ==> depth[x] == 0
    &&& forall|x: int, y: int|
        0 <= x < n && 0 <= y < n && (#[trigger] comp[x]) is Some && comp[x] == (#[trigger] comp[y])
            && parent[x] is None && parent[y] is None ==> x == y
}

/// Nodes of one component are connected.
spec fn comp_connected(comp: Seq<Option<usize>>, segs: Seq<(NodeId, NodeId)>, n: int) -> bool {
    forall|x: int, y: int|
        0 <= x < n && 0 <= y < n && (#[trigger] comp[x]) is Some && comp[x] == (#[trigger] comp[y])
            ==> connected(seg_edge(segs), n, x, y)
}

/// Both ends of every segment lie in one component.
spec fn comp_closed(comp: Seq<Option<usize>>, segs: Seq<(NodeId, NodeId)>) -> bool {
    forall|s: int|
        0 <= s < segs.len() ==> comp[(#[trigger] ends(segs, s)).0] is Some && comp[ends(segs, s).0]
            == comp[ends(segs, s).1]
}

/// Every tree segment links some node to its parent.
spec fn links_used(parent: Seq<Option<(usize, usize, bool)>>, in_tree: Seq<bool>, n: int) -> bool {
    forall|s: int|
        0 <= s < in_tree.len() && #[trigger] in_tree[s] ==> exists|x: int|
            0 <= x < n && (#[trigger] parent[x]) is Some && parent[x].unwrap().1 == s
}

/// The root of every component is its least node.
spec fn roots_least(parent: Seq<Option<(usize, usize, bool)>>, comp: Seq<Option<usize>>, n: int) -> bool {
    forall|x: int, y: int|
        0 <= x < n && 0 <= y < n && (#[trigger] comp[x]) is Some && comp[x] == (#[trigger] comp[y])
            && parent[x] is None ==> x <= y
}

impl Forest {
    spec fn wf(&self, segs: Seq<(NodeId, NodeId)>, n: int) -> bool {
        &&& trees(self.parent@, self.depth@, self.component@, self.in_tree@, segs, n)
        &&& comp_connected(self.component@, segs, n)
        &&& comp_closed(self.component@, segs)
        &&& links_used(self.parent@, self.in_tree@, n)
        &&& roots_least(self.parent@, self.component@, n)
    }
}

/// An entry `(other, segment, forwards)` of node `x`'s adjacency list:
/// the segment joins `x` and `other`, leaving `x` when `forwards`.
pub open spec fn adjacent_entry(
    segs: Seq<(NodeId, NodeId)>,
    n: int,
    x: int,
    e: (usize, usize, bool),
) -> bool {
    let (other, s, fwd) = e;
    &&& (other as int) < n
    &&& (s as int) < segs.len()
    &&& (fwd ==> ends(segs, s as int) == (x, other as int))
    &&& (!fwd ==> ends(segs, s as int) == (other as int, x))
}

/// Entry `e` appears in the adjacency list of node `x`.
pub open spec fn listed(adj: Seq<Vec<(usize, usize, bool)>>, x: int, e: (usize, usize, bool)) -> bool {
    exists|i: int| 0 <= i < adj[x]@.len() && adj[x]@[i] == e
}

/// Segment `s` appears at both of its ends.
pub open spec fn both_listed(segs: Seq<(NodeId, NodeId)>, adj: Seq<Vec<(usize, usize, bool)>>, s: int) -> bool {
    let (a, b) = ends(segs, s);
    &&& listed(adj, a, (b as usize, s as usize, true))
    &&& listed(adj, b, (a as usize, s as usize, false))
}

/// The adjacency lists list exactly the segments at each node.
pub open spec fn adjacency_of(
    segs: Seq<(NodeId, NodeId)>,
    n: int,
    adj: Seq<Vec<(usize, usize, bool)>>,
) -> bool {
    &&& adj.len() == n
    &&& forall|x: int, i: int|
        0 <= x < n && 0 <= i < adj[x]@.len() ==> adjacent_entry(segs, n, x, #[trigger] adj[x]@[i])
    &&& forall|s: int| 0 <= s < segs.len() ==> #[trigger] both_listed(segs, adj, s)
}

/// The adjacency list of node `x` over the first `k` segments: segment by
/// segment, an entry at its start node (forwards) and then one at its end
/// node (backwards).
pub open spec fn adj_entries(segs: Seq<(NodeId, NodeId)>, x: int, k: int) -> Seq<(usize, usize, bool)>
    decreases k,
{
    if k <= 0 {
        Seq::empty()
    } else {
        let prev = adj_entries(segs, x, k - 1);
        let (a, b) = ends(segs, k - 1);
        let at_start = if a == x {
            prev.push((b as usize, (k - 1) as usize, true))
        } else {
            prev
        };
        if b == x {
            at_start.push((a as usize, (k - 1) as usize, false))
        } else {
            at_start
        }
    }
}

/// The adjacency lists of all `n` nodes.
pub open spec fn adj_lists(segs: Seq<(NodeId, NodeId)>, n: int) -> Seq<Seq<(usize, usize, bool)>> {
    Seq::new(n as nat, |x: int| adj_entries(segs, x, segs.len() as int))
}

/// The segments meeting every node, in segment order.
fn adjacency(node_count: usize, segs: &[(NodeId, NodeId)]) -> (adj: Vec<Vec<(usize, usize, bool)>>)
    requires
        ends_in_range(segs@, node_count as int),
    ensures
        adjacency_of(segs@, node_count as int, adj@),
        forall|x: int| 0 <= x < node_count ==> (#[trigger] adj@[x])@ == adj_lists(segs@, node_count as int)[x],
{
    let n = node_count;
    let ghost ni = n as int;
    let mut adj: Vec<Vec<(usize, usize, bool)>> = Vec::new();
    let mut x: usize = 0;
    while x < n
        invariant
            x <= n,
            adj@.len() == x,
            forall|y: int| 0 <= y < x ==> (#[trigger] adj@[y])@ == Seq::<(usize, usize, bool)>::empty(),
        decreases n - x,
    {
        adj.push(Vec::new());
        x = x + 1;
    }
    let mut s: usize = 0;
    while s < segs.len()
        invariant
            s <= segs@.len(),
            ni == n,
            ends_in_range(segs@, ni),
            adj@.len() == n,
            forall|y: int, i: int|
                0 <= y < n && 0 <= i < adj@[y]@.len() ==> adjacent_entry(segs@, ni, y, #[trigger] adj@[y]@[i]),
            forall|t: int| 0 <= t < s ==> #[trigger] both_listed(segs@, adj@, t),
            forall|y: int| 0 <= y < n ==> (#[trigger] adj@[y])@ == adj_entries(segs@, y, s as int),
        decreases segs@.len() - s,
    {
        let a = segs[s].0.0;
        let b = segs[s].1.0;
        proof {
            assert(ends(segs@, s as int) == (a as int, b as int));
        }
        let ghost adj0 = adj@;
        adj[a].push((b, s, true));
        let ghost adj1 = adj@;
        adj[b].push((a, s, false));
        proof {
            assert forall|y: int| 0 <= y < n implies #[trigger] adj@[y]@ == if y == a && y == b {
                adj0[y]@.push((b, s, true)).push((a, s, false))
            } else if y == a {
                adj0[y]@.push((b, s, true))
            } else if y == b {
                adj0[y]@.push((a, s, false))
            } else {
                adj0[y]@
            } by {
                if y != a {
                    assert(adj1[y] == adj0[y]);
                }
                if y != b {
                    assert(adj@[y] == adj1[y]);
                }
            }
            assert forall|y: int| 0 <= y < n implies (#[trigger] adj@[y])@ == adj_entries(segs@, y, s + 1) by {
                assert(adj0[y]@ == adj_entries(segs@, y, s as int));
            }
            assert forall|y: int, e: (usize, usize, bool)|
                0 <= y < n && #[trigger] listed(adj0, y, e) implies listed(adj@, y, e) by {
                let i = choose|i: int| 0 <= i < adj0[y]@.len() && adj0[y]@[i] == e;
                assert(adj@[y]@[i] == adj0[y]@[i]);
            }
            assert forall|y: int, i: int|
                0 <= y < n && 0 <= i < adj@[y]@.len() implies adjacent_entry(segs@, ni, y, #[trigger] adj@[y]@[i]) by {
                if i < adj0[y]@.len() {
                    assert(adj@[y]@[i] == adj0[y]@[i]);
                }
            }
            assert forall|t: int| 0 <= t < s + 1 implies #[trigger] both_listed(segs@, adj@, t) by {
                let (ta, tb) = ends(segs@, t);
                if t < s {
                    assert(both_listed(segs@, adj0, t));
                    assert(listed(adj0, ta, (tb as usize, t as usize, true)));
                    assert(listed(adj0, tb, (ta as usize, t as usize, false)));
                } else {
                    assert(adj@[a as int]@[adj0[a as int]@.len() as int] == (b, s, true));
                    assert(adj@[b as int]@[adj@[b as int]@.len() - 1] == (a, s, false));
                }
            }
        }
        s = s + 1;
    }
    proof {
        assert forall|x: int| 0 <= x < node_count implies (#[trigger] adj@[x])@ == adj_lists(segs@, node_count as int)[x] by {
        }
    }
    adj
}


/// A state of the breadth-first growth of the spanning forest: parent links
/// and depths, component labels, tree segments, the queue of labelled nodes
/// in the order they were labelled, and the label of the current component.
#[verifier::ext_equal]
pub struct Growth {
    pub parent: Seq<Option<(usize, usize, bool)>>,
    pub depth: Seq<usize>,
    pub comp: Seq<Option<usize>>,
    pub in_tree: Seq<bool>,
    pub queue: Seq<usize>,
    pub label: usize,
}

/// Nothing grown yet, over `n` nodes and `m` segments.
pub open spec fn seed(n: int, m: int) -> Growth {
    Growth {
        parent: Seq::new(n as nat, |x: int| None),
        depth: Seq::new(n as nat, |x: int| 0usize),
        comp: Seq::new(n as nat, |x: int| None),
        in_tree: Seq::new(m as nat, |s: int| false),
        queue: Seq::empty(),
        label: 0,
    }
}

/// Following entry `e` of node `u`'s list: a node not yet labelled becomes
/// a child of `u` across the entry's segment, in the current component,
/// and joins the queue.
pub open spec fn visit(g: Growth, u: usize, e: (usize, usize, bool)) -> Growth {
    let (v, s, fwd) = e;
    if (v as int) < g.comp.len() && g.comp[v as int] is None {
        Growth {
            parent: g.parent.update(v as int, Some((u, s, fwd))),
            depth: g.depth.update(v as int, (g.depth[u as int] + 1) as usize),
            comp: g.comp.update(v as int, Some(g.label)),
            in_tree: g.in_tree.update(s as int, true),
            queue: g.queue.push(v),
            label: g.label,
        }
    } else {
        g
    }
}

/// Following the entries of `list` from place `i` on, in order.
pub open spec fn scan(g: Growth, u: usize, list: Seq<(usize, usize, bool)>, i: int) -> Growth
    decreases list.len() - i,
{
    if 0 <= i < list.len() {
        scan(visit(g, u, list[i]), u, list, i + 1)
    } else {
        g
    }
}

/// Taking the queue from place `head` on, each node in turn following its
/// whole adjacency list, until the queue runs out (it never holds more
/// than the `adj.len()` nodes).
pub open spec fn drain(adj: Seq<Seq<(usize, usize, bool)>>, g: Growth, head: int) -> Growth
    decreases adj.len() - head,
{
    if 0 <= head < g.queue.len() && head < adj.len() {
        let u = g.queue[head];
        drain(adj, scan(g, u, adj[u as int], 0), head + 1)
    } else {
        g
    }
}

/// The current component is complete; the next one gets the next label.
pub open spec fn next_label(g: Growth) -> Growth {
    Growth {
        parent: g.parent,
        depth: g.depth,
        comp: g.comp,
        in_tree: g.in_tree,
        queue: g.queue,
        label: (g.label + 1) as usize,
    }
}

/// Going through the nodes from `root` on: each one that has a segment and
/// no label yet roots a new tree, which grows breadth-first.
pub open spec fn sweep(adj: Seq<Seq<(usize, usize, bool)>>, g: Growth, root: int) -> Growth
    decreases adj.len() - root,
{
    if 0 <= root < adj.len() {
        if g.comp[root] is None && adj[root].len() > 0 {
            let started = Growth {
                parent: g.parent,
                depth: g.depth,
                comp: g.comp.update(root, Some(g.label)),
                in_tree: g.in_tree,
                queue: g.queue.push(root as usize),
                label: g.label,
            };
            sweep(adj, next_label(drain(adj, started, g.queue.len() as int)), root + 1)
        } else {
            sweep(adj, g, root + 1)
        }
    } else {
        g
    }
}

/// The breadth-first spanning forest of `n` nodes joined by `segs`: trees
/// rooted at the lowest-numbered node of each component, children found in
/// adjacency-list order.
pub open spec fn bfs(segs: Seq<(NodeId, NodeId)>, n: int) -> Growth {
    sweep(adj_lists(segs, n), seed(n, segs.len() as int), 0)
}

/// The growth state held in the search's variables.
spec fn growth(
    parent: Seq<Option<(usize, usize, bool)>>,
    depth: Seq<usize>,
    comp: Seq<Option<usize>>,
    in_tree: Seq<bool>,
    queue: Seq<usize>,
    label: usize,
) -> Growth {
    Growth { parent, depth, comp, in_tree, queue, label }
}

/// Every neighbour of `z` shares its component.
spec fn closed_node(adj: Seq<Vec<(usize, usize, bool)>>, comp: Seq<Option<usize>>, z: int) -> bool {
    forall|i: int| 0 <= i < adj[z]@.len() ==> comp[(#[trigger] adj[z]@[i]).0 as int] == comp[z]
}

/// `x` has been queued.
spec fn queued(q: Seq<usize>, x: int) -> bool {
    exists|k: int| 0 <= k < q.len() && q[k] == x
}

/// Nodes not yet in any component.
spec fn count_none(comp: Seq<Option<usize>>) -> nat
    decreases comp.len(),
{
    if comp.len() == 0 {
        0
    } else {
        count_none(comp.drop_last()) + if comp.last() is None {
            1nat
        } else {
            0nat
        }
    }
}

/// Assigning a component to a node outside every component leaves one
/// fewer such node.
proof fn lemma_count_none_update(comp: Seq<Option<usize>>, i: int, c: usize)
    requires
        0 <= i < comp.len(),
        comp[i] is None,
    ensures
        count_none(comp.update(i, Some(c))) + 1 == count_none(comp),
    decreases comp.len(),
{
    let u = comp.update(i, Some(c));
    if i == comp.len() - 1 {
        assert(u.drop_last() =~= comp.drop_last());
    } else {
        assert(u.drop_last() =~= comp.drop_last().update(i, Some(c)));
        lemma_count_none_update(comp.drop_last(), i, c);
    }
}

/// With no node labelled, every node counts.
proof fn lemma_count_none_all(comp: Seq<Option<usize>>)
    requires
        forall|i: int| 0 <= i < comp.len() ==> #[trigger] comp[i] is None,
    ensures
        count_none(comp) == comp.len(),
    decreases comp.len(),
{
    if comp.len() > 0 {
        lemma_count_none_all(comp.drop_last());
    }
}

/// The queue is a sequence of distinct nodes, which the same component
/// assignment can be read from.
proof fn lemma_queued_push(q: Seq<usize>, v: usize, y: int)
    ensures
        queued(q.push(v), y) <==> (queued(q, y) || y == v),
{
    if queued(q.push(v), y) {
        let k = choose|k: int| 0 <= k < q.push(v).len() && q.push(v)[k] == y;
        if k < q.len() {
            assert(q[k] == y);
        }
    }
    if queued(q, y) {
        let k = choose|k: int| 0 <= k < q.len() && q[k] == y;
        assert(q.push(v)[k] == y);
    }
    if y == v {
        assert(q.push(v)[q.len() as int] == v);
    }
}

/// The invariant of the breadth-first search: the forest so far, its
/// components connected, component labels at most `components`, exactly the
/// labelled nodes queued, and every queued node no deeper than its place in
/// the queue.
#[verifier::opaque]
spec fn bfs_inv(
    adj: Seq<Vec<(usize, usize, bool)>>,
    parent: Seq<Option<(usize, usize, bool)>>,
    depth: Seq<usize>,
    comp: Seq<Option<usize>>,
    in_tree: Seq<bool>,
    queue: Seq<usize>,
    sg: Seq<(NodeId, NodeId)>,
    n: int,
    components: usize,
) -> bool {
    &&& adjacency_of(sg, n, adj)
    &&& trees(parent, depth, comp, in_tree, sg, n)
    &&& comp_connected(comp, sg, n)
    &&& forall|y: int| 0 <= y < n && (#[trigger] comp[y]) is Some ==> comp[y].unwrap() <= components
    &&& forall|k: int| 0 <= k < queue.len() ==> 0 <= (#[trigger] queue[k] as int) < n
    &&& forall|y: int| 0 <= y < n ==> ((#[trigger] comp[y]) is Some <==> queued(queue, y))
    &&& forall|k: int| 0 <= k < queue.len() ==> depth[#[trigger] queue[k] as int] <= k
}

/// The nodes before place `h` of the queue are closed.
spec fn closed_before(adj: Seq<Vec<(usize, usize, bool)>>, comp: Seq<Option<usize>>, queue: Seq<usize>, h: int) -> bool {
    forall|k: int| 0 <= k < h ==> #[trigger] closed_node(adj, comp, queue[k] as int)
}

/// The nodes from place `h` of the queue on are in component `c`.
spec fn current_from(comp: Seq<Option<usize>>, queue: Seq<usize>, h: int, c: usize) -> bool {
    forall|k: int| h <= k < queue.len() ==> comp[#[trigger] queue[k] as int] == Some(c)
}

/// The segment graph is undirected.
proof fn lemma_seg_edge_symmetric(sg: Seq<(NodeId, NodeId)>)
    ensures
        symmetric(seg_edge(sg)),
{
    let e = seg_edge(sg);
    assert forall|a: int, b: int| #[trigger] e(a, b) implies e(b, a) by {
        let s = choose|s: int| 0 <= s < sg.len() && #[trigger] joins(sg, s, a, b);
        assert(joins(sg, s, b, a));
    }
}

/// Starting a new tree at `r`, a node outside every component that has a
/// segment, keeps the invariant.
proof fn lemma_start_root(
    adj: Seq<Vec<(usize, usize, bool)>>,
    parent: Seq<Option<(usize, usize, bool)>>,
    depth: Seq<usize>,
    c0: Seq<Option<usize>>,
    in_tree: Seq<bool>,
    q0: Seq<usize>,
    sg: Seq<(NodeId, NodeId)>,
    n: int,
    components: usize,
    root: usize,
)
    requires
        bfs_inv(adj, parent, depth, c0, in_tree, q0, sg, n, components),
        forall|y: int| 0 <= y < n && (#[trigger] c0[y]) is Some ==> c0[y].unwrap() < components,
        closed_before(adj, c0, q0, q0.len() as int),
        (root as int) < n,
        c0[root as int] is None,
    ensures
        bfs_inv(adj, parent, depth, c0.update(root as int, Some(components)), in_tree, q0.push(root), sg, n, components),
        closed_before(adj, c0.update(root as int, Some(components)), q0.push(root), q0.len() as int),
        current_from(c0.update(root as int, Some(components)), q0.push(root), q0.len() as int, components),
{
    reveal(bfs_inv);
    let r = root as int;
    let comp = c0.update(root as int, Some(components));
    let queue = q0.push(root);
    assert(parent[r] is None);
    assert(depth[r] == 0);
    assert forall|y: int| 0 <= y < n implies ((#[trigger] comp[y]) is Some <==> queued(queue, y)) by {
        lemma_queued_push(q0, root, y);
        if y != r {
            assert(c0[y] == comp[y]);
        }
    }
    assert forall|y: int, z: int|
        0 <= y < n && 0 <= z < n && (#[trigger] comp[y]) is Some && comp[y] == (#[trigger] comp[z])
            implies connected(seg_edge(sg), n, y, z) by {
        if y == r || z == r {
            if y != z {
                if y == r {
                    assert(c0[z] == comp[z]);
                } else {
                    assert(c0[y] == comp[y]);
                }
            }
            lemma_connected_refl(seg_edge(sg), n, y);
        } else {
            assert(c0[y] == comp[y]);
            assert(c0[z] == comp[z]);
        }
    }
    assert forall|k: int| 0 <= k < q0.len() implies #[trigger] closed_node(adj, comp, queue[k] as int) by {
        let z = queue[k] as int;
        assert(queue[k] == q0[k]);
        assert(closed_node(adj, c0, z));
        assert(queued(q0, z));
        assert forall|i: int| 0 <= i < adj[z]@.len() implies comp[(#[trigger] adj[z]@[i]).0 as int] == comp[z] by {
            let o = adj[z]@[i].0 as int;
            assert(c0[o] == c0[z]);
            assert(adjacent_entry(sg, n, z, adj[z]@[i]));
        }
    }
    assert forall|k: int| 0 <= k < queue.len() implies depth[#[trigger] queue[k] as int] <= k by {
        if k < q0.len() {
            assert(queue[k] == q0[k]);
        } else {
            assert(queue[k] == root);
        }
    }
    assert forall|k: int| 0 <= k < queue.len() implies 0 <= (#[trigger] queue[k] as int) < n by {
        if k < q0.len() {
            assert(queue[k] == q0[k]);
        }
    }
    assert(trees(parent, depth, comp, in_tree, sg, n)) by {
        assert forall|y: int, z: int|
            0 <= y < n && 0 <= z < n && (#[trigger] comp[y]) is Some && comp[y] == (#[trigger] comp[z])
                && parent[y] is None && parent[z] is None implies y == z by {
            if y != r {
                assert(c0[y] == comp[y]);
            }
            if z != r {
                assert(c0[z] == comp[z]);
            }
        }
        assert forall|y: int|
            0 <= y < n && (#[trigger] parent[y]) is Some implies comp[parent[y].unwrap().0 as int] == comp[y]
                && comp[y] is Some by {
            assert(c0[y] is Some);
            let p = parent[y].unwrap().0 as int;
            assert(c0[p] == c0[y]);
        }
        assert forall|y: int| 0 <= y < n && (#[trigger] comp[y]) is None implies parent[y] is None by {
            assert(c0[y] is None);
        }
    }
    assert forall|k: int| q0.len() <= k < queue.len() implies comp[#[trigger] queue[k] as int] == Some(components) by {
    }
}

/// Discovering `v` from `u` across segment `seg` keeps the invariant.
proof fn lemma_discover(
    adj: Seq<Vec<(usize, usize, bool)>>,
    p0: Seq<Option<(usize, usize, bool)>>,
    d0: Seq<usize>,
    c0: Seq<Option<usize>>,
    t0: Seq<bool>,
    q0: Seq<usize>,
    sg: Seq<(NodeId, NodeId)>,
    n: int,
    components: usize,
    h: int,
    u: usize,
    v: usize,
    seg: usize,
    fwd: bool,
)
    requires
        bfs_inv(adj, p0, d0, c0, t0, q0, sg, n, components),
        closed_before(adj, c0, q0, h),
        current_from(c0, q0, h, components),
        0 <= h < q0.len(),
        q0[h] == u,
        (u as int) < n,
        c0[u as int] == Some(components),
        adjacent_entry(sg, n, u as int, (v, seg, fwd)),
        c0[v as int] is None,
        d0[u as int] + 1 <= usize::MAX,
    ensures
        bfs_inv(
            adj,
            p0.update(v as int, Some((u, seg, fwd))),
            d0.update(v as int, (d0[u as int] + 1) as usize),
            c0.update(v as int, Some(components)),
            t0.update(seg as int, true),
            q0.push(v),
            sg,
            n,
            components,
        ),
        closed_before(adj, c0.update(v as int, Some(components)), q0.push(v), h),
        current_from(c0.update(v as int, Some(components)), q0.push(v), h, components),
        count_none(c0.update(v as int, Some(components))) + 1 == count_none(c0),
{
    reveal(bfs_inv);
    let parent = p0.update(v as int, Some((u, seg, fwd)));
    let depth = d0.update(v as int, (d0[u as int] + 1) as usize);
    let comp = c0.update(v as int, Some(components));
    let in_tree = t0.update(seg as int, true);
    let queue = q0.push(v);
    let vi = v as int;
    let ui = u as int;
    lemma_count_none_update(c0, vi, components);
    assert(!queued(q0, vi));
    assert(seg_edge(sg)(ui, vi)) by {
        assert(joins(sg, seg as int, ui, vi));
    }
    assert forall|y: int| 0 <= y < n implies ((#[trigger] comp[y]) is Some <==> queued(queue, y)) by {
        lemma_queued_push(q0, v, y);
    }
    assert forall|y: int, z: int|
        0 <= y < n && 0 <= z < n && (#[trigger] comp[y]) is Some && comp[y] == (#[trigger] comp[z])
            implies connected(seg_edge(sg), n, y, z) by {
        let e = seg_edge(sg);
        if y == vi && z == vi {
            lemma_connected_refl(e, n, y);
        } else if y == vi {
            assert(c0[z] == comp[z]);
            assert(c0[z] == c0[ui]);
            lemma_connected_edge(e, n, ui, vi);
            lemma_connected_trans(e, n, z, ui, vi);
            lemma_seg_edge_symmetric(sg);
            lemma_connected_sym(e, n, z, vi);
        } else if z == vi {
            assert(c0[y] == comp[y]);
            assert(c0[y] == c0[ui]);
            lemma_connected_edge(e, n, ui, vi);
            lemma_connected_trans(e, n, y, ui, vi);
        } else {
            assert(c0[y] == comp[y]);
            assert(c0[z] == comp[z]);
        }
    }
    assert forall|k: int| 0 <= k < h implies #[trigger] closed_node(adj, comp, queue[k] as int) by {
        let z = queue[k] as int;
        assert(queue[k] == q0[k]);
        assert(closed_node(adj, c0, z));
        assert(queued(q0, z));
        assert forall|j: int| 0 <= j < adj[z]@.len() implies comp[(#[trigger] adj[z]@[j]).0 as int] == comp[z] by {
            let o = adj[z]@[j].0 as int;
            assert(c0[o] == c0[z]);
            assert(adjacent_entry(sg, n, z, adj[z]@[j]));
        }
    }
    assert forall|k: int| h <= k < queue.len() implies comp[#[trigger] queue[k] as int] == Some(components) by {
        if k < q0.len() {
            assert(queue[k] == q0[k]);
            assert(queued(q0, q0[k] as int));
        }
    }
    assert forall|k: int| 0 <= k < queue.len() implies depth[#[trigger] queue[k] as int] <= k by {
        if k < q0.len() {
            assert(queue[k] == q0[k]);
            assert(queued(q0, q0[k] as int));
        }
    }
    assert forall|k: int| 0 <= k < queue.len() implies 0 <= (#[trigger] queue[k] as int) < n by {
        if k < q0.len() {
            assert(queue[k] == q0[k]);
        }
    }
    assert(trees(parent, depth, comp, in_tree, sg, n)) by {
        assert forall|y: int|
            0 <= y < n && (#[trigger] parent[y]) is Some implies {
                let (p, s, f) = parent[y].unwrap();
                &&& (p as int) < n
                &&& (s as int) < sg.len()
                &&& comp[y] is Some
                &&& comp[p as int] == comp[y]
                &&& depth[y] == depth[p as int] + 1
                &&& (f ==> ends(sg, s as int) == (p as int, y))
                &&& (!f ==> ends(sg, s as int) == (y, p as int))
                &&& in_tree[s as int]
            } by {
            if y != vi {
                assert(p0[y] is Some);
                let p = p0[y].unwrap().0 as int;
                assert(c0[y] is Some);
                assert(c0[p] == c0[y]);
            }
        }
        assert forall|y: int| 0 <= y < n && (#[trigger] comp[y]) is None implies parent[y] is None by {
            assert(c0[y] is None);
        }
        assert forall|y: int| 0 <= y < n && (#[trigger] parent[y]) is None implies depth[y] == 0 by {
            assert(p0[y] is None);
        }
        assert forall|y: int, z: int|
            0 <= y < n && 0 <= z < n && (#[trigger] comp[y]) is Some && comp[y] == (#[trigger] comp[z])
                && parent[y] is None && parent[z] is None implies y == z by {
            assert(c0[y] == comp[y]);
            assert(c0[z] == comp[z]);
        }
    }
}

/// A neighbour `v` of the node `u` at place `h` of the queue that is
/// already labelled is in `u`'s component.
proof fn lemma_seen(
    adj: Seq<Vec<(usize, usize, bool)>>,
    parent: Seq<Option<(usize, usize, bool)>>,
    depth: Seq<usize>,
    comp: Seq<Option<usize>>,
    in_tree: Seq<bool>,
    queue: Seq<usize>,
    sg: Seq<(NodeId, NodeId)>,
    n: int,
    components: usize,
    h: int,
    u: usize,
    v: usize,
    seg: usize,
    fwd: bool,
)
    requires
        bfs_inv(adj, parent, depth, comp, in_tree, queue, sg, n, components),
        closed_before(adj, comp, queue, h),
        current_from(comp, queue, h, components),
        0 <= h < queue.len(),
        queue[h] == u,
        (u as int) < n,
        adjacent_entry(sg, n, u as int, (v, seg, fwd)),
        comp[v as int] is Some,
    ensures
        comp[v as int] == Some(components),
{
    reveal(bfs_inv);
    let vi = v as int;
    assert(queued(queue, vi));
    let k = choose|k: int| 0 <= k < queue.len() && queue[k] == vi;
    if k < h {
        assert(closed_node(adj, comp, queue[k] as int));
        let s = seg as int;
        assert(both_listed(sg, adj, s));
        let back = (u, seg, !fwd);
        assert(listed(adj, vi, back));
        let j = choose|j: int| 0 <= j < adj[vi]@.len() && adj[vi]@[j] == back;
        assert(comp[adj[vi]@[j].0 as int] == comp[vi]);
    }
}

/// The far end of an adjacency entry has an adjacency entry of its own.
proof fn lemma_neighbour_listed(
    sg: Seq<(NodeId, NodeId)>,
    n: int,
    adj: Seq<Vec<(usize, usize, bool)>>,
    u: int,
    e: (usize, usize, bool),
)
    requires
        adjacency_of(sg, n, adj),
        0 <= u < n,
        adjacent_entry(sg, n, u, e),
    ensures
        adj[e.0 as int]@.len() > 0,
{
    let s = e.1 as int;
    assert(both_listed(sg, adj, s));
}

/// A new root starts a component of its own.
proof fn lemma_roots_start(
    parent: Seq<Option<(usize, usize, bool)>>,
    c0: Seq<Option<usize>>,
    n: int,
    root: int,
    components: usize,
)
    requires
        roots_least(parent, c0, n),
        c0.len() == n,
        0 <= root < n,
        forall|y: int| 0 <= y < n && (#[trigger] c0[y]) is Some ==> c0[y].unwrap() < components,
    ensures
        roots_least(parent, c0.update(root, Some(components)), n),
{
    let comp = c0.update(root, Some(components));
    assert forall|x: int, y: int|
        0 <= x < n && 0 <= y < n && (#[trigger] comp[x]) is Some && comp[x] == (#[trigger] comp[y])
            && parent[x] is None implies x <= y by {
        if x != root {
            assert(c0[x] == comp[x]);
        }
        if y != root {
            assert(c0[y] == comp[y]);
        }
    }
}

/// Discovering `v` from `u` across `seg` keeps every tree segment linked
/// and every root least.
proof fn lemma_orders_discover(
    p0: Seq<Option<(usize, usize, bool)>>,
    c0: Seq<Option<usize>>,
    t0: Seq<bool>,
    n: int,
    root: int,
    components: usize,
    u: usize,
    v: usize,
    seg: usize,
    fwd: bool,
)
    requires
        links_used(p0, t0, n),
        roots_least(p0, c0, n),
        p0.len() == n,
        c0.len() == n,
        0 <= root <= v < n,
        (seg as int) < t0.len(),
        p0[v as int] is None,
        c0[v as int] is None,
        c0[root] == Some(components),
        p0[root] is None,
        forall|x: int| 0 <= x < n && p0[x] is None && #[trigger] c0[x] == Some(components) ==> x == root,
    ensures
        links_used(p0.update(v as int, Some((u, seg, fwd))), t0.update(seg as int, true), n),
        roots_least(p0.update(v as int, Some((u, seg, fwd))), c0.update(v as int, Some(components)), n),
{
    let parent = p0.update(v as int, Some((u, seg, fwd)));
    let in_tree = t0.update(seg as int, true);
    let comp = c0.update(v as int, Some(components));
    let vi = v as int;
    assert forall|s: int| 0 <= s < in_tree.len() && #[trigger] in_tree[s] implies exists|x: int|
        0 <= x < n && (#[trigger] parent[x]) is Some && parent[x].unwrap().1 == s by {
        if s == seg as int {
            assert(parent[vi] is Some && parent[vi].unwrap().1 == s);
        } else {
            assert(t0[s]);
            let x = choose|x: int| 0 <= x < n && (#[trigger] p0[x]) is Some && p0[x].unwrap().1 == s;
            assert(x != vi);
            assert(parent[x] == p0[x]);
        }
    }
    assert forall|x: int, y: int|
        0 <= x < n && 0 <= y < n && (#[trigger] comp[x]) is Some && comp[x] == (#[trigger] comp[y])
            && parent[x] is None implies x <= y by {
        assert(x != vi);
        assert(c0[x] == comp[x]);
        if comp[x] == Some(components) {
            assert(x == root);
            if y != vi {
                assert(c0[y] == comp[y]);
            }
        } else {
            assert(y != vi);
            assert(c0[y] == comp[y]);
        }
    }
}

impl Forest {
    /// Grows a breadth-first spanning forest of the segment graph, rooting
    /// each tree at the lowest-numbered node of its component.
    fn grow(node_count: usize, segs: &[(NodeId, NodeId)]) -> (f: Forest)
        requires
            ends_in_range(segs@, node_count as int),
        ensures
            f.wf(segs@, node_count as int),
            f.parent@ == bfs(segs@, node_count as int).parent,
            f.depth@ == bfs(segs@, node_count as int).depth,
            f.component@ == bfs(segs@, node_count as int).comp,
            f.in_tree@ == bfs(segs@, node_count as int).in_tree,
    {
        let n = node_count;
        let ghost ni = n as int;
        let ghost sg = segs@;
        let ghost lists = adj_lists(sg, ni);
        let ghost target = bfs(sg, ni);
        let adjacency = adjacency(n, segs);
        let mut parent: Vec<Option<(usize, usize, bool)>> = Vec::new();
        let mut depth: Vec<usize> = Vec::new();
        let mut component: Vec<Option<usize>> = Vec::new();
        let mut x: usize = 0;
        while x < n
            invariant
                x <= n,
                parent@.len() == x,
                depth@.len() == x,
                component@.len() == x,
                forall|y: int| 0 <= y < x ==> #[trigger] parent@[y] is None,
                forall|y: int| 0 <= y < x ==> #[trigger] depth@[y] == 0,
                forall|y: int| 0 <= y < x ==> #[trigger] component@[y] is None,
            decreases n - x,
        {
            parent.push(None);
            depth.push(0);
            component.push(None);
            x = x + 1;
        }
        let mut in_tree: Vec<bool> = Vec::new();
        let mut t: usize = 0;
        while t < segs.len()
            invariant
                t <= segs@.len(),
                in_tree@.len() == t,
                forall|y: int| 0 <= y < t ==> !#[trigger] in_tree@[y],
            decreases segs@.len() - t,
        {
            in_tree.push(false);
            t = t + 1;
        }
        let mut queue: Vec<usize> = Vec::new();
        let mut head: usize = 0;
        let mut components: usize = 0;
        let mut root: usize = 0;
        proof {
            reveal(bfs_inv);
            assert forall|y: int| 0 <= y < n implies ((#[trigger] component@[y]) is Some <==> queued(queue@, y)) by {
            }
            lemma_count_none_all(component@);
            assert(growth(parent@, depth@, component@, in_tree@, queue@, components) =~= seed(ni, sg.len() as int));
        }
        while root < n
            invariant
                root <= n,
                ni == n,
                sg == segs@,
                adjacency_of(sg, ni, adjacency@),
                parent@.len() == n,
                depth@.len() == n,
                component@.len() == n,
                in_tree@.len() == sg.len(),
                bfs_inv(adjacency@, parent@, depth@, component@, in_tree@, queue@, sg, ni, components),
                components <= root,
                forall|y: int| 0 <= y < n && (#[trigger] component@[y]) is Some ==> component@[y].unwrap() < components,
                forall|y: int| 0 <= y < root && (#[trigger] adjacency@[y])@.len() > 0 ==> component@[y] is Some,
                head == queue@.len(),
                closed_before(adjacency@, component@, queue@, head as int),
                links_used(parent@, in_tree@, ni),
                roots_least(parent@, component@, ni),
                lists == adj_lists(sg, ni),
                target == bfs(sg, ni),
                forall|y: int| 0 <= y < n ==> (#[trigger] adjacency@[y])@ == lists[y],
                count_none(component@) + queue@.len() == ni,
                sweep(lists, growth(parent@, depth@, component@, in_tree@, queue@, components), root as int) == target,
            decreases n - root,
        {
            if component[root].is_none() && adjacency[root].len() > 0 {
                proof {
                    lemma_start_root(adjacency@, parent@, depth@, component@, in_tree@, queue@, sg, ni, components, root);
                    lemma_roots_start(parent@, component@, ni, root as int, components);
                    reveal(bfs_inv);
                    assert(parent@[root as int] is None);
                }
                proof {
                    lemma_count_none_update(component@, root as int, components);
                }
                component.set(root, Some(components));
                queue.push(root);
                while head < queue.len()
                    invariant
                        root < n,
                        ni == n,
                        sg == segs@,
                        adjacency_of(sg, ni, adjacency@),
                        parent@.len() == n,
                        depth@.len() == n,
                        component@.len() == n,
                        in_tree@.len() == sg.len(),
                        bfs_inv(adjacency@, parent@, depth@, component@, in_tree@, queue@, sg, ni, components),
                        components <= root,
                        forall|y: int| 0 <= y < root && (#[trigger] adjacency@[y])@.len() > 0 ==> component@[y] is Some,
                        component@[root as int] is Some,
                        head <= queue@.len(),
                        closed_before(adjacency@, component@, queue@, head as int),
                        current_from(component@, queue@, head as int, components),
                        links_used(parent@, in_tree@, ni),
                        roots_least(parent@, component@, ni),
                        parent@[root as int] is None,
                        component@[root as int] == Some(components),
                        lists == adj_lists(sg, ni),
                        target == bfs(sg, ni),
                        forall|y: int| 0 <= y < n ==> (#[trigger] adjacency@[y])@ == lists[y],
                        count_none(component@) + queue@.len() == ni,
                        sweep(
                            lists,
                            next_label(drain(lists, growth(parent@, depth@, component@, in_tree@, queue@, components), head as int)),
                            root + 1,
                        ) == target,
                    decreases count_none(component@) + queue@.len() - head,
                {
                    proof {
                        reveal(bfs_inv);
                    }
                    let node = queue[head];
                    let ghost h = head as int;
                    proof {
                        let g = growth(parent@, depth@, component@, in_tree@, queue@, components);
                        assert(h < ni);
                        assert(drain(lists, g, h) == drain(lists, scan(g, node, lists[node as int], 0), h + 1));
                    }
                    head = head + 1;
                    proof {
                        assert(component@[node as int] == Some(components));
                        assert(depth@[node as int] <= h);
                    }
                    let mut i: usize = 0;
                    while i < adjacency[node].len()
                        invariant
                            root < n,
                            ni == n,
                            sg == segs@,
                            adjacency_of(sg, ni, adjacency@),
                            parent@.len() == n,
                            depth@.len() == n,
                            component@.len() == n,
                            in_tree@.len() == sg.len(),
                            bfs_inv(adjacency@, parent@, depth@, component@, in_tree@, queue@, sg, ni, components),
                            components <= root,
                            forall|y: int| 0 <= y < root && (#[trigger] adjacency@[y])@.len() > 0 ==> component@[y] is Some,
                            component@[root as int] is Some,
                            head == h + 1,
                            head <= queue@.len(),
                            queue@[h] == node,
                            (node as int) < n,
                            component@[node as int] == Some(components),
                            depth@[node as int] <= h,
                            closed_before(adjacency@, component@, queue@, h),
                            current_from(component@, queue@, h, components),
                            i <= adjacency@[node as int]@.len(),
                            forall|j: int| 0 <= j < i ==> component@[(#[trigger] adjacency@[node as int]@[j]).0 as int] == Some(components),
                            count_none(component@) + queue@.len() == ni,
                            lists == adj_lists(sg, ni),
                            target == bfs(sg, ni),
                            forall|y: int| 0 <= y < n ==> (#[trigger] adjacency@[y])@ == lists[y],
                            sweep(
                                lists,
                                next_label(drain(
                                    lists,
                                    scan(growth(parent@, depth@, component@, in_tree@, queue@, components), node, lists[node as int], i as int),
                                    head as int,
                                )),
                                root + 1,
                            ) == target,
                            links_used(parent@, in_tree@, ni),
                            roots_least(parent@, component@, ni),
                            parent@[root as int] is None,
                            component@[root as int] == Some(components),
                        decreases adjacency@[node as int]@.len() - i,
                    {
                        let (next, segment, forwards) = adjacency[node][i];
                        let ghost g0 = growth(parent@, depth@, component@, in_tree@, queue@, components);
                        proof {
                            assert(adjacent_entry(sg, ni, node as int, adjacency@[node as int]@[i as int]));
                            assert(lists[node as int][i as int] == (next, segment, forwards));
                        }
                        if component[next].is_none() {
                            proof {
                                lemma_discover(adjacency@, parent@, depth@, component@, in_tree@, queue@, sg, ni, components, h, node, next, segment, forwards);
                                reveal(bfs_inv);
                                lemma_neighbour_listed(sg, ni, adjacency@, node as int, (next, segment, forwards));
                                assert(root <= next);
                                lemma_orders_discover(parent@, component@, in_tree@, ni, root as int, components, node, next, segment, forwards);
                            }
                            let ghost c0 = component@;
                            let d = depth[node] + 1;
                            component.set(next, Some(components));
                            parent.set(next, Some((node, segment, forwards)));
                            depth.set(next, d);
                            in_tree.set(segment, true);
                            queue.push(next);
                            proof {
                                assert(growth(parent@, depth@, component@, in_tree@, queue@, components)
                                    =~= visit(g0, node, (next, segment, forwards)));
                                assert forall|j: int| 0 <= j < i + 1 implies component@[(#[trigger] adjacency@[node as int]@[j]).0 as int] == Some(components) by {
                                    if j < i {
                                        assert(c0[adjacency@[node as int]@[j].0 as int] == Some(components));
                                    }
                                }
                                assert(queue@[h] == node);
                            }
                        } else {
                            proof {
                                lemma_seen(adjacency@, parent@, depth@, component@, in_tree@, queue@, sg, ni, components, h, node, next, segment, forwards);
                            }
                        }
                        i = i + 1;
                    }
                    proof {
                        assert(closed_node(adjacency@, component@, node as int));
                        assert forall|k: int| 0 <= k < head implies #[trigger] closed_node(adjacency@, component@, queue@[k] as int) by {
                        }
                    }
                }
                let ghost done = growth(parent@, depth@, component@, in_tree@, queue@, components);
                proof {
                    reveal(bfs_inv);
                    assert(drain(lists, done, head as int) == done);
                }
                components = components + 1;
                proof {
                    assert(growth(parent@, depth@, component@, in_tree@, queue@, components) =~= next_label(done));
                }
            }
            root = root + 1;
        }
        let f = Forest { parent, depth, component, in_tree };
        proof {
            reveal(bfs_inv);
            assert forall|s: int|
                0 <= s < sg.len() implies component@[(#[trigger] ends(sg, s)).0] is Some
                    && component@[ends(sg, s).0] == component@[ends(sg, s).1] by {
                let (a, b) = ends(sg, s);
                assert(both_listed(sg, adjacency@, s));
                let j = choose|j: int| 0 <= j < adjacency@[a]@.len() && adjacency@[a]@[j] == (b as usize, s as usize, true);
                assert(adjacency@[a]@.len() > 0);
                assert(queued(queue@, a));
                let k = choose|k: int| 0 <= k < queue@.len() && queue@[k] == a;
                assert(closed_node(adjacency@, component@, queue@[k] as int));
                assert(component@[adjacency@[a]@[j].0 as int] == component@[a]);
            }
        }
        f
    }
}

/// A signed entry list as integers.
pub open spec fn entries_view(row: Seq<(usize, i8)>) -> Seq<(int, int)> {
    row.map_values(|e: (usize, i8)| (e.0 as int, e.1 as int))
}

/// The signed tree segments from `x` to `y` through their common ancestor:
/// the deeper end climbs to its parent (the start's side first on a tie),
/// each climb from the start's side run child → parent, each from the end's
/// side parent → child.
pub open spec fn tree_path(
    parent: Seq<Option<(usize, usize, bool)>>,
    depth: Seq<usize>,
    x: int,
    y: int,
) -> Seq<(int, int)>
    decreases depth[x] + depth[y],
{
    if x == y {
        Seq::empty()
    } else if depth[x] >= depth[y] {
        match parent[x] {
            Some((p, s, fwd)) => if depth[p as int] < depth[x] {
                seq![(s as int, if fwd { -1int } else { 1int })] + tree_path(parent, depth, p as int, y)
            } else {
                Seq::empty()
            },
            None => Seq::empty(),
        }
    } else {
        match parent[y] {
            Some((p, s, fwd)) => if depth[p as int] < depth[y] {
                tree_path(parent, depth, x, p as int).push((s as int, if fwd { 1int } else { -1int }))
            } else {
                Seq::empty()
            },
            None => Seq::empty(),
        }
    }
}

/// Climbing from the start's side moves the step from the path still to go
/// onto the path walked.
proof fn lemma_path_climb_start(
    parent: Seq<Option<(usize, usize, bool)>>,
    depth: Seq<usize>,
    x: int,
    y: int,
    u: Seq<(int, int)>,
    w: Seq<(int, int)>,
)
    requires
        x != y,
        depth[x] >= depth[y],
        parent[x] is Some,
        depth[x] == depth[parent[x].unwrap().0 as int] + 1,
    ensures
        ({
            let (p, s, fwd) = parent[x].unwrap();
            let e = (s as int, if fwd { -1int } else { 1int });
            u + tree_path(parent, depth, x, y) + w.reverse() == u.push(e) + tree_path(parent, depth, p as int, y)
                + w.reverse()
        }),
{
    let (p, s, fwd) = parent[x].unwrap();
    let e = (s as int, if fwd { -1int } else { 1int });
    let rest = tree_path(parent, depth, p as int, y);
    assert(tree_path(parent, depth, x, y) == seq![e] + rest);
    assert(u + (seq![e] + rest) + w.reverse() =~= u.push(e) + rest + w.reverse());
}

/// Climbing from the end's side moves the last step of the path still to
/// go onto the path climbed from the end.
proof fn lemma_path_climb_end(
    parent: Seq<Option<(usize, usize, bool)>>,
    depth: Seq<usize>,
    x: int,
    y: int,
    u: Seq<(int, int)>,
    w: Seq<(int, int)>,
)
    requires
        x != y,
        depth[x] < depth[y],
        parent[y] is Some,
        depth[y] == depth[parent[y].unwrap().0 as int] + 1,
    ensures
        ({
            let (p, s, fwd) = parent[y].unwrap();
            let e = (s as int, if fwd { 1int } else { -1int });
            u + tree_path(parent, depth, x, y) + w.reverse() == u + tree_path(parent, depth, x, p as int)
                + w.push(e).reverse()
        }),
{
    let (p, s, fwd) = parent[y].unwrap();
    let e = (s as int, if fwd { 1int } else { -1int });
    let rest = tree_path(parent, depth, x, p as int);
    assert(tree_path(parent, depth, x, y) == rest.push(e));
    assert(w.push(e).reverse() =~= seq![e] + w.reverse());
    assert(u + rest.push(e) + w.reverse() =~= u + rest + w.push(e).reverse());
}

/// Segments left out of the forest.
pub open spec fn count_false(s: Seq<bool>) -> nat
    decreases s.len(),
{
    if s.len() == 0 {
        0
    } else {
        count_false(s.drop_last()) + if !s.last() {
            1nat
        } else {
            0nat
        }
    }
}

/// Appending an entry adds its contribution to the divergence.
proof fn lemma_divergence_push(segs: Seq<(NodeId, NodeId)>, row: Seq<(int, int)>, e: (int, int), v: int)
    ensures
        divergence(segs, row.push(e), v) == divergence(segs, row, v) + e.1 * source_sink(
            ends(segs, e.0).0,
            ends(segs, e.0).1,
            v,
        ),
{
    assert(row.push(e).drop_last() =~= row);
    assert(row.push(e).last() == e);
}

/// Pushing a signed segment that carries current from `c` to `d` adds a
/// source at `c` and a sink at `d`.
proof fn lemma_push_carrying(segs: Seq<(NodeId, NodeId)>, row: Seq<(int, int)>, e: (int, int), c: int, d: int)
    requires
        (ends(segs, e.0) == (c, d) && e.1 == 1) || (ends(segs, e.0) == (d, c) && e.1 == -1),
    ensures
        forall|v: int| #[trigger] divergence(segs, row.push(e), v) == divergence(segs, row, v) + source_sink(c, d, v),
{
    assert forall|v: int| #[trigger] divergence(segs, row.push(e), v) == divergence(segs, row, v) + source_sink(c, d, v) by {
        lemma_divergence_push(segs, row, e, v);
    }
}

/// Bookkeeping of `Forest::path`: the nodes `un` left by climbing from the
/// start and `dn` left by climbing from the end, each entry the parent link
/// of its node; all deeper than where the climbs stand, and all distinct.
#[verifier::opaque]
spec fn ledger(
    f: &Forest,
    n: int,
    u: Seq<(int, int)>,
    w: Seq<(int, int)>,
    un: Seq<int>,
    dn: Seq<int>,
    x: int,
    y: int,
) -> bool {
    &&& un.len() == u.len()
    &&& dn.len() == w.len()
    &&& forall|k: int|
        0 <= k < un.len() ==> 0 <= #[trigger] un[k] < n && f.parent@[un[k]] is Some && f.parent@[un[k]].unwrap().1
            == u[k].0
    &&& forall|k: int|
        0 <= k < dn.len() ==> 0 <= #[trigger] dn[k] < n && f.parent@[dn[k]] is Some && f.parent@[dn[k]].unwrap().1
            == w[k].0
    &&& forall|k: int|
        0 <= k < un.len() ==> f.depth@[#[trigger] un[k]] > f.depth@[x] && (f.depth@[y] < f.depth@[un[k]] || (
        f.depth@[y] == f.depth@[un[k]] && y != un[k]))
    &&& forall|k: int| 0 <= k < dn.len() ==> f.depth@[#[trigger] dn[k]] > f.depth@[y] && f.depth@[dn[k]] > f.depth@[x]
    &&& forall|a: int, b: int| 0 <= a < b < un.len() ==> #[trigger] un[a] != #[trigger] un[b]
    &&& forall|a: int, b: int| 0 <= a < b < dn.len() ==> #[trigger] dn[a] != #[trigger] dn[b]
    &&& forall|a: int, b: int| 0 <= a < un.len() && 0 <= b < dn.len() ==> #[trigger] un[a] != #[trigger] dn[b]
}

proof fn lemma_ledger_start(f: &Forest, n: int, x: int, y: int)
    ensures
        ledger(f, n, Seq::empty(), Seq::empty(), Seq::empty(), Seq::empty(), x, y),
{
    reveal(ledger);
}

/// Climbing from the start's side, from `x` along its parent link `e`.
proof fn lemma_ledger_climb_x(
    f: &Forest,
    segs: Seq<(NodeId, NodeId)>,
    n: int,
    u: Seq<(int, int)>,
    w: Seq<(int, int)>,
    un: Seq<int>,
    dn: Seq<int>,
    x: int,
    y: int,
    e: (int, int),
)
    requires
        f.wf(segs, n),
        ledger(f, n, u, w, un, dn, x, y),
        0 <= x < n,
        0 <= y < n,
        x != y,
        f.depth@[x] >= f.depth@[y],
        f.parent@[x] is Some,
        e.0 == f.parent@[x].unwrap().1,
    ensures
        ledger(f, n, u.push(e), w, un.push(x), dn, f.parent@[x].unwrap().0 as int, y),
{
    reveal(ledger);
    let p = f.parent@[x].unwrap().0 as int;
    let un2 = un.push(x);
    let u2 = u.push(e);
    assert(f.depth@[x] == f.depth@[p] + 1);
    assert forall|k: int| 0 <= k < un2.len() implies 0 <= #[trigger] un2[k] < n && f.parent@[un2[k]] is Some
        && f.parent@[un2[k]].unwrap().1 == u2[k].0 by {
        if k < un.len() {
            assert(un2[k] == un[k]);
            assert(u2[k] == u[k]);
        }
    }
    assert forall|k: int| 0 <= k < un2.len() implies f.depth@[#[trigger] un2[k]] > f.depth@[p] && (f.depth@[y]
        < f.depth@[un2[k]] || (f.depth@[y] == f.depth@[un2[k]] && y != un2[k])) by {
        if k < un.len() {
            assert(un2[k] == un[k]);
        }
    }
    assert forall|k: int| 0 <= k < dn.len() implies f.depth@[#[trigger] dn[k]] > f.depth@[y] && f.depth@[dn[k]] > f.depth@[p] by {
    }
    assert forall|a: int, b: int| 0 <= a < b < un2.len() implies #[trigger] un2[a] != #[trigger] un2[b] by {
        assert(un2[a] == un[a]);
        if b < un.len() {
            assert(un2[b] == un[b]);
        }
    }
    assert forall|a: int, b: int| 0 <= a < un2.len() && 0 <= b < dn.len() implies #[trigger] un2[a] != #[trigger] dn[b] by {
        if a < un.len() {
            assert(un2[a] == un[a]);
        }
    }
}

/// Climbing from the end's side, from `y` along its parent link `e`.
proof fn lemma_ledger_climb_y(
    f: &Forest,
    segs: Seq<(NodeId, NodeId)>,
    n: int,
    u: Seq<(int, int)>,
    w: Seq<(int, int)>,
    un: Seq<int>,
    dn: Seq<int>,
    x: int,
    y: int,
    e: (int, int),
)
    requires
        f.wf(segs, n),
        ledger(f, n, u, w, un, dn, x, y),
        0 <= x < n,
        0 <= y < n,
        f.depth@[x] < f.depth@[y],
        f.parent@[y] is Some,
        e.0 == f.parent@[y].unwrap().1,
    ensures
        ledger(f, n, u, w.push(e), un, dn.push(y), x, f.parent@[y].unwrap().0 as int),
{
    reveal(ledger);
    let q = f.parent@[y].unwrap().0 as int;
    let dn2 = dn.push(y);
    let w2 = w.push(e);
    assert(f.depth@[y] == f.depth@[q] + 1);
    assert forall|k: int| 0 <= k < dn2.len() implies 0 <= #[trigger] dn2[k] < n && f.parent@[dn2[k]] is Some
        && f.parent@[dn2[k]].unwrap().1 == w2[k].0 by {
        if k < dn.len() {
            assert(dn2[k] == dn[k]);
            assert(w2[k] == w[k]);
        }
    }
    assert forall|k: int| 0 <= k < dn2.len() implies f.depth@[#[trigger] dn2[k]] > f.depth@[q] && f.depth@[dn2[k]] > f.depth@[x] by {
        if k < dn.len() {
            assert(dn2[k] == dn[k]);
        }
    }
    assert forall|k: int| 0 <= k < un.len() implies f.depth@[#[trigger] un[k]] > f.depth@[x] && (f.depth@[q]
        < f.depth@[un[k]] || (f.depth@[q] == f.depth@[un[k]] && q != un[k])) by {
    }
    assert forall|a: int, b: int| 0 <= a < b < dn2.len() implies #[trigger] dn2[a] != #[trigger] dn2[b] by {
        assert(dn2[a] == dn[a]);
        if b < dn.len() {
            assert(dn2[b] == dn[b]);
        }
    }
    assert forall|a: int, b: int| 0 <= a < un.len() && 0 <= b < dn2.len() implies #[trigger] un[a] != #[trigger] dn2[b] by {
        if b < dn.len() {
            assert(dn2[b] == dn[b]);
        }
    }
}

/// Once the climbs meet, the parent links climbed are all different.
proof fn lemma_ledger_distinct(
    f: &Forest,
    segs: Seq<(NodeId, NodeId)>,
    n: int,
    u: Seq<(int, int)>,
    w: Seq<(int, int)>,
    un: Seq<int>,
    dn: Seq<int>,
    x: int,
)
    requires
        f.wf(segs, n),
        ledger(f, n, u, w, un, dn, x, x),
    ensures
        forall|a: int, b: int| 0 <= a < b < u.len() ==> (#[trigger] u[a]).0 != (#[trigger] u[b]).0,
        forall|a: int, b: int| 0 <= a < b < w.len() ==> (#[trigger] w[a]).0 != (#[trigger] w[b]).0,
        forall|a: int, b: int| 0 <= a < u.len() && 0 <= b < w.len() ==> (#[trigger] u[a]).0 != (#[trigger] w[b]).0,
{
    reveal(ledger);
    assert forall|a: int, b: int| 0 <= a < b < u.len() implies (#[trigger] u[a]).0 != (#[trigger] u[b]).0 by {
        if u[a].0 == u[b].0 {
            lemma_parent_segment_injective(f, segs, n, un[a], un[b]);
        }
    }
    assert forall|a: int, b: int| 0 <= a < b < w.len() implies (#[trigger] w[a]).0 != (#[trigger] w[b]).0 by {
        if w[a].0 == w[b].0 {
            lemma_parent_segment_injective(f, segs, n, dn[a], dn[b]);
        }
    }
    assert forall|a: int, b: int| 0 <= a < u.len() && 0 <= b < w.len() implies (#[trigger] u[a]).0 != (#[trigger] w[b]).0 by {
        if u[a].0 == w[b].0 {
            lemma_parent_segment_injective(f, segs, n, un[a], dn[b]);
        }
    }
}

proof fn lemma_climbed_push(segs: Seq<(NodeId, NodeId)>, w: Seq<(int, int)>, y: int, to: int, e: (int, int))
    requires
        climbed(segs, w, y, to),
        enters(segs, e) == y,
    ensures
        climbed(segs, w.push(e), leaves(segs, e), to),
{
    let wn = w.push(e);
    assert forall|k: int| 0 <= k < wn.len() - 1 implies #[trigger] leaves(segs, wn[k]) == enters(segs, wn[k + 1]) by {
        assert(wn[k] == w[k]);
        if k + 1 < w.len() {
            assert(wn[k + 1] == w[k + 1]);
            assert(leaves(segs, w[k]) == enters(segs, w[k + 1]));
        }
    }
    if w.len() > 0 {
        assert(wn[0] == w[0]);
    }
}

/// A forest segment joins a node and its parent.
proof fn lemma_tree_segment(f: &Forest, segs: Seq<(NodeId, NodeId)>, n: int, s: int) -> (c: int)
    requires
        f.wf(segs, n),
        0 <= s < segs.len(),
        f.in_tree@[s],
    ensures
        0 <= c < n,
        f.parent@[c] is Some,
        f.parent@[c].unwrap().1 == s,
        ends(segs, s) == (f.parent@[c].unwrap().0 as int, c) || ends(segs, s) == (c, f.parent@[c].unwrap().0 as int),
        f.depth@[c] == f.depth@[f.parent@[c].unwrap().0 as int] + 1,
{
    let c = choose|x: int| 0 <= x < n && (#[trigger] f.parent@[x]) is Some && f.parent@[x].unwrap().1 == s;
    c
}

/// Of the nodes `r` leaves, one as deep as any other.
proof fn lemma_deepest(f: &Forest, segs: Seq<(NodeId, NodeId)>, r: Seq<(int, int)>, m: int) -> (k: int)
    requires
        1 <= m <= r.len(),
    ensures
        0 <= k < m,
        forall|j: int| 0 <= j < m ==> f.depth@[leaves(segs, #[trigger] r[j])] <= f.depth@[leaves(segs, r[k])],
    decreases m,
{
    if m == 1 {
        0
    } else {
        let k = lemma_deepest(f, segs, r, m - 1);
        if f.depth@[leaves(segs, r[m - 1])] > f.depth@[leaves(segs, r[k])] {
            m - 1
        } else {
            k
        }
    }
}

/// The forest has no cycle: a closed trail along forest segments is empty.
#[verifier::spinoff_prover]
#[verifier::rlimit(30)]
proof fn lemma_forest_acyclic(f: &Forest, segs: Seq<(NodeId, NodeId)>, n: int, r: Seq<(int, int)>, v: int)
    requires
        f.wf(segs, n),
        ends_in_range(segs, n),
        signed_segments(segs, r),
        on_tree(f.in_tree@, r),
        trail(segs, r, v, v),
    ensures
        r.len() == 0,
{
    if r.len() > 0 {
        let m = r.len() as int;
        let k = lemma_deepest(f, segs, r, m);
        let z = leaves(segs, r[k]);
        // The entry leaving z climbs to z's parent.
        let out = r[k];
        let y = enters(segs, out);
        let next = if k + 1 < m { k + 1 } else { 0 };
        if k + 1 < m {
            assert(enters(segs, r[k]) == leaves(segs, r[k + 1]));
        }
        assert(y == leaves(segs, r[next]));
        assert(f.depth@[y] <= f.depth@[z]);
        assert(f.in_tree@[out.0]);
        let c = lemma_tree_segment(f, segs, n, out.0);
        assert(c == z);
        // The entry entering z comes down from z's parent too.
        let prev = if k > 0 { k - 1 } else { m - 1 };
        let inn = r[prev];
        if k > 0 {
            assert(enters(segs, r[k - 1]) == leaves(segs, r[k]));
        }
        assert(enters(segs, inn) == z);
        let w = leaves(segs, inn);
        assert(f.depth@[w] <= f.depth@[z]);
        assert(f.in_tree@[inn.0]);
        let c2 = lemma_tree_segment(f, segs, n, inn.0);
        assert(c2 == z);
        if m == 1 {
            assert(prev == k);
        } else {
            assert(prev != k);
            if prev < k {
                assert(r[prev].0 != r[k].0);
            } else {
                assert(r[k].0 != r[prev].0);
            }
        }
    }
}

impl Forest {
    /// Number of segments left out of the forest: one conductor loop each.
    fn link_count(&self) -> (r: usize)
        ensures
            r == count_false(self.in_tree@),
    {
        let mut count: usize = 0;
        let mut s: usize = 0;
        while s < self.in_tree.len()
            invariant
                s <= self.in_tree@.len(),
                count == count_false(self.in_tree@.take(s as int)),
                count <= s,
            decreases self.in_tree@.len() - s,
        {
            proof {
                assert(self.in_tree@.take(s as int + 1).drop_last() =~= self.in_tree@.take(s as int));
            }
            if !self.in_tree[s] {
                count = count + 1;
            }
            s = s + 1;
        }
        proof {
            assert(self.in_tree@.take(s as int) =~= self.in_tree@);
        }
        count
    }

    /// The signed tree segments traversed from `from` to `to`, which must be
    /// in the same component: it carries a unit current from `from` to
    /// `to`.
    fn path(&self, from: usize, to: usize, Ghost(sg): Ghost<Seq<(NodeId, NodeId)>>, Ghost(n): Ghost<int>) -> (r: Vec<(usize, i8)>)
        requires
            self.wf(sg, n),
            (from as int) < n,
            (to as int) < n,
            self.component@[from as int] is Some,
            self.component@[from as int] == self.component@[to as int],
        ensures
            signed_segments(sg, entries_view(r@)),
            on_tree(self.in_tree@, entries_view(r@)),
            forall|v: int| #[trigger] divergence(sg, entries_view(r@), v) == source_sink(from as int, to as int, v),
            trail(sg, entries_view(r@), from as int, to as int),
            entries_view(r@) == tree_path(self.parent@, self.depth@, from as int, to as int),
    {
        let ghost target = tree_path(self.parent@, self.depth@, from as int, to as int);
        let mut up: Vec<(usize, i8)> = Vec::new();
        let mut down: Vec<(usize, i8)> = Vec::new();
        let mut x = from;
        let mut y = to;
        proof {
            assert(entries_view(up@) =~= Seq::<(int, int)>::empty());
            assert(entries_view(down@) =~= Seq::<(int, int)>::empty());
        }
        let ghost mut un: Seq<int> = Seq::empty();
        let ghost mut dn: Seq<int> = Seq::empty();
        proof {
            lemma_ledger_start(self, n, x as int, y as int);
            assert(entries_view(up@) =~= Seq::<(int, int)>::empty());
        }
        while x != y
            invariant
                self.wf(sg, n),
                walk(sg, entries_view(up@), from as int, x as int),
                climbed(sg, entries_view(down@), y as int, to as int),
                ledger(self, n, entries_view(up@), entries_view(down@), un, dn, x as int, y as int),
                (x as int) < n,
                (y as int) < n,
                self.component@[x as int] is Some,
                self.component@[x as int] == self.component@[y as int],
                signed_segments(sg, entries_view(up@)),
                signed_segments(sg, entries_view(down@)),
                on_tree(self.in_tree@, entries_view(up@)),
                on_tree(self.in_tree@, entries_view(down@)),
                forall|v: int| #[trigger] divergence(sg, entries_view(up@), v) == source_sink(from as int, x as int, v),
                forall|v: int| #[trigger] divergence(sg, entries_view(down@), v) == source_sink(y as int, to as int, v),
                target == tree_path(self.parent@, self.depth@, from as int, to as int),
                entries_view(up@) + tree_path(self.parent@, self.depth@, x as int, y as int) + entries_view(down@).reverse()
                    == target,
            decreases self.depth@[x as int] + self.depth@[y as int],
        {
            let ghost u0 = entries_view(up@);
            let ghost w0 = entries_view(down@);
            if self.depth[x] >= self.depth[y] {
                let (p, segment, forwards) = match self.parent[x] {
                    Some(link) => link,
                    None => {
                        proof {
                            assert(self.depth@[x as int] == 0);
                            assert(self.parent@[y as int] is None);
                            assert(false);
                        }
                        return up;
                    },
                };
                // Moving child → parent runs against a parent → child segment.
                let sign: i8 = if forwards { -1 } else { 1 };
                up.push((segment, sign));
                proof {
                    let e = (segment as int, sign as int);
                    assert(self.parent@[x as int] == Some((p, segment, forwards)));
                    if forwards {
                        assert(ends(sg, segment as int) == (p as int, x as int));
                    } else {
                        assert(ends(sg, segment as int) == (x as int, p as int));
                    }
                    assert(entries_view(up@) =~= u0.push(e));
                    lemma_push_carrying(sg, u0, e, x as int, p as int);
                    assert forall|v: int| #[trigger] divergence(sg, entries_view(up@), v) == source_sink(from as int, p as int, v) by {
                        assert(divergence(sg, u0, v) == source_sink(from as int, x as int, v));
                    }
                    assert forall|k: int| 0 <= k < entries_view(up@).len() implies 0 <= (#[trigger] entries_view(up@)[k]).0 < sg.len()
                        && (entries_view(up@)[k].1 == 1 || entries_view(up@)[k].1 == -1) by {
                        if k < u0.len() {
                            assert(entries_view(up@)[k] == u0[k]);
                        }
                    }
                    assert(self.in_tree@[segment as int]);
                    assert forall|k: int| 0 <= k < entries_view(up@).len() implies #[trigger] self.in_tree@[entries_view(up@)[k].0] by {
                        if k < u0.len() {
                            assert(entries_view(up@)[k] == u0[k]);
                        }
                    }
                    assert(leaves(sg, e) == x as int && enters(sg, e) == p as int);
                    lemma_walk_push(sg, u0, from as int, x as int, e);
                    lemma_ledger_climb_x(self, sg, n, u0, w0, un, dn, x as int, y as int, e);
                    un = un.push(x as int);
                    lemma_path_climb_start(self.parent@, self.depth@, x as int, y as int, u0, w0);
                }
                x = p;
            } else {
                let (p, segment, forwards) = match self.parent[y] {
                    Some(link) => link,
                    None => {
                        proof {
                            assert(self.depth@[y as int] == 0);
                            assert(false);
                        }
                        return up;
                    },
                };
                let sign: i8 = if forwards { 1 } else { -1 };
                down.push((segment, sign));
                proof {
                    let e = (segment as int, sign as int);
                    assert(entries_view(down@) =~= w0.push(e));
                    assert(self.parent@[y as int] == Some((p, segment, forwards)));
                    lemma_push_carrying(sg, w0, e, p as int, y as int);
                    assert forall|v: int| #[trigger] divergence(sg, entries_view(down@), v) == source_sink(p as int, to as int, v) by {
                        assert(divergence(sg, w0, v) == source_sink(y as int, to as int, v));
                    }
                    assert forall|k: int| 0 <= k < entries_view(down@).len() implies 0 <= (#[trigger] entries_view(down@)[k]).0 < sg.len()
                        && (entries_view(down@)[k].1 == 1 || entries_view(down@)[k].1 == -1) by {
                        if k < w0.len() {
                            assert(entries_view(down@)[k] == w0[k]);
                        }
                    }
                    assert(self.in_tree@[segment as int]);
                    assert forall|k: int| 0 <= k < entries_view(down@).len() implies #[trigger] self.in_tree@[entries_view(down@)[k].0] by {
                        if k < w0.len() {
                            assert(entries_view(down@)[k] == w0[k]);
                        }
                    }
                    assert(leaves(sg, e) == p as int && enters(sg, e) == y as int);
                    lemma_climbed_push(sg, w0, y as int, to as int, e);
                    lemma_ledger_climb_y(self, sg, n, u0, w0, un, dn, x as int, y as int, e);
                    dn = dn.push(y as int);
                    lemma_path_climb_end(self.parent@, self.depth@, x as int, y as int, u0, w0);
                }
                y = p;
            }
        }
        // `up` reaches the meeting node; `down`, taken backwards, leaves it.
        let ghost w = entries_view(down@);
        proof {
            lemma_ledger_distinct(self, sg, n, entries_view(up@), w, un, dn, x as int);
        }
        let mut k = down.len();
        proof {
            assert(w.take(k as int) =~= w);
            assert(entries_view(up@) + w.reverse() =~= entries_view(up@) + tree_path(self.parent@, self.depth@, x as int, y as int) + w.reverse());
        }
        while k > 0
            invariant
                k <= down@.len(),
                w == entries_view(down@),
                x == y,
                walk(sg, entries_view(up@), from as int, if k == w.len() {
                    x as int
                } else {
                    enters(sg, w[k as int])
                }),
                climbed(sg, w, x as int, to as int),
                forall|a: int, b: int| 0 <= a < b < entries_view(up@).len() ==> (#[trigger] entries_view(up@)[a]).0 != (#[trigger] entries_view(up@)[b]).0,
                forall|a: int, b: int| 0 <= a < entries_view(up@).len() && 0 <= b < k ==> (#[trigger] entries_view(up@)[a]).0 != (#[trigger] w[b]).0,
                forall|a: int, b: int| 0 <= a < b < w.len() ==> (#[trigger] w[a]).0 != (#[trigger] w[b]).0,
                signed_segments(sg, entries_view(up@)),
                signed_segments(sg, w),
                on_tree(self.in_tree@, entries_view(up@)),
                on_tree(self.in_tree@, w),
                forall|v: int| #[trigger] divergence(sg, entries_view(up@), v) + divergence(sg, w.take(k as int), v)
                    == source_sink(from as int, x as int, v) + source_sink(x as int, to as int, v),
                entries_view(up@) + w.take(k as int).reverse() == target,
            decreases k,
        {
            k = k - 1;
            let e = down[k];
            let ghost u0 = entries_view(up@);
            up.push(e);
            proof {
                let ei = (e.0 as int, e.1 as int);
                assert(w[k as int] == ei);
                assert(entries_view(up@) =~= u0.push(ei));
                assert(w.take(k as int + 1).drop_last() =~= w.take(k as int));
                assert(w.take(k as int + 1).last() == ei);
                assert(w.take(k as int + 1).reverse() =~= seq![ei] + w.take(k as int).reverse());
                assert(u0 + w.take(k as int + 1).reverse() =~= u0.push(ei) + w.take(k as int).reverse());
                assert forall|v: int| #[trigger] divergence(sg, entries_view(up@), v) + divergence(sg, w.take(k as int), v)
                    == source_sink(from as int, x as int, v) + source_sink(x as int, to as int, v) by {
                    lemma_divergence_push(sg, u0, ei, v);
                }
                assert forall|j: int| 0 <= j < entries_view(up@).len() implies 0 <= (#[trigger] entries_view(up@)[j]).0 < sg.len()
                    && (entries_view(up@)[j].1 == 1 || entries_view(up@)[j].1 == -1) by {
                    if j < u0.len() {
                        assert(entries_view(up@)[j] == u0[j]);
                    }
                }
                assert(self.in_tree@[w[k as int].0]);
                assert forall|j: int| 0 <= j < entries_view(up@).len() implies #[trigger] self.in_tree@[entries_view(up@)[j].0] by {
                    if j < u0.len() {
                        assert(entries_view(up@)[j] == u0[j]);
                    }
                }
                let node = if k + 1 == w.len() {
                    x as int
                } else {
                    enters(sg, w[k + 1])
                };
                if k + 1 < w.len() {
                    assert(leaves(sg, w[k as int]) == enters(sg, w[k + 1]));
                }
                assert(leaves(sg, ei) == node);
                lemma_walk_push(sg, u0, from as int, node, ei);
                let un2 = entries_view(up@);
                assert forall|a: int, b: int| 0 <= a < b < un2.len() implies (#[trigger] un2[a]).0 != (#[trigger] un2[b]).0 by {
                    assert(un2[a] == u0[a]);
                    if b < u0.len() {
                        assert(un2[b] == u0[b]);
                    }
                }
                assert forall|a: int, b: int| 0 <= a < un2.len() && 0 <= b < k implies (#[trigger] un2[a]).0 != (#[trigger] w[b]).0 by {
                    if a < u0.len() {
                        assert(un2[a] == u0[a]);
                    }
                }
            }
        }
        proof {
            assert(w.take(0) =~= Seq::<(int, int)>::empty());
            assert(w.take(0).reverse() =~= Seq::<(int, int)>::empty());
            assert(entries_view(up@) + w.take(0).reverse() =~= entries_view(up@));
            assert forall|v: int| #[trigger] divergence(sg, entries_view(up@), v) == source_sink(from as int, to as int, v) by {
                assert(divergence(sg, w.take(0), v) == 0);
            }
        }
        up
    }
}


/// Two distinct nodes share a component exactly when a chain of segments
/// joins them.
proof fn lemma_same_component(f: &Forest, segs: Seq<(NodeId, NodeId)>, n: int, a: int, b: int)
    requires
        f.wf(segs, n),
        0 <= a < n,
        0 <= b < n,
        a != b,
    ensures
        (f.component@[a] is Some && f.component@[a] == f.component@[b]) <==> connected(
            seg_edge(segs),
            n,
            a,
            b,
        ),
{
    let comp = f.component@;
    if connected(seg_edge(segs), n, a, b) {
        let label = |x: int|
            if 0 <= x < n && comp[x] is Some {
                comp[x].unwrap() as int
            } else {
                -1 - x
            };
        assert forall|x: int, y: int|
            0 <= x < n && 0 <= y < n && #[trigger] seg_edge(segs)(x, y) implies label(x) == label(
                y,
            ) by {
            let s = choose|s: int| 0 <= s < segs.len() && #[trigger] joins(segs, s, x, y);
            assert(comp[ends(segs, s).0] is Some);
        }
        lemma_connected_keeps_label(seg_edge(segs), n, label, a, b);
    }
}

// ---------------------------------------------------------------------------
// The loop basis.
// ---------------------------------------------------------------------------

/// Branch of filament `0` of segment `s`: branches are numbered segment by
/// segment.
pub open spec fn first_branch(counts: Seq<usize>, s: int) -> int {
    prefix_sum(counts, s)
}

/// A signed list of segments realised on filament `0` of each.
pub open spec fn lift(counts: Seq<usize>, row: Seq<(int, int)>) -> Seq<(int, int)> {
    row.map_values(|e: (int, int)| (first_branch(counts, e.0), e.1))
}

/// Row at which the bundle loops of segment `s` begin: every earlier
/// segment has one fewer than its filaments.
pub open spec fn bundle_start(counts: Seq<usize>, s: int) -> int {
    prefix_sum(counts, s) - s
}

/// Row of the bundle loop of filament `k` (`k >= 1`) of segment `s`.
pub open spec fn bundle_index(counts: Seq<usize>, s: int, k: int) -> int {
    bundle_start(counts, s) + k - 1
}

/// Branch of filament `k` of segment `s`.
pub open spec fn bundle_branch(counts: Seq<usize>, s: int, k: int) -> int {
    first_branch(counts, s) + k
}

/// The bundle loop of filament `k` of segment `s`: forwards along it, back
/// along filament `0`.
pub open spec fn bundle_row(counts: Seq<usize>, s: int, k: int) -> Seq<(int, int)> {
    seq![(bundle_branch(counts, s, k), 1int), (first_branch(counts, s), -1int)]
}

/// Branch `b` occurs in `row`.
pub open spec fn uses(row: Seq<(int, int)>, b: int) -> bool {
    exists|k: int| 0 <= k < row.len() && (#[trigger] row[k]).0 == b
}

/// Every internal loop has a branch of its own: the forward branch of a
/// bundle loop occurs in no other loop, and the first branch of a conductor
/// loop in no other conductor or port loop. Internal loops are therefore
/// linearly independent, of each other and of the port loops.
pub open spec fn own_branches(counts: Seq<usize>, rows: Seq<Seq<(int, int)>>, internal: int) -> bool {
    let bs = bundle_start(counts, counts.len() as int);
    &&& forall|s: int, k: int, j: int|
        0 <= s < counts.len() && 1 <= k < counts[s] && 0 <= j < rows.len() && j != bundle_index(counts, s, k)
            ==> !uses(#[trigger] rows[j], #[trigger] bundle_branch(counts, s, k))
    &&& forall|i: int, j: int|
        bs <= i < internal && bs <= j < rows.len() && i != j ==> rows[i].len() > 0 && !uses(
            #[trigger] rows[j],
            (#[trigger] rows[i])[0].0,
        )
}

/// `row` is a nonempty signed segment list realised on first filaments
/// whose divergence vanishes everywhere: a closed loop.
pub open spec fn closed_loop(segs: Seq<(NodeId, NodeId)>, counts: Seq<usize>, row: Seq<(int, int)>) -> bool {
    exists|r: Seq<(int, int)>|
        #![trigger lift(counts, r)]
        {
            &&& signed_segments(segs, r)
            &&& r.len() > 0
            &&& lift(counts, r) == row
            &&& forall|v: int| #[trigger] divergence(segs, r, v) == 0
        }
}

/// `row` is a signed segment list realised on first filaments that carries
/// a unit current from `from` to `to`.
pub open spec fn carries(
    segs: Seq<(NodeId, NodeId)>,
    counts: Seq<usize>,
    row: Seq<(int, int)>,
    from: int,
    to: int,
) -> bool {
    exists|r: Seq<(int, int)>|
        #![trigger lift(counts, r)]
        {
            &&& signed_segments(segs, r)
            &&& lift(counts, r) == row
            &&& forall|v: int| #[trigger] divergence(segs, r, v) == source_sink(from, to, v)
        }
}

/// The port cannot be attached: an unknown node, both terminals the same,
/// or terminals not joined by conductor.
pub open spec fn port_fault(n: usize, segs: Seq<(NodeId, NodeId)>, port: Port) -> bool {
    let (a, b) = (port.positive.0, port.negative.0);
    a >= n || b >= n || a == b || !connected(seg_edge(segs), n as int, a as int, b as int)
}

/// The error reported for faulty port number `index`, checked in the order
/// unknown positive node, unknown negative node, degenerate, not connected.
pub open spec fn port_error(n: usize, index: int, port: Port) -> MeshError {
    let (a, b) = (port.positive.0, port.negative.0);
    if a >= n {
        MeshError::UnknownPortNode { port: index as usize, node: a, node_count: n }
    } else if b >= n {
        MeshError::UnknownPortNode { port: index as usize, node: b, node_count: n }
    } else if a == b {
        MeshError::DegeneratePort { port: index as usize, node: a }
    } else {
        MeshError::PortNotConnected { port: index as usize, positive: a, negative: b }
    }
}

/// The first segment given no filaments.
pub open spec fn first_empty(counts: Seq<usize>) -> int {
    choose|s: int|
        0 <= s < counts.len() && #[trigger] counts[s] == 0 && forall|j: int|
            0 <= j < s ==> counts[j] != 0
}

/// The first port that cannot be attached.
pub open spec fn first_faulty(n: usize, segs: Seq<(NodeId, NodeId)>, ports: Seq<Port>) -> int {
    choose|p: int|
        0 <= p < ports.len() && port_fault(n, segs, #[trigger] ports[p]) && forall|j: int|
            0 <= j < p ==> !port_fault(n, segs, ports[j])
}

/// The error `MeshMatrix::build` reports, if any: filament counts first,
/// then the presence of ports, then each port in order.
pub open spec fn mesh_error(
    n: usize,
    segs: Seq<(NodeId, NodeId)>,
    counts: Seq<usize>,
    ports: Seq<Port>,
) -> Option<MeshError> {
    if counts.len() != segs.len() {
        Some(MeshError::SegmentCountMismatch { expected: segs.len() as usize, got: counts.len() as usize })
    } else if exists|s: int| 0 <= s < counts.len() && #[trigger] counts[s] == 0 {
        Some(MeshError::EmptySegment { segment: first_empty(counts) as usize })
    } else if ports.len() == 0 {
        Some(MeshError::NoPorts)
    } else if exists|p: int| 0 <= p < ports.len() && port_fault(n, segs, #[trigger] ports[p]) {
        let p = first_faulty(n, segs, ports);
        Some(port_error(n, p, ports[p]))
    } else {
        None
    }
}

/// Abstract content of a [`MeshMatrix`]: its rows as `(branch, ±1)` lists,
/// the number of branches and the number of internal loops.
pub struct MeshView {
    pub rows: Seq<Seq<(int, int)>>,
    pub branch_count: int,
    pub internal_count: int,
}

/// The loops after the bundles, over a spanning forest `forest` of the
/// segments (no closed trail runs along forest segments alone, so a trail
/// between two nodes through the forest is its path between them): one
/// conductor loop for each segment left out of the forest,
/// in segment order, forwards along it and back to its start along forest
/// segments; then for each port the forest trail from its positive to its
/// negative node. No loop traverses a segment twice; `loops` and
/// `port_loops` are these loops as signed segment lists.
pub open spec fn forest_basis(
    segs: Seq<(NodeId, NodeId)>,
    counts: Seq<usize>,
    ports: Seq<Port>,
    m: MeshView,
    forest: Seq<bool>,
    loops: Seq<Seq<(int, int)>>,
    port_loops: Seq<Seq<(int, int)>>,
) -> bool {
    let bs = bundle_start(counts, counts.len() as int);
    &&& forest.len() == segs.len()
    &&& forall|r: Seq<(int, int)>, v: int|
        signed_segments(segs, r) && on_tree(forest, r) && #[trigger] trail(segs, r, v, v) ==> r.len() == 0
    &&& loops.len() == count_false(forest)
    &&& m.internal_count == bs + loops.len()
    &&& forall|j: int|
        0 <= j < loops.len() ==> m.rows[bs + j] == lift(counts, #[trigger] loops[j]) && link_loop(segs, forest, loops[j])
    &&& forall|i: int, j: int| 0 <= i < j < loops.len() ==> (#[trigger] loops[i])[0].0 < (#[trigger] loops[j])[0].0
    &&& port_loops.len() == ports.len()
    &&& forall|q: int|
        0 <= q < ports.len() ==> {
            &&& m.rows[m.internal_count + q] == lift(counts, #[trigger] port_loops[q])
            &&& signed_segments(segs, port_loops[q])
            &&& on_tree(forest, port_loops[q])
            &&& trail(segs, port_loops[q], ports[q].positive.0 as int, ports[q].negative.0 as int)
        }
}

/// The loop basis of a geometry of `n` nodes closed by its ports: bundle
/// loops exactly, then closed conductor loops, then one loop per port
/// carrying its current from its positive to its negative node. The
/// conductor and port loops are those of the breadth-first spanning forest
/// [`bfs`], so the basis is a function of the node count, the segments and
/// their order, the filament counts and the ports.
pub open spec fn mesh_of(
    n: int,
    segs: Seq<(NodeId, NodeId)>,
    counts: Seq<usize>,
    ports: Seq<Port>,
    m: MeshView,
) -> bool {
    &&& m.branch_count == prefix_sum(counts, counts.len() as int)
    &&& bundle_start(counts, counts.len() as int) <= m.internal_count
    &&& m.rows.len() == m.internal_count + ports.len()
    &&& forall|s: int, k: int|
        0 <= s < counts.len() && 1 <= k < counts[s] ==> #[trigger] m.rows[bundle_index(counts, s, k)]
            == bundle_row(counts, s, k)
    &&& forall|i: int|
        bundle_start(counts, counts.len() as int) <= i < m.internal_count ==> closed_loop(
            segs,
            counts,
            #[trigger] m.rows[i],
        )
    &&& forall|p: int|
        0 <= p < ports.len() ==> carries(
            segs,
            counts,
            #[trigger] m.rows[m.internal_count + p],
            ports[p].positive.0 as int,
            ports[p].negative.0 as int,
        )
    &&& own_branches(counts, m.rows, m.internal_count)
    &&& ({
        let g = bfs(segs, n);
        forest_basis(
            segs,
            counts,
            ports,
            m,
            g.in_tree,
            links(segs, g.parent, g.depth, g.in_tree, segs.len() as int),
            port_paths(g.parent, g.depth, ports),
        )
    })
}

/// The sparse signed loop–branch incidence matrix: row `i` lists the
/// branches loop `i` traverses, each with `+1` forwards or `-1` backwards.
#[derive(Debug, PartialEq, Eq)]
pub struct MeshMatrix {
    rows: Vec<Vec<(usize, i8)>>,
    branch_count: usize,
    internal_count: usize,
}

impl View for MeshMatrix {
    type V = MeshView;

    closed spec fn view(&self) -> MeshView {
        MeshView {
            rows: self.rows@.map_values(|r: Vec<(usize, i8)>| entries_view(r@)),
            branch_count: self.branch_count as int,
            internal_count: self.internal_count as int,
        }
    }
}


/// With every segment given filaments, the bundle loops of earlier segments
/// come first.
proof fn lemma_bundle_start_monotone(counts: Seq<usize>, t: int, s: int)
    requires
        0 <= t <= s <= counts.len(),
        forall|j: int| 0 <= j < counts.len() ==> #[trigger] counts[j] > 0,
    ensures
        bundle_start(counts, t) <= bundle_start(counts, s),
    decreases s - t,
{
    if t < s {
        lemma_bundle_start_monotone(counts, t, s - 1);
        assert(counts[s - 1] > 0);
    }
}

/// The bundle loops of segment `t` lie before those of any later segment.
proof fn lemma_bundle_index_below(counts: Seq<usize>, t: int, k: int, s: int)
    requires
        0 <= t < s <= counts.len(),
        1 <= k < counts[t],
        forall|j: int| 0 <= j < counts.len() ==> #[trigger] counts[j] > 0,
    ensures
        0 <= bundle_start(counts, t) <= bundle_index(counts, t, k) < bundle_start(counts, s),
{
    lemma_bundle_start_monotone(counts, 0, t);
    lemma_bundle_start_monotone(counts, t + 1, s);
}

/// Filament counts as first branches: `first[s]` is the first branch of
/// segment `s`.
fn first_branches(counts: &[usize]) -> (r: (Vec<usize>, usize))
    requires
        prefix_sum(counts@, counts@.len() as int) <= usize::MAX,
    ensures
        r.0@.len() == counts@.len(),
        forall|s: int| 0 <= s < counts@.len() ==> #[trigger] r.0@[s] == first_branch(counts@, s),
        r.1 == prefix_sum(counts@, counts@.len() as int),
{
    let mut first: Vec<usize> = Vec::new();
    let mut next: usize = 0;
    let mut s: usize = 0;
    while s < counts.len()
        invariant
            s <= counts@.len(),
            first@.len() == s,
            next == prefix_sum(counts@, s as int),
            prefix_sum(counts@, counts@.len() as int) <= usize::MAX,
            forall|t: int| 0 <= t < s ==> #[trigger] first@[t] == first_branch(counts@, t),
        decreases counts@.len() - s,
    {
        proof {
            lemma_prefix_sum_monotone(counts@, s as int + 1, counts@.len() as int);
        }
        first.push(next);
        next = next + counts[s];
        s = s + 1;
    }
    (first, next)
}

/// Realises a signed segment list on the first filament of each segment.
fn lift_row(first: &Vec<usize>, row: &Vec<(usize, i8)>, Ghost(counts): Ghost<Seq<usize>>) -> (r: Vec<(usize, i8)>)
    requires
        forall|s: int| 0 <= s < first@.len() ==> #[trigger] first@[s] == first_branch(counts, s),
        forall|k: int| 0 <= k < row@.len() ==> (#[trigger] row@[k]).0 < first@.len(),
    ensures
        entries_view(r@) == lift(counts, entries_view(row@)),
{
    let mut r: Vec<(usize, i8)> = Vec::new();
    let mut k: usize = 0;
    while k < row.len()
        invariant
            k <= row@.len(),
            r@.len() == k,
            forall|s: int| 0 <= s < first@.len() ==> #[trigger] first@[s] == first_branch(counts, s),
            forall|j: int| 0 <= j < row@.len() ==> (#[trigger] row@[j]).0 < first@.len(),
            forall|j: int| 0 <= j < k ==> #[trigger] r@[j] == (first@[row@[j].0 as int], row@[j].1),
        decreases row@.len() - k,
    {
        let (segment, sign) = row[k];
        r.push((first[segment], sign));
        k = k + 1;
    }
    proof {
        assert(entries_view(r@) =~= lift(counts, entries_view(row@)));
    }
    r
}

/// The bundle loops of every segment, segment by segment.
fn bundle_rows(first: &Vec<usize>, counts: &[usize]) -> (rows: Vec<Vec<(usize, i8)>>)
    requires
        first@.len() == counts@.len(),
        forall|s: int| 0 <= s < counts@.len() ==> #[trigger] first@[s] == first_branch(counts@, s),
        forall|s: int| 0 <= s < counts@.len() ==> #[trigger] counts@[s] > 0,
        prefix_sum(counts@, counts@.len() as int) <= usize::MAX,
    ensures
        rows@.len() == bundle_start(counts@, counts@.len() as int),
        forall|t: int, k: int|
            0 <= t < counts@.len() && 1 <= k < counts@[t] ==> entries_view(
                #[trigger] rows@[bundle_index(counts@, t, k)]@,
            ) == bundle_row(counts@, t, k),
{
    let ghost c = counts@;
    let mut rows: Vec<Vec<(usize, i8)>> = Vec::new();
    let mut s: usize = 0;
    while s < counts.len()
        invariant
            s <= c.len(),
            c == counts@,
            first@.len() == c.len(),
            forall|t: int| 0 <= t < c.len() ==> #[trigger] first@[t] == first_branch(c, t),
            forall|t: int| 0 <= t < c.len() ==> #[trigger] c[t] > 0,
            prefix_sum(c, c.len() as int) <= usize::MAX,
            rows@.len() == bundle_start(c, s as int),
            forall|t: int, k: int|
                0 <= t < s && 1 <= k < c[t] ==> entries_view(#[trigger] rows@[bundle_index(c, t, k)]@)
                    == bundle_row(c, t, k),
        decreases c.len() - s,
    {
        let f = first[s];
        let n = counts[s];
        proof {
            lemma_prefix_sum_monotone(c, s as int + 1, c.len() as int);
        }
        let mut k: usize = 1;
        while k < n
            invariant
                1 <= k <= n,
                s < c.len(),
                n == c[s as int],
                f == first_branch(c, s as int),
                f + n <= usize::MAX,
                forall|t: int| 0 <= t < c.len() ==> #[trigger] c[t] > 0,
                rows@.len() == bundle_start(c, s as int) + k - 1,
                forall|t: int, j: int|
                    0 <= t < s && 1 <= j < c[t] ==> entries_view(#[trigger] rows@[bundle_index(c, t, j)]@)
                        == bundle_row(c, t, j),
                forall|j: int|
                    1 <= j < k ==> entries_view(#[trigger] rows@[bundle_index(c, s as int, j)]@)
                        == bundle_row(c, s as int, j),
            decreases n - k,
        {
            let ghost old_rows = rows@;
            let row = vec![(f + k, 1i8), (f, -1i8)];
            rows.push(row);
            proof {
                assert(entries_view(row@) =~= bundle_row(c, s as int, k as int));
                assert forall|t: int, j: int|
                    0 <= t < s && 1 <= j < c[t] implies entries_view(#[trigger] rows@[bundle_index(c, t, j)]@)
                        == bundle_row(c, t, j) by {
                    lemma_bundle_index_below(c, t, j, s as int);
                    assert(rows@[bundle_index(c, t, j)] == old_rows[bundle_index(c, t, j)]);
                }
                assert forall|j: int|
                    1 <= j < k + 1 implies entries_view(#[trigger] rows@[bundle_index(c, s as int, j)]@)
                        == bundle_row(c, s as int, j) by {
                    lemma_bundle_start_monotone(c, 0, s as int);
                    if j < k {
                        assert(rows@[bundle_index(c, s as int, j)] == old_rows[bundle_index(c, s as int, j)]);
                    }
                }
            }
            k = k + 1;
        }
        s = s + 1;
    }
    rows
}


/// The conductor loops over the first `k` segments: for each segment left
/// out of the forest, in segment order, forwards along it and then along
/// the forest path from its end back to its start.
pub open spec fn links(
    segs: Seq<(NodeId, NodeId)>,
    parent: Seq<Option<(usize, usize, bool)>>,
    depth: Seq<usize>,
    in_tree: Seq<bool>,
    k: int,
) -> Seq<Seq<(int, int)>>
    decreases k,
{
    if k <= 0 {
        Seq::empty()
    } else {
        let prev = links(segs, parent, depth, in_tree, k - 1);
        if !in_tree[k - 1] {
            let (a, b) = ends(segs, k - 1);
            prev.push(seq![(k - 1, 1int)] + tree_path(parent, depth, b, a))
        } else {
            prev
        }
    }
}

/// The port loops: for each port the forest path from its positive to its
/// negative node.
pub open spec fn port_paths(
    parent: Seq<Option<(usize, usize, bool)>>,
    depth: Seq<usize>,
    ports: Seq<Port>,
) -> Seq<Seq<(int, int)>> {
    Seq::new(
        ports.len(),
        |q: int| tree_path(parent, depth, ports[q].positive.0 as int, ports[q].negative.0 as int),
    )
}

/// A segment followed by the forest path from its end back to its start
/// is a closed loop.
proof fn lemma_closes(segs: Seq<(NodeId, NodeId)>, s: int, path: Seq<(int, int)>)
    requires
        0 <= s < segs.len(),
        signed_segments(segs, path),
        forall|v: int| #[trigger] divergence(segs, path, v) == source_sink(ends(segs, s).1, ends(segs, s).0, v),
    ensures
        signed_segments(segs, seq![(s, 1int)] + path),
        forall|v: int| #[trigger] divergence(segs, seq![(s, 1int)] + path, v) == 0,
{
    let r = seq![(s, 1int)] + path;
    assert forall|k: int| 0 <= k < r.len() implies 0 <= (#[trigger] r[k]).0 < segs.len() && (r[k].1 == 1 || r[k].1 == -1) by {
        if k > 0 {
            assert(r[k] == path[k - 1]);
        }
    }
    assert forall|v: int| #[trigger] divergence(segs, r, v) == 0 by {
        lemma_divergence_append(segs, seq![(s, 1int)], path, v);
        lemma_divergence_single(segs, (s, 1int), v);
    }
}

/// Appends one conductor loop for every segment left out of the forest,
/// in segment order.
fn conductor_rows(
    forest: &Forest,
    segments: &[(NodeId, NodeId)],
    first: &Vec<usize>,
    rows: &mut Vec<Vec<(usize, i8)>>,
    Ghost(n): Ghost<int>,
    Ghost(counts): Ghost<Seq<usize>>,
) -> (loops: Ghost<Seq<Seq<(int, int)>>>)
    requires
        forest.wf(segments@, n),
        ends_in_range(segments@, n),
        first@.len() == segments@.len(),
        forall|s: int| 0 <= s < first@.len() ==> #[trigger] first@[s] == first_branch(counts, s),
    ensures
        final(rows)@.len() == old(rows)@.len() + count_false(forest.in_tree@),
        forall|i: int| 0 <= i < old(rows)@.len() ==> #[trigger] final(rows)@[i] == old(rows)@[i],
        forall|i: int|
            old(rows)@.len() <= i < final(rows)@.len() ==> closed_loop(
                segments@,
                counts,
                entries_view(#[trigger] final(rows)@[i]@),
            ),
        loops@.len() == count_false(forest.in_tree@),
        forall|j: int|
            0 <= j < loops@.len() ==> entries_view(final(rows)@[old(rows)@.len() + j]@) == lift(counts, #[trigger] loops@[j])
                && link_loop(segments@, forest.in_tree@, loops@[j]),
        forall|i: int, j: int| 0 <= i < j < loops@.len() ==> (#[trigger] loops@[i])[0].0 < (#[trigger] loops@[j])[0].0,
        loops@ == links(segments@, forest.parent@, forest.depth@, forest.in_tree@, segments@.len() as int),
{
    // Room for one conductor loop per segment left out of the forest.
    rows.reserve(forest.link_count());
    let ghost segs = segments@;
    let ghost start = rows@.len();
    let ghost rows0 = rows@;
    let ghost mut g: Seq<Seq<(int, int)>> = Seq::empty();
    let mut s: usize = 0;
    while s < segments.len()
        invariant
            s <= segs.len(),
            segs == segments@,
            forest.wf(segs, n),
            ends_in_range(segs, n),
            first@.len() == segs.len(),
            forall|t: int| 0 <= t < first@.len() ==> #[trigger] first@[t] == first_branch(counts, t),
            rows@.len() == start + count_false(forest.in_tree@.take(s as int)),
            forall|i: int| 0 <= i < start ==> #[trigger] rows@[i] == rows0[i],
            forall|i: int| start <= i < rows@.len() ==> closed_loop(segs, counts, entries_view(#[trigger] rows@[i]@)),
            g.len() == rows@.len() - start,
            forall|j: int|
                0 <= j < g.len() ==> entries_view(rows@[start + j]@) == lift(counts, #[trigger] g[j])
                    && link_loop(segs, forest.in_tree@, g[j]) && g[j][0].0 < s,
            forall|i: int, j: int| 0 <= i < j < g.len() ==> (#[trigger] g[i])[0].0 < (#[trigger] g[j])[0].0,
            g == links(segs, forest.parent@, forest.depth@, forest.in_tree@, s as int),
        decreases segs.len() - s,
    {
        proof {
            assert(forest.in_tree@.take(s as int + 1).drop_last() =~= forest.in_tree@.take(s as int));
        }
        if !forest.in_tree[s] {
            let a = segments[s].0.0;
            let b = segments[s].1.0;
            proof {
                assert(ends(segs, s as int) == (a as int, b as int));
                assert(forest.component@[(ends(segs, s as int)).0] is Some);
            }
            // Forwards along the segment, then home through the forest.
            let mut seg_row: Vec<(usize, i8)> = vec![(s, 1i8)];
            let mut back = forest.path(b, a, Ghost(segs), Ghost(n));
            let ghost back_view = entries_view(back@);
            seg_row.append(&mut back);
            proof {
                assert(entries_view(seg_row@) =~= seq![(s as int, 1int)] + back_view);
                lemma_closes(segs, s as int, back_view);
                assert forall|k: int| 0 <= k < seg_row@.len() implies (#[trigger] seg_row@[k]).0 < first@.len() by {
                    assert(entries_view(seg_row@)[k].0 == seg_row@[k].0);
                }
            }
            let row = lift_row(first, &seg_row, Ghost(counts));
            let ghost before = rows@;
            rows.push(row);
            proof {
                let r = entries_view(seg_row@);
                assert(lift(counts, r) == entries_view(rows@[rows@.len() - 1]@));
                assert forall|i: int| start <= i < rows@.len() implies closed_loop(segs, counts, entries_view(#[trigger] rows@[i]@)) by {
                    if i < before.len() {
                        assert(rows@[i] == before[i]);
                    } else {
                        assert(r.len() > 0);
                    }
                }
                assert(r.drop_first() =~= back_view);
                assert(r[0] == (s as int, 1int));
                lemma_walk_prepend(segs, (s as int, 1int), back_view, b as int, a as int);
                assert(r =~= seq![(s as int, 1int)] + back_view);
                assert forall|x: int, y: int| 0 <= x < y < r.len() implies (#[trigger] r[x]).0 != (#[trigger] r[y]).0 by {
                    assert(r[y] == back_view[y - 1]);
                    if x > 0 {
                        assert(r[x] == back_view[x - 1]);
                    } else {
                        assert(forest.in_tree@[back_view[y - 1].0]);
                    }
                }
                let g0 = g;
                g = g.push(r);
                assert forall|j: int|
                    0 <= j < g.len() implies entries_view(rows@[start + j]@) == lift(counts, #[trigger] g[j])
                        && link_loop(segs, forest.in_tree@, g[j]) && g[j][0].0 < s + 1 by {
                    if j < g0.len() {
                        assert(g[j] == g0[j]);
                        assert(rows@[start + j] == before[start + j]);
                    }
                }
                assert forall|i: int, j: int| 0 <= i < j < g.len() implies (#[trigger] g[i])[0].0 < (#[trigger] g[j])[0].0 by {
                    if j < g0.len() {
                        assert(g[i] == g0[i]);
                        assert(g[j] == g0[j]);
                    } else {
                        assert(g[i] == g0[i]);
                    }
                }
            }
        }
        s = s + 1;
    }
    proof {
        assert(forest.in_tree@.take(s as int) =~= forest.in_tree@);
    }
    Ghost(g)
}


/// The first faulty port is the one found by checking them in order.
proof fn lemma_first_faulty(n: usize, segs: Seq<(NodeId, NodeId)>, ports: Seq<Port>, p: int)
    requires
        0 <= p < ports.len(),
        port_fault(n, segs, ports[p]),
        forall|j: int| 0 <= j < p ==> !port_fault(n, segs, #[trigger] ports[j]),
    ensures
        first_faulty(n, segs, ports) == p,
{
    let f = first_faulty(n, segs, ports);
    assert(0 <= f < ports.len() && port_fault(n, segs, ports[f]) && forall|j: int|
        0 <= j < f ==> !port_fault(n, segs, ports[j]));
    if f < p {
        assert(!port_fault(n, segs, ports[f]));
    }
    if f > p {
        assert(!port_fault(n, segs, ports[p]));
    }
}

impl MeshMatrix {
    #[verifier::type_invariant]
    spec fn inv(&self) -> bool {
        self.internal_count <= self.rows@.len()
    }

    /// Builds the loop basis of a geometry of `node_count` nodes joined by
    /// `segments` (each given by its end nodes), whose segment `s`
    /// contributes `filaments_per_segment[s]` parallel branches, closed by
    /// `ports`. Branches are numbered segment by segment.
    pub fn build(
        node_count: usize,
        segments: &[(NodeId, NodeId)],
        filaments_per_segment: &[usize],
        ports: &[Port],
    ) -> (r: Result<MeshMatrix, MeshError>)
        requires
            ends_in_range(segments@, node_count as int),
            prefix_sum(filaments_per_segment@, filaments_per_segment@.len() as int) <= usize::MAX,
        ensures
            match r {
                Ok(m) => mesh_error(node_count, segments@, filaments_per_segment@, ports@) is None
                    && mesh_of(node_count as int, segments@, filaments_per_segment@, ports@, m@),
                Err(e) => mesh_error(node_count, segments@, filaments_per_segment@, ports@) == Some(e),
            },
            // The internal loops span the cycle space: one per dimension,
            // branches - nodes + components.
            r matches Ok(m) ==> m@.internal_count == m@.branch_count - node_count + component_count(
                segments@,
                node_count as int,
                node_count as int,
            ),
    {
        let ghost segs = segments@;
        let ghost counts = filaments_per_segment@;
        let ghost ps = ports@;
        let n = node_count;
        if filaments_per_segment.len() != segments.len() {
            return Err(
                MeshError::SegmentCountMismatch { expected: segments.len(), got: filaments_per_segment.len() },
            );
        }
        let mut s: usize = 0;
        while s < filaments_per_segment.len()
            invariant
                s <= counts.len(),
                counts == filaments_per_segment@,
                segs == segments@,
                counts.len() == segs.len(),
                forall|j: int| 0 <= j < s ==> #[trigger] counts[j] != 0,
            decreases counts.len() - s,
        {
            if filaments_per_segment[s] == 0 {
                proof {
                    assert(counts[s as int] == 0);
                    let f = first_empty(counts);
                    assert(0 <= f < counts.len() && counts[f] == 0 && forall|j: int|
                        0 <= j < f ==> counts[j] != 0);
                    if f < s {
                        assert(counts[f] != 0);
                    }
                    if f > s {
                        assert(counts[s as int] != 0);
                    }
                }
                return Err(MeshError::EmptySegment { segment: s });
            }
            s = s + 1;
        }
        if ports.len() == 0 {
            return Err(MeshError::NoPorts);
        }
        let (first, branch_count) = first_branches(filaments_per_segment);
        let mut rows = bundle_rows(&first, filaments_per_segment);
        let ghost bundles = rows@;
        let forest = Forest::grow(n, segments);
        let loops = conductor_rows(&forest, segments, &first, &mut rows, Ghost(n as int), Ghost(counts));
        let internal_count = rows.len();
        let ghost internal = rows@;
        proof {
            lemma_link_count(&forest, segs, n as int);
        }
        let ghost mut port_loops: Seq<Seq<(int, int)>> = Seq::empty();
        let mut p: usize = 0;
        while p < ports.len()
            invariant
                p <= ps.len(),
                n == node_count,
                ps == ports@,
                segs == segments@,
                counts == filaments_per_segment@,
                counts.len() == segs.len(),
                forall|j: int| 0 <= j < counts.len() ==> #[trigger] counts[j] != 0,
                forest.wf(segs, n as int),
                ends_in_range(segs, n as int),
                first@.len() == segs.len(),
                forall|t: int| 0 <= t < first@.len() ==> #[trigger] first@[t] == first_branch(counts, t),
                internal.len() == internal_count,
                rows@.len() == internal_count + p,
                forall|i: int| 0 <= i < internal_count ==> #[trigger] rows@[i] == internal[i],
                forall|q: int| 0 <= q < p ==> !port_fault(n, segs, #[trigger] ps[q]),
                port_loops.len() == p,
                forall|q: int|
                    0 <= q < p ==> entries_view(rows@[internal_count + q]@) == lift(counts, #[trigger] port_loops[q])
                        && on_tree(forest.in_tree@, port_loops[q]) && signed_segments(segs, port_loops[q])
                        && trail(segs, port_loops[q], ps[q].positive.0 as int, ps[q].negative.0 as int)
                        && port_loops[q] == tree_path(
                        forest.parent@,
                        forest.depth@,
                        ps[q].positive.0 as int,
                        ps[q].negative.0 as int,
                    ),
                forall|q: int|
                    0 <= q < p ==> carries(
                        segs,
                        counts,
                        entries_view(#[trigger] rows@[internal_count + q]@),
                        ps[q].positive.0 as int,
                        ps[q].negative.0 as int,
                    ),
            decreases ps.len() - p,
        {
            let pos = ports[p].positive.0;
            let neg = ports[p].negative.0;
            if pos >= n {
                proof {
                    lemma_first_faulty(n, segs, ps, p as int);
                }
                return Err(MeshError::UnknownPortNode { port: p, node: pos, node_count: n });
            }
            if neg >= n {
                proof {
                    lemma_first_faulty(n, segs, ps, p as int);
                }
                return Err(MeshError::UnknownPortNode { port: p, node: neg, node_count: n });
            }
            if pos == neg {
                proof {
                    lemma_first_faulty(n, segs, ps, p as int);
                }
                return Err(MeshError::DegeneratePort { port: p, node: pos });
            }
            let same = match (forest.component[pos], forest.component[neg]) {
                (Some(a), Some(b)) => a == b,
                _ => false,
            };
            proof {
                assert(same <==> (forest.component@[pos as int] is Some && forest.component@[pos as int]
                    == forest.component@[neg as int]));
                lemma_same_component(&forest, segs, n as int, pos as int, neg as int);
            }
            if !same {
                proof {
                    lemma_first_faulty(n, segs, ps, p as int);
                }
                return Err(MeshError::PortNotConnected { port: p, positive: pos, negative: neg });
            }
            let path = forest.path(pos, neg, Ghost(segs), Ghost(n as int));
            proof {
                assert forall|k: int| 0 <= k < path@.len() implies (#[trigger] path@[k]).0 < first@.len() by {
                    assert(entries_view(path@)[k].0 == path@[k].0);
                }
            }
            let row = lift_row(&first, &path, Ghost(counts));
            let ghost before = rows@;
            rows.push(row);
            proof {
                assert(lift(counts, entries_view(path@)) == entries_view(rows@[internal_count + p]@));
                assert forall|q: int|
                    0 <= q < p + 1 implies carries(
                        segs,
                        counts,
                        entries_view(#[trigger] rows@[internal_count + q]@),
                        ps[q].positive.0 as int,
                        ps[q].negative.0 as int,
                    ) by {
                    if q < p {
                        assert(rows@[internal_count + q] == before[internal_count + q]);
                    }
                }
                assert forall|i: int| 0 <= i < internal_count implies #[trigger] rows@[i] == internal[i] by {
                    assert(rows@[i] == before[i]);
                }
                let pl0 = port_loops;
                port_loops = port_loops.push(entries_view(path@));
                assert forall|q: int|
                    0 <= q < p + 1 implies entries_view(rows@[internal_count + q]@) == lift(counts, #[trigger] port_loops[q])
                        && on_tree(forest.in_tree@, port_loops[q]) && signed_segments(segs, port_loops[q])
                        && trail(segs, port_loops[q], ps[q].positive.0 as int, ps[q].negative.0 as int)
                        && port_loops[q] == tree_path(
                        forest.parent@,
                        forest.depth@,
                        ps[q].positive.0 as int,
                        ps[q].negative.0 as int,
                    ) by {
                    if q < p {
                        assert(port_loops[q] == pl0[q]);
                        assert(rows@[internal_count + q] == before[internal_count + q]);
                    }
                }
            }
            p = p + 1;
        }
        let m = MeshMatrix { rows, branch_count, internal_count };
        proof {
            let v = m@;
            assert(forall|i: int| 0 <= i < v.rows.len() ==> #[trigger] v.rows[i] == entries_view(m.rows@[i]@));
            assert forall|t: int, k: int|
                0 <= t < counts.len() && 1 <= k < counts[t] implies #[trigger] v.rows[bundle_index(counts, t, k)]
                    == bundle_row(counts, t, k) by {
                lemma_bundle_index_below(counts, t, k, counts.len() as int);
                assert(m.rows@[bundle_index(counts, t, k)] == bundles[bundle_index(counts, t, k)]);
            }
            assert(!(exists|s: int| 0 <= s < counts.len() && #[trigger] counts[s] == 0));
            assert(!(exists|q: int| 0 <= q < ps.len() && port_fault(n, segs, #[trigger] ps[q])));
            let bs = bundle_start(counts, counts.len() as int);
            assert forall|j: int| 0 <= j < loops@.len() implies v.rows[bs + j] == lift(counts, #[trigger] loops@[j])
                && link_loop(segs, forest.in_tree@, loops@[j]) by {
                assert(m.rows@[bs + j] == internal[bs + j]);
            }
            assert forall|q: int| 0 <= q < port_loops.len() implies v.rows[internal_count + q] == lift(counts, #[trigger] port_loops[q])
                && on_tree(forest.in_tree@, port_loops[q]) && signed_segments(segs, port_loops[q]) by {
            }
            lemma_own_branches(segs, counts, forest.in_tree@, v.rows, internal_count as int, loops@, port_loops);
            assert forall|r: Seq<(int, int)>, x: int|
                signed_segments(segs, r) && on_tree(forest.in_tree@, r) && #[trigger] trail(segs, r, x, x) implies r.len()
                    == 0 by {
                lemma_forest_acyclic(&forest, segs, n as int, r, x);
            }
            assert(port_loops =~= port_paths(forest.parent@, forest.depth@, ps));
            assert(forest_basis(segs, counts, ps, v, forest.in_tree@, loops@, port_loops));
        }
        Ok(m)
    }

    /// Total number of loops: internal loops plus one per port.
    pub fn loop_count(&self) -> (r: usize)
        ensures
            r == self@.rows.len(),
    {
        self.rows.len()
    }

    /// Number of internal (source-free) loops; they are the first rows.
    pub fn internal_count(&self) -> (r: usize)
        ensures
            r == self@.internal_count,
    {
        self.internal_count
    }

    /// Number of port loops; port `p` is row `internal_count() + p`.
    pub fn port_count(&self) -> (r: usize)
        ensures
            r == self@.rows.len() - self@.internal_count,
    {
        proof {
            use_type_invariant(self);
        }
        self.rows.len() - self.internal_count
    }

    /// Number of branches (columns).
    pub fn branch_count(&self) -> (r: usize)
        ensures
            r == self@.branch_count,
    {
        self.branch_count
    }

    /// The non-zero entries `(branch, ±1)` of loop `index`, in the order the
    /// loop traverses them.
    pub fn row(&self, index: usize) -> (r: &[(usize, i8)])
        requires
            index < self@.rows.len(),
        ensures
            entries_view(r@) == self@.rows[index as int],
    {
        self.rows[index].as_slice()
    }
}


// ---------------------------------------------------------------------------
// Counting the conductor loops.
// ---------------------------------------------------------------------------

/// Node `x` is the least of the nodes a chain of segments joins it to.
pub open spec fn leads(segs: Seq<(NodeId, NodeId)>, n: int, x: int) -> bool {
    forall|y: int| 0 <= y < x ==> !#[trigger] connected(seg_edge(segs), n, y, x)
}

/// Number of connected components among nodes `0..k`, counted by their
/// least nodes; a node without segments is a component of its own.
pub open spec fn component_count(segs: Seq<(NodeId, NodeId)>, n: int, k: int) -> int
    decreases k,
{
    if k <= 0 {
        0
    } else {
        component_count(segs, n, k - 1) + if leads(segs, n, k - 1) {
            1int
        } else {
            0int
        }
    }
}

/// Segments left out, as a set of positions.
proof fn lemma_count_false_set(s: Seq<bool>)
    ensures
        Set::new(|i: int| 0 <= i < s.len() && !s[i]).finite(),
        count_false(s) == Set::new(|i: int| 0 <= i < s.len() && !s[i]).len(),
    decreases s.len(),
{
    let all = Set::new(|i: int| 0 <= i < s.len() && !s[i]);
    if s.len() == 0 {
        assert(all =~= Set::<int>::empty());
    } else {
        let t = s.drop_last();
        lemma_count_false_set(t);
        let prev = Set::new(|i: int| 0 <= i < t.len() && !t[i]);
        if !s.last() {
            assert(all =~= prev.insert(s.len() - 1));
        } else {
            assert(all =~= prev);
        }
    }
}

/// Components counted one least node at a time, as a set of nodes.
proof fn lemma_component_count_set(segs: Seq<(NodeId, NodeId)>, n: int, k: int)
    requires
        k >= 0,
    ensures
        Set::new(|x: int| 0 <= x < k && leads(segs, n, x)).finite(),
        component_count(segs, n, k) == Set::new(|x: int| 0 <= x < k && leads(segs, n, x)).len(),
    decreases k,
{
    let all = Set::new(|x: int| 0 <= x < k && leads(segs, n, x));
    if k == 0 {
        assert(all =~= Set::<int>::empty());
    } else {
        lemma_component_count_set(segs, n, k - 1);
        let prev = Set::new(|x: int| 0 <= x < k - 1 && leads(segs, n, x));
        if leads(segs, n, k - 1) {
            assert(all =~= prev.insert(k - 1));
        } else {
            assert(all =~= prev);
        }
    }
}

/// A set of positions below `k` split by a predicate.
proof fn lemma_split_range(k: int, p: spec_fn(int) -> bool)
    requires
        k >= 0,
    ensures
        Set::new(|i: int| 0 <= i < k && p(i)).finite(),
        Set::new(|i: int| 0 <= i < k && !p(i)).finite(),
        Set::new(|i: int| 0 <= i < k && p(i)).len() + Set::new(|i: int| 0 <= i < k && !p(i)).len() == k,
{
    let a = Set::new(|i: int| 0 <= i < k && p(i));
    let b = Set::new(|i: int| 0 <= i < k && !p(i));
    lemma_int_range(0, k);
    let r = set_int_range(0, k);
    assert(a.subset_of(r));
    assert(b.subset_of(r));
    lemma_len_subset(a, r);
    lemma_len_subset(b, r);
    assert(a.union(b) =~= r);
    assert(a.disjoint(b));
    lemma_set_disjoint_lens(a, b);
}

/// Following parents from a node of a component reaches its root.
proof fn lemma_root_of(f: &Forest, segs: Seq<(NodeId, NodeId)>, n: int, x: int) -> (r: int)
    requires
        f.wf(segs, n),
        0 <= x < n,
        f.component@[x] is Some,
    ensures
        0 <= r < n,
        f.parent@[r] is None,
        f.component@[r] == f.component@[x],
    decreases f.depth@[x],
{
    match f.parent@[x] {
        None => x,
        Some(link) => {
            let p = link.0 as int;
            lemma_root_of(f, segs, n, p)
        },
    }
}

/// Exactly the roots, and the nodes without segments, lead their
/// component.
proof fn lemma_roots_lead(f: &Forest, segs: Seq<(NodeId, NodeId)>, n: int, x: int)
    requires
        f.wf(segs, n),
        0 <= x < n,
    ensures
        f.parent@[x] is None <==> leads(segs, n, x),
{
    let comp = f.component@;
    if f.parent@[x] is None {
        assert forall|y: int| 0 <= y < x implies !#[trigger] connected(seg_edge(segs), n, y, x) by {
            lemma_same_component(f, segs, n, y, x);
            if connected(seg_edge(segs), n, y, x) {
                assert(comp[y] is Some && comp[y] == comp[x]);
                assert(x <= y);
            }
        }
    } else {
        let r = lemma_root_of(f, segs, n, x);
        assert(r <= x);
        assert(r != x);
        assert(connected(seg_edge(segs), n, r, x));
    }
}

/// The forest leaves out as many segments as the cycle space of the
/// segment graph has dimensions: segments − nodes + components.
proof fn lemma_link_count(f: &Forest, segs: Seq<(NodeId, NodeId)>, n: int)
    requires
        f.wf(segs, n),
        n >= 0,
    ensures
        count_false(f.in_tree@) == segs.len() - n + component_count(segs, n, n),
{
    let parent = f.parent@;
    let in_tree = f.in_tree@;
    let sn = segs.len() as int;
    let has_parent = |x: int| parent[x] is Some;
    let linked_seg = |s: int| in_tree[s];
    let with_parent = Set::new(|i: int| 0 <= i < n && has_parent(i));
    let roots = Set::new(|i: int| 0 <= i < n && !has_parent(i));
    let tree = Set::new(|i: int| 0 <= i < sn && linked_seg(i));
    let links = Set::new(|i: int| 0 <= i < sn && !linked_seg(i));
    lemma_split_range(n, has_parent);
    lemma_split_range(sn, linked_seg);
    lemma_count_false_set(in_tree);
    assert(links =~= Set::new(|i: int| 0 <= i < in_tree.len() && !in_tree[i]));
    // Nodes with a parent correspond one to one to tree segments.
    let seg_of = |x: int| parent[x].unwrap().1 as int;
    assert(injective_on(seg_of, with_parent)) by {
        assert forall|x: int, y: int|
            with_parent.contains(x) && with_parent.contains(y) && #[trigger] seg_of(x) == #[trigger] seg_of(y)
                implies x == y by {
            let (px, s, fx) = parent[x].unwrap();
            let (py, t, fy) = parent[y].unwrap();
            assert(f.depth@[x] == f.depth@[px as int] + 1);
            assert(f.depth@[y] == f.depth@[py as int] + 1);
        }
    }
    assert(with_parent.map(seg_of) =~= tree) by {
        assert forall|s: int| tree.contains(s) implies with_parent.map(seg_of).contains(s) by {
            let x = choose|x: int| 0 <= x < n && (#[trigger] parent[x]) is Some && parent[x].unwrap().1 == s;
            assert(with_parent.contains(x) && seg_of(x) == s);
        }
        assert forall|s: int| with_parent.map(seg_of).contains(s) implies tree.contains(s) by {
            let x = choose|x: int| with_parent.contains(x) && seg_of(x) == s;
            assert(parent[x] is Some);
        }
    }
    lemma_map_size(with_parent, tree, seg_of);
    // Nodes without a parent are exactly the least nodes of the components.
    lemma_component_count_set(segs, n, n);
    assert(roots =~= Set::new(|x: int| 0 <= x < n && leads(segs, n, x))) by {
        assert forall|x: int| 0 <= x < n implies (!has_parent(x) <==> leads(segs, n, x)) by {
            lemma_roots_lead(f, segs, n, x);
        }
    }
}


// ---------------------------------------------------------------------------
// Every internal loop has a branch of its own.
// ---------------------------------------------------------------------------

/// Earlier segments' branches come first, filament 0 of each first.
proof fn lemma_first_branch_before(counts: Seq<usize>, s: int, t: int)
    requires
        0 <= s < t <= counts.len(),
        forall|j: int| 0 <= j < counts.len() ==> #[trigger] counts[j] > 0,
    ensures
        first_branch(counts, s) + counts[s] <= first_branch(counts, t),
{
    lemma_prefix_sum_monotone(counts, s + 1, t);
}

/// Distinct segments have distinct first branches.
proof fn lemma_first_branch_injective(counts: Seq<usize>, s: int, t: int)
    requires
        0 <= s < counts.len(),
        0 <= t < counts.len(),
        s != t,
        forall|j: int| 0 <= j < counts.len() ==> #[trigger] counts[j] > 0,
    ensures
        first_branch(counts, s) != first_branch(counts, t),
{
    if s < t {
        lemma_first_branch_before(counts, s, t);
    } else {
        lemma_first_branch_before(counts, t, s);
    }
}

/// A bundle loop's own branch is no segment's first branch.
proof fn lemma_bundle_branch_not_first(counts: Seq<usize>, s: int, k: int, t: int)
    requires
        0 <= s < counts.len(),
        1 <= k < counts[s],
        0 <= t < counts.len(),
        forall|j: int| 0 <= j < counts.len() ==> #[trigger] counts[j] > 0,
    ensures
        bundle_branch(counts, s, k) != first_branch(counts, t),
{
    if s < t {
        lemma_first_branch_before(counts, s, t);
    } else if t < s {
        lemma_first_branch_before(counts, t, s);
    }
}

/// Different bundle loops have different own branches.
proof fn lemma_bundle_branch_injective(counts: Seq<usize>, s: int, k: int, t: int, l: int)
    requires
        0 <= s < counts.len(),
        1 <= k < counts[s],
        0 <= t < counts.len(),
        1 <= l < counts[t],
        bundle_branch(counts, s, k) == bundle_branch(counts, t, l),
        forall|j: int| 0 <= j < counts.len() ==> #[trigger] counts[j] > 0,
    ensures
        s == t && k == l,
{
    if s < t {
        lemma_first_branch_before(counts, s, t);
    } else if t < s {
        lemma_first_branch_before(counts, t, s);
    }
}

/// Every row before the conductor loops is a bundle loop.
proof fn lemma_bundle_row_of(counts: Seq<usize>, j: int, m: int)
    requires
        0 <= m <= counts.len(),
        0 <= j < bundle_start(counts, m),
        forall|x: int| 0 <= x < counts.len() ==> #[trigger] counts[x] > 0,
    ensures
        exists|s: int, k: int| 0 <= s < m && 1 <= k < counts[s] && #[trigger] bundle_index(counts, s, k) == j,
    decreases m,
{
    if m > 0 {
        if j < bundle_start(counts, m - 1) {
            lemma_bundle_row_of(counts, j, m - 1);
            let (s, k) = choose|s: int, k: int| 0 <= s < m - 1 && 1 <= k < counts[s] && #[trigger] bundle_index(counts, s, k) == j;
            assert(bundle_index(counts, s, k) == j);
        } else {
            let s = m - 1;
            let k = j - bundle_start(counts, s) + 1;
            assert(bundle_index(counts, s, k) == j);
        }
    }
}

/// The loop basis is a function of its inputs: for a geometry and ports that
/// `MeshMatrix::build` accepts, two matrices that are both its loop basis
/// have the same rows, branch count and internal loop count, so building
/// twice from the same nodes, segments, filament counts and ports gives the
/// same matrix.
pub proof fn lemma_mesh_deterministic(
    n: usize,
    segs: Seq<(NodeId, NodeId)>,
    counts: Seq<usize>,
    ports: Seq<Port>,
    a: MeshView,
    b: MeshView,
)
    requires
        mesh_error(n, segs, counts, ports) is None,
        mesh_of(n as int, segs, counts, ports, a),
        mesh_of(n as int, segs, counts, ports, b),
    ensures
        a == b,
{
    let len = counts.len() as int;
    let bs = bundle_start(counts, len);
    assert(!(exists|s: int| 0 <= s < counts.len() && #[trigger] counts[s] == 0));
    assert forall|s: int| 0 <= s < counts.len() implies #[trigger] counts[s] > 0 by {
        if counts[s] == 0 {
            assert(exists|t: int| 0 <= t < counts.len() && #[trigger] counts[t] == 0);
        }
    }
    let g = bfs(segs, n as int);
    let loops = links(segs, g.parent, g.depth, g.in_tree, segs.len() as int);
    let port_loops = port_paths(g.parent, g.depth, ports);
    assert(a.internal_count == b.internal_count);
    assert forall|i: int| 0 <= i < a.rows.len() implies #[trigger] a.rows[i] == b.rows[i] by {
        if i < bs {
            lemma_bundle_row_of(counts, i, len);
            let (s, k) = choose|s: int, k: int| 0 <= s < len && 1 <= k < counts[s] && #[trigger] bundle_index(counts, s, k) == i;
            assert(a.rows[bundle_index(counts, s, k)] == bundle_row(counts, s, k));
            assert(b.rows[bundle_index(counts, s, k)] == bundle_row(counts, s, k));
        } else if i < a.internal_count {
            let j = i - bs;
            assert(a.rows[bs + j] == lift(counts, loops[j]));
            assert(b.rows[bs + j] == lift(counts, loops[j]));
        } else {
            let q = i - a.internal_count;
            assert(a.rows[a.internal_count + q] == lift(counts, port_loops[q]));
            assert(b.rows[b.internal_count + q] == lift(counts, port_loops[q]));
        }
    }
    assert(a.rows =~= b.rows);
}

/// The branches of a lifted row are first branches of its segments.
proof fn lemma_lift_entry(counts: Seq<usize>, r: Seq<(int, int)>, k: int)
    requires
        0 <= k < r.len(),
    ensures
        lift(counts, r)[k] == (first_branch(counts, r[k].0), r[k].1),
        lift(counts, r).len() == r.len(),
{
}

/// Bundle loops each own a branch; each conductor loop owns one among the
/// conductor and port loops.
proof fn lemma_own_branches(
    segs: Seq<(NodeId, NodeId)>,
    counts: Seq<usize>,
    in_tree: Seq<bool>,
    rows: Seq<Seq<(int, int)>>,
    internal: int,
    loops: Seq<Seq<(int, int)>>,
    port_loops: Seq<Seq<(int, int)>>,
)
    requires
        counts.len() == segs.len(),
        in_tree.len() == segs.len(),
        forall|j: int| 0 <= j < counts.len() ==> #[trigger] counts[j] > 0,
        internal == bundle_start(counts, counts.len() as int) + loops.len(),
        rows.len() == internal + port_loops.len(),
        forall|s: int, k: int|
            0 <= s < counts.len() && 1 <= k < counts[s] ==> #[trigger] rows[bundle_index(counts, s, k)]
                == bundle_row(counts, s, k),
        forall|j: int|
            0 <= j < loops.len() ==> rows[bundle_start(counts, counts.len() as int) + j] == lift(counts, #[trigger] loops[j])
                && link_loop(segs, in_tree, loops[j]),
        forall|i: int, j: int| 0 <= i < j < loops.len() ==> (#[trigger] loops[i])[0].0 < (#[trigger] loops[j])[0].0,
        forall|q: int|
            0 <= q < port_loops.len() ==> rows[internal + q] == lift(counts, #[trigger] port_loops[q])
                && on_tree(in_tree, port_loops[q]) && signed_segments(segs, port_loops[q]),
    ensures
        own_branches(counts, rows, internal),
{
    let n = counts.len() as int;
    let bs = bundle_start(counts, n);
    lemma_bundle_start_monotone(counts, 0, n);
    // A lifted row uses only first branches of its segments.
    assert forall|s: int, k: int, j: int|
        0 <= s < n && 1 <= k < counts[s] && 0 <= j < rows.len() && j != bundle_index(counts, s, k) implies !uses(
        #[trigger] rows[j],
        #[trigger] bundle_branch(counts, s, k),
    ) by {
        let b = bundle_branch(counts, s, k);
        if j < bs {
            lemma_bundle_row_of(counts, j, n);
            let (s2, k2) = choose|s2: int, k2: int| 0 <= s2 < n && 1 <= k2 < counts[s2] && #[trigger] bundle_index(counts, s2, k2) == j;
            assert(rows[j] == bundle_row(counts, s2, k2));
            if b == bundle_branch(counts, s2, k2) {
                lemma_bundle_branch_injective(counts, s, k, s2, k2);
            }
            lemma_bundle_branch_not_first(counts, s, k, s2);
            assert forall|e: int| 0 <= e < rows[j].len() implies (#[trigger] rows[j][e]).0 != b by {
            }
        } else {
            let r = if j < internal {
                loops[j - bs]
            } else {
                port_loops[j - internal]
            };
            assert(rows[j] == lift(counts, r));
            assert(signed_segments(segs, r));
            assert forall|e: int| 0 <= e < rows[j].len() implies (#[trigger] rows[j][e]).0 != b by {
                lemma_lift_entry(counts, r, e);
                lemma_bundle_branch_not_first(counts, s, k, r[e].0);
            }
        }
    }
    assert forall|i: int| bs <= i < internal implies (#[trigger] rows[i]).len() > 0 by {
        lemma_lift_entry(counts, loops[i - bs], 0);
    }
    assert forall|i: int, j: int|
        bs <= i < internal && bs <= j < rows.len() && i != j implies rows[i].len() > 0 && !uses(
        #[trigger] rows[j],
        (#[trigger] rows[i])[0].0,
    ) by {
        let li = loops[i - bs];
        let link = li[0].0;
        lemma_lift_entry(counts, li, 0);
        let b = rows[i][0].0;
        assert(b == first_branch(counts, link));
        let r = if j < internal {
            loops[j - bs]
        } else {
            port_loops[j - internal]
        };
        assert(rows[j] == lift(counts, r));
        assert forall|e: int| 0 <= e < rows[j].len() implies (#[trigger] rows[j][e]).0 != b by {
            lemma_lift_entry(counts, r, e);
            let t = r[e].0;
            if j < internal {
                if e == 0 {
                    if i - bs < j - bs {
                        assert(link < t);
                    } else {
                        assert(t < link);
                    }
                } else {
                    assert(r.drop_first()[e - 1] == r[e]);
                    assert(in_tree[t]);
                }
            } else {
                assert(in_tree[t]);
            }
            lemma_first_branch_injective(counts, link, t);
        }
    }
}

} // verus!
