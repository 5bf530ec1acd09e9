//! The ownership graph and its cycle validator.
//!
//! Nodes are collection names.  Each edge runs from the *owned* (child)
//! collection to its *owner* (parent) collection and carries the pair of
//! field names that ties the two: the owner's key field and the owned
//! record's foreign-key field.  The graph must stay acyclic at all times:
//! [`OwnershipGraph::add_edge`] refuses, and leaves the graph untouched, on
//! any edge whose insertion would close a directed cycle.

use vstd::prelude::*;
use crate::model::str_eq;

verus! {

/// The labelling of one owned-by relationship: for a post owned by a user it
/// would hold `owner_index = "user_id"` and `owned_field = "posted_by"`.
pub struct OwnEdge {
    pub owner_index: String,
    pub owned_field: String,
}

/// An edge of the ownership graph: `owned` points at `owner`, labelled with
/// the field pair of [`OwnEdge`].
pub struct GraphEdge {
    pub owned: String,
    pub owner: String,
    pub label: OwnEdge,
}

/// The mathematical value of a graph edge.
pub struct EdgeModel {
    pub owned: Seq<char>,
    pub owner: Seq<char>,
    pub owner_index: Seq<char>,
    pub owned_field: Seq<char>,
}

/// The mathematical value of the whole graph: node names and edges, each in
/// insertion order.
pub struct GraphModel {
    pub nodes: Seq<Seq<char>>,
    pub edges: Seq<EdgeModel>,
}

impl View for GraphEdge {
    type V = EdgeModel;

    open spec fn view(&self) -> EdgeModel {
        EdgeModel {
            owned: self.owned@,
            owner: self.owner@,
            owner_index: self.label.owner_index@,
            owned_field: self.label.owned_field@,
        }
    }
}

/// Whether the name sequence `ns` holds `x`.
pub open spec fn contains_name(ns: Seq<Seq<char>>, x: Seq<char>) -> bool {
    exists|i: int| 0 <= i < ns.len() && ns[i] == x
}

/// A graph is well formed when its node names are distinct and every edge
/// endpoint is a node.
pub open spec fn graph_wf(g: GraphModel) -> bool {
    &&& forall|i: int, j: int|
        0 <= i < g.nodes.len() && 0 <= j < g.nodes.len() && i != j ==> g.nodes[i] != g.nodes[j]
    &&& forall|i: int|
        0 <= i < g.edges.len() ==> contains_name(g.nodes, (#[trigger] g.edges[i]).owned)
            && contains_name(g.nodes, g.edges[i].owner)
}

/// One hop: some edge runs from `a` to `b`.
pub open spec fn step(g: GraphModel, a: Seq<char>, b: Seq<char>) -> bool {
    exists|i: int| 0 <= i < g.edges.len() && (#[trigger] g.edges[i]).owned == a && g.edges[i].owner
        == b
}

/// A walk through the graph: at least one node, consecutive nodes joined by
/// edges.
pub open spec fn is_path(g: GraphModel, p: Seq<Seq<char>>) -> bool {
    p.len() >= 1 && forall|i: int| 0 <= i < p.len() - 1 ==> step(g, #[trigger] p[i], p[i + 1])
}

/// `b` can be reached from `a` (in zero or more hops).
pub open spec fn reaches(g: GraphModel, a: Seq<char>, b: Seq<char>) -> bool {
    exists|p: Seq<Seq<char>>| #[trigger] is_path(g, p) && p.first() == a && p.last() == b
}

/// `b` can be reached from `a` in at least one hop.
pub open spec fn reaches_proper(g: GraphModel, a: Seq<char>, b: Seq<char>) -> bool {
    exists|p: Seq<Seq<char>>| #[trigger] is_path(g, p) && p.len() >= 2 && p.first() == a
        && p.last() == b
}

/// No walk of at least one hop returns to its starting node.
pub open spec fn graph_acyclic(g: GraphModel) -> bool {
    forall|p: Seq<Seq<char>>| #[trigger] is_path(g, p) && p.len() >= 2 ==> p.first() != p.last()
}

/// Everything that can reach `c`: the collections a cascade starting at `c`
/// may visit, `c` itself included.
pub open spec fn reach_set(g: GraphModel, c: Seq<char>) -> Set<Seq<char>> {
    Set::new(|d: Seq<char>| reaches(g, d, c))
}

/// The names `ns` with `x` appended unless already present.
pub open spec fn append_if_missing(ns: Seq<Seq<char>>, x: Seq<char>) -> Seq<Seq<char>> {
    if contains_name(ns, x) {
        ns
    } else {
        ns.push(x)
    }
}

/// The graph after inserting the edge `owned -> owner` with label
/// `(owner_index, owned_field)`, both endpoints added as nodes when missing.
pub open spec fn spec_add_edge(
    g: GraphModel,
    owned: Seq<char>,
    owner: Seq<char>,
    owner_index: Seq<char>,
    owned_field: Seq<char>,
) -> GraphModel {
    GraphModel {
        nodes: append_if_missing(append_if_missing(g.nodes, owned), owner),
        edges: g.edges.push(
            EdgeModel { owned, owner, owner_index, owned_field },
        ),
    }
}

/// The edges whose owner side is `c`, in insertion order: the direct
/// children relation the cascade engine walks.
pub open spec fn spec_edges_incoming(edges: Seq<EdgeModel>, c: Seq<char>) -> Seq<EdgeModel>
    decreases edges.len(),
{
    if edges.len() == 0 {
        Seq::empty()
    } else {
        spec_edges_incoming(edges.drop_last(), c) + if edges.last().owner == c {
            seq![edges.last()]
        } else {
            Seq::empty()
        }
    }
}

/// A name list that is closed under edge successors and holds the start of a
/// walk holds its end too.
proof fn lemma_closed_blocks(g: GraphModel, vs: Seq<Seq<char>>, p: Seq<Seq<char>>)
    requires
        is_path(g, p),
        contains_name(vs, p.first()),
        forall|i: int|
            0 <= i < g.edges.len() && contains_name(vs, (#[trigger] g.edges[i]).owned)
                ==> contains_name(vs, g.edges[i].owner),
    ensures
        contains_name(vs, p.last()),
    decreases p.len(),
{
    if p.len() > 1 {
        assert(step(g, p[0], p[1]));
        let i = choose|i: int|
            0 <= i < g.edges.len() && (#[trigger] g.edges[i]).owned == p[0] && g.edges[i].owner
                == p[1];
        assert(contains_name(vs, p[1]));
        let rest = p.drop_first();
        assert(forall|j: int| 0 <= j < rest.len() ==> #[trigger] rest[j] == p[j + 1]);
        assert forall|j: int| 0 <= j < rest.len() - 1 implies step(g, #[trigger] rest[j], rest[j + 1]) by {
            assert(step(g, p[j + 1], p[j + 2]));
        }
        lemma_closed_blocks(g, vs, rest);
    }
}

/// A distinct name list drawn from the nodes plus one extra name cannot be
/// longer than the node count plus one.
proof fn lemma_visited_bound(g: GraphModel, vs: Seq<Seq<char>>, extra: Seq<char>)
    requires
        forall|j: int, k: int|
            0 <= j < vs.len() && 0 <= k < vs.len() && j != k ==> vs[j] != vs[k],
        forall|j: int| 0 <= j < vs.len() ==> vs[j] == extra || contains_name(g.nodes, #[trigger] vs[j]),
    ensures
        vs.len() <= g.nodes.len() + 1,
{
    broadcast use vstd::seq_lib::seq_to_set_is_finite;

    let ns = g.nodes.to_set();
    g.nodes.lemma_cardinality_of_set();
    assert(vs.no_duplicates());
    vs.unique_seq_to_set();
    assert forall|d: Seq<char>| vs.to_set().contains(d) implies ns.insert(extra).contains(d) by {
        let j = choose|j: int| 0 <= j < vs.len() && vs[j] == d;
        if d != extra {
            let k = choose|k: int| 0 <= k < g.nodes.len() && g.nodes[k] == d;
            assert(g.nodes.contains(d));
        }
    }
    vstd::set_lib::lemma_len_subset(vs.to_set(), ns.insert(extra));
}

/// Appending a fresh node name keeps the visited list within the bound.
proof fn lemma_visited_bound_push(
    g: GraphModel,
    vs: Seq<Seq<char>>,
    x: Seq<char>,
    extra: Seq<char>,
)
    requires
        forall|j: int, k: int|
            0 <= j < vs.len() && 0 <= k < vs.len() && j != k ==> vs[j] != vs[k],
        forall|j: int| 0 <= j < vs.len() ==> vs[j] == extra || contains_name(g.nodes, #[trigger] vs[j]),
        !contains_name(vs, x),
        contains_name(g.nodes, x),
    ensures
        vs.len() + 1 <= g.nodes.len() + 1,
{
    let w = vs.push(x);
    assert forall|j: int, k: int|
        0 <= j < w.len() && 0 <= k < w.len() && j != k implies w[j] != w[k] by {
        if j < vs.len() && k < vs.len() {
        } else if j == vs.len() {
            assert(w[j] == x);
            if w[k] == x {
                assert(contains_name(vs, x)) by {
                    assert(vs[k] == x);
                }
            }
        } else {
            assert(w[k] == x);
            if w[j] == x {
                assert(contains_name(vs, x)) by {
                    assert(vs[j] == x);
                }
            }
        }
    }
    assert forall|j: int| 0 <= j < w.len() implies w[j] == extra || contains_name(
        g.nodes,
        #[trigger] w[j],
    ) by {
        if j < vs.len() {
            assert(w[j] == vs[j]);
        } else {
            assert(w[j] == x);
        }
    }
    lemma_visited_bound(g, w, extra);
}

/// Acyclicity depends on the edges alone.
pub proof fn lemma_same_edges_acyclic(g1: GraphModel, g2: GraphModel)
    requires
        g1.edges == g2.edges,
        graph_acyclic(g1),
    ensures
        graph_acyclic(g2),
{
    assert forall|p: Seq<Seq<char>>| #[trigger] is_path(g2, p) && p.len() >= 2 implies p.first()
        != p.last() by {
        assert forall|i: int| 0 <= i < p.len() - 1 implies step(g1, #[trigger] p[i], p[i + 1]) by {
            assert(step(g2, p[i], p[i + 1]));
            let j = choose|j: int|
                0 <= j < g2.edges.len() && (#[trigger] g2.edges[j]).owned == p[i]
                    && g2.edges[j].owner == p[i + 1];
            assert(g1.edges[j] == g2.edges[j]);
        }
        assert(is_path(g1, p));
    }
}

/// A cycle survives when further edges are appended.
pub proof fn lemma_cyclic_extend(g1: GraphModel, g2: GraphModel)
    requires
        g1.edges.len() <= g2.edges.len(),
        forall|i: int| 0 <= i < g1.edges.len() ==> g2.edges[i] == g1.edges[i],
        !graph_acyclic(g1),
    ensures
        !graph_acyclic(g2),
{
    let p = choose|p: Seq<Seq<char>>|
        #[trigger] is_path(g1, p) && p.len() >= 2 && p.first() == p.last();
    assert forall|i: int| 0 <= i < p.len() - 1 implies step(g2, #[trigger] p[i], p[i + 1]) by {
        let j = choose|j: int|
            0 <= j < g1.edges.len() && (#[trigger] g1.edges[j]).owned == p[i] && g1.edges[j].owner
                == p[i + 1];
        assert(g2.edges[j] == g1.edges[j]);
    }
    assert(is_path(g2, p));
}

/// Appending a name if missing keeps the list distinct and only ever adds
/// that name.
proof fn lemma_append_if_missing(ns: Seq<Seq<char>>, x: Seq<char>)
    requires
        forall|j: int, k: int|
            0 <= j < ns.len() && 0 <= k < ns.len() && j != k ==> ns[j] != ns[k],
    ensures
        forall|j: int, k: int|
            0 <= j < append_if_missing(ns, x).len() && 0 <= k < append_if_missing(ns, x).len() && j
                != k ==> append_if_missing(ns, x)[j] != append_if_missing(ns, x)[k],
        contains_name(append_if_missing(ns, x), x),
        forall|y: Seq<char>|
            contains_name(ns, y) ==> contains_name(#[trigger] append_if_missing(ns, x), y),
{
    let w = append_if_missing(ns, x);
    if contains_name(ns, x) {
        assert(w == ns);
    } else {
        assert(w == ns.push(x));
        assert forall|j: int, k: int|
            0 <= j < w.len() && 0 <= k < w.len() && j != k implies w[j] != w[k] by {
            if j < ns.len() && k < ns.len() {
            } else if j == ns.len() {
                if w[k] == x {
                    assert(ns[k] == x);
                }
            } else {
                if w[j] == x {
                    assert(ns[j] == x);
                }
            }
        }
        assert(w[ns.len() as int] == x);
        assert forall|y: Seq<char>| contains_name(ns, y) implies contains_name(w, y) by {
            let j = choose|j: int| 0 <= j < ns.len() && ns[j] == y;
            assert(w[j] == y);
        }
    }
    assert(contains_name(w, x)) by {
        if contains_name(ns, x) {
            let j = choose|j: int| 0 <= j < ns.len() && ns[j] == x;
            assert(w[j] == x);
        }
    }
}

/// Inserting an edge keeps the graph well formed.
proof fn lemma_add_edge_wf(
    g: GraphModel,
    owned: Seq<char>,
    owner: Seq<char>,
    oi: Seq<char>,
    of: Seq<char>,
)
    requires
        graph_wf(g),
    ensures
        graph_wf(spec_add_edge(g, owned, owner, oi, of)),
{
    let g2 = spec_add_edge(g, owned, owner, oi, of);
    let ns1 = append_if_missing(g.nodes, owned);
    lemma_append_if_missing(g.nodes, owned);
    lemma_append_if_missing(ns1, owner);
    assert(g2.nodes == append_if_missing(ns1, owner));
    assert forall|i: int|
        0 <= i < g2.edges.len() implies contains_name(g2.nodes, (#[trigger] g2.edges[i]).owned)
        && contains_name(g2.nodes, g2.edges[i].owner) by {
        if i < g.edges.len() {
            assert(g2.edges[i] == g.edges[i]);
            assert(contains_name(g.nodes, g.edges[i].owned));
            assert(contains_name(g.nodes, g.edges[i].owner));
        } else {
            assert(g2.edges[i].owned == owned && g2.edges[i].owner == owner);
            assert(contains_name(ns1, owned));
        }
    }
}

/// Every node reaches itself, by the one-node walk.
pub proof fn lemma_reaches_self(g: GraphModel, a: Seq<char>)
    ensures
        reaches(g, a, a),
{
    let p = seq![a];
    assert(is_path(g, p));
    assert(p.first() == a && p.last() == a);
}

/// A hop prepended to a walk gives a proper walk.
pub proof fn lemma_step_then_reaches(g: GraphModel, a: Seq<char>, b: Seq<char>, c: Seq<char>)
    requires
        step(g, a, b),
        reaches(g, b, c),
    ensures
        reaches(g, a, c),
        reaches_proper(g, a, c),
{
    let p = choose|p: Seq<Seq<char>>| #[trigger] is_path(g, p) && p.first() == b && p.last() == c;
    let q = seq![a] + p;
    assert(q[0] == a && q[1] == p[0]);
    assert(forall|i: int| 0 <= i < p.len() ==> q[i + 1] == #[trigger] p[i]);
    assert(q.last() == p.last());
    assert forall|i: int| 0 <= i < q.len() - 1 implies step(g, #[trigger] q[i], q[i + 1]) by {
        if i == 0 {
            assert(p.first() == p[0]);
        } else {
            assert(step(g, p[i - 1], p[i]));
        }
    }
    assert(is_path(g, q) && q.len() >= 2 && q.first() == a && q.last() == c);
}

/// A hop appended to a walk gives a proper walk.
pub proof fn lemma_reaches_then_step(g: GraphModel, a: Seq<char>, b: Seq<char>, c: Seq<char>)
    requires
        reaches(g, a, b),
        step(g, b, c),
    ensures
        reaches(g, a, c),
        reaches_proper(g, a, c),
{
    let p = choose|p: Seq<Seq<char>>| #[trigger] is_path(g, p) && p.first() == a && p.last() == b;
    let q = p.push(c);
    assert(forall|i: int| 0 <= i < p.len() ==> q[i] == #[trigger] p[i]);
    assert forall|i: int| 0 <= i < q.len() - 1 implies step(g, #[trigger] q[i], q[i + 1]) by {
        if i == q.len() - 2 {
            assert(q[i] == p.last());
        } else {
            assert(step(g, p[i], p[i + 1]));
        }
    }
    assert(is_path(g, q) && q.len() >= 2 && q.first() == a && q.last() == c);
}

/// Reachability composes.
pub proof fn lemma_reaches_trans(g: GraphModel, a: Seq<char>, b: Seq<char>, c: Seq<char>)
    requires
        reaches(g, a, b),
        reaches(g, b, c),
    ensures
        reaches(g, a, c),
{
    let p = choose|p: Seq<Seq<char>>| #[trigger] is_path(g, p) && p.first() == a && p.last() == b;
    let q = choose|q: Seq<Seq<char>>| #[trigger] is_path(g, q) && q.first() == b && q.last() == c;
    if q.len() == 1 {
        assert(b == c);
    } else {
        let r = p + q.drop_first();
        assert(forall|i: int| 0 <= i < p.len() ==> r[i] == #[trigger] p[i]);
        assert(forall|i: int|
            0 <= i < q.len() - 1 ==> r[p.len() + i] == #[trigger] q.drop_first()[i]);
        assert(forall|i: int| 0 <= i < q.len() - 1 ==> #[trigger] q.drop_first()[i] == q[i + 1]);
        assert forall|i: int| 0 <= i < r.len() - 1 implies step(g, #[trigger] r[i], r[i + 1]) by {
            if i < p.len() - 1 {
                assert(step(g, p[i], p[i + 1]));
            } else if i == p.len() - 1 {
                assert(r[i] == p.last());
                assert(r[i + 1] == q[1]);
                assert(step(g, q[0], q[1]));
            } else {
                let j = i - p.len();
                assert(r[i] == q[j + 1]);
                assert(r[i + 1] == q[j + 2]);
                assert(step(g, q[j + 1], q[j + 2]));
            }
        }
        assert(r.last() == q.last());
        assert(is_path(g, r) && r.first() == a && r.last() == c);
    }
}

/// Walks only use edges, so a walk survives an edge being appended.
pub proof fn lemma_path_push_edge(g: GraphModel, g2: GraphModel, p: Seq<Seq<char>>)
    requires
        g2.edges == g.edges.push(g2.edges.last()),
        is_path(g, p),
    ensures
        is_path(g2, p),
{
    assert forall|i: int| 0 <= i < p.len() - 1 implies step(g2, #[trigger] p[i], p[i + 1]) by {
        let j = choose|j: int|
            0 <= j < g.edges.len() && (#[trigger] g.edges[j]).owned == p[i] && g.edges[j].owner
                == p[i + 1];
        assert(g2.edges[j] == g.edges[j]);
    }
}

/// Everything that can reach `c` stays within the node set (or is `c`
/// itself), so the reach set is finite and bounded by the node count.
pub proof fn lemma_reach_set_bound(g: GraphModel, c: Seq<char>)
    requires
        graph_wf(g),
    ensures
        reach_set(g, c).finite(),
        reach_set(g, c).len() <= g.nodes.len() + 1,
{
    broadcast use vstd::seq_lib::seq_to_set_is_finite;

    let ns = g.nodes.to_set();
    g.nodes.lemma_cardinality_of_set();
    assert forall|d: Seq<char>| reach_set(g, c).contains(d) implies ns.insert(c).contains(d) by {
        if d != c {
            let p = choose|p: Seq<Seq<char>>|
                #[trigger] is_path(g, p) && p.first() == d && p.last() == c;
            assert(p.len() >= 2);
            assert(step(g, p[0], p[1]));
            let j = choose|j: int|
                0 <= j < g.edges.len() && (#[trigger] g.edges[j]).owned == p[0] && g.edges[j].owner
                    == p[1];
            assert(contains_name(g.nodes, d));
            let k = choose|k: int| 0 <= k < g.nodes.len() && g.nodes[k] == d;
            assert(g.nodes.contains(d));
        }
    }
    vstd::set_lib::lemma_len_subset(reach_set(g, c), ns.insert(c));
}

/// One hop down the graph strictly shrinks the reach set: the cascade
/// engine's termination measure.
pub proof fn lemma_step_strict(g: GraphModel, cc: Seq<char>, c: Seq<char>)
    requires
        graph_wf(g),
        graph_acyclic(g),
        step(g, cc, c),
    ensures
        reach_set(g, cc).len() < reach_set(g, c).len(),
{
    lemma_reach_set_bound(g, c);
    lemma_reach_set_bound(g, cc);
    assert forall|d: Seq<char>| reach_set(g, cc).contains(d) implies reach_set(g, c).contains(
        d,
    ) by {
        lemma_reaches_then_step(g, d, cc, c);
    }
    if reach_set(g, cc).contains(c) {
        lemma_reaches_then_step(g, c, cc, c);
        let p = choose|p: Seq<Seq<char>>|
            #[trigger] is_path(g, p) && p.len() >= 2 && p.first() == c && p.last() == c;
        assert(false);
    }
    lemma_reaches_self(g, c);
    assert(reach_set(g, c).contains(c));
    assert(reach_set(g, cc).subset_of(reach_set(g, c).remove(c)));
    vstd::set_lib::lemma_len_subset(reach_set(g, cc), reach_set(g, c).remove(c));
}

/// A collection that owns nothing is reached by itself alone.
pub proof fn lemma_no_incoming(g: GraphModel, c: Seq<char>)
    requires
        forall|i: int| 0 <= i < g.edges.len() ==> (#[trigger] g.edges[i]).owner != c,
    ensures
        forall|d: Seq<char>| reaches(g, d, c) ==> d == c,
{
    assert forall|d: Seq<char>| reaches(g, d, c) implies d == c by {
        let p = choose|p: Seq<Seq<char>>|
            #[trigger] is_path(g, p) && p.first() == d && p.last() == c;
        if p.len() >= 2 {
            let i = p.len() - 2;
            assert(step(g, p[i], p[i + 1]));
            let j = choose|j: int|
                0 <= j < g.edges.len() && (#[trigger] g.edges[j]).owned == p[i] && g.edges[j].owner
                    == p[i + 1];
            assert(false);
        }
    }
}

/// If the owner already reaches the owned side, inserting the edge closes a
/// cycle.
pub proof fn lemma_add_edge_cyclic(
    g: GraphModel,
    owned: Seq<char>,
    owner: Seq<char>,
    oi: Seq<char>,
    of: Seq<char>,
)
    requires
        reaches(g, owner, owned),
    ensures
        !graph_acyclic(spec_add_edge(g, owned, owner, oi, of)),
{
    let g2 = spec_add_edge(g, owned, owner, oi, of);
    let p = choose|p: Seq<Seq<char>>|
        #[trigger] is_path(g, p) && p.first() == owner && p.last() == owned;
    lemma_path_push_edge(g, g2, p);
    assert(g2.edges.last().owned == owned && g2.edges.last().owner == owner);
    assert(step(g2, owned, owner)) by {
        let j = g2.edges.len() - 1;
        assert(g2.edges[j].owned == owned && g2.edges[j].owner == owner);
    }
    lemma_step_then_reaches(g2, owned, owner, owned);
    let q = choose|q: Seq<Seq<char>>|
        #[trigger] is_path(g2, q) && q.len() >= 2 && q.first() == owned && q.last() == owned;
    assert(!graph_acyclic(g2));
}

/// Decomposing a walk of the extended graph: either it already was a proper
/// walk of `g`, or it passes through the new edge, leaving a `g`-walk to the
/// owned side and a `g`-walk from the owner side.
proof fn lemma_new_edge_path(
    g: GraphModel,
    g2: GraphModel,
    owned: Seq<char>,
    owner: Seq<char>,
    p: Seq<Seq<char>>,
)
    requires
        graph_acyclic(g),
        !reaches(g, owner, owned),
        g2.edges.len() == g.edges.len() + 1,
        forall|i: int| 0 <= i < g.edges.len() ==> g2.edges[i] == g.edges[i],
        g2.edges.last().owned == owned,
        g2.edges.last().owner == owner,
        is_path(g2, p),
        p.len() >= 2,
    ensures
        reaches_proper(g, p.first(), p.last()) || (reaches(g, p.first(), owned) && reaches(
            g,
            owner,
            p.last(),
        )),
    decreases p.len(),
{
    assert(step(g2, p[0], p[1]));
    let first_new = !step(g, p[0], p[1]);
    if first_new {
        // the first hop can only be the new edge
        let j = choose|j: int|
            0 <= j < g2.edges.len() && (#[trigger] g2.edges[j]).owned == p[0] && g2.edges[j].owner
                == p[1];
        if j < g.edges.len() {
            assert(step(g, p[0], p[1]));
        }
        assert(p[0] == owned && p[1] == owner);
    }
    if p.len() == 2 {
        if first_new {
            lemma_reaches_self(g, owned);
            lemma_reaches_self(g, owner);
        } else {
            let q = seq![p[0], p[1]];
            assert(forall|i: int| 0 <= i < q.len() - 1 ==> step(g, #[trigger] q[i], q[i + 1]));
            assert(is_path(g, q) && q.len() >= 2 && q.first() == p.first() && q.last() == p.last());
        }
    } else {
        let rest = p.drop_first();
        assert(forall|i: int| 0 <= i < rest.len() ==> #[trigger] rest[i] == p[i + 1]);
        assert forall|i: int| 0 <= i < rest.len() - 1 implies step(g2, #[trigger] rest[i], rest[i + 1]) by {
            assert(step(g2, p[i + 1], p[i + 2]));
        }
        lemma_new_edge_path(g, g2, owned, owner, rest);
        assert(rest.first() == p[1] && rest.last() == p.last());
        if reaches_proper(g, p[1], p.last()) {
            if first_new {
                // second disjunct, with a trivial walk to the owned side
                lemma_reaches_self(g, owned);
            } else {
                lemma_step_then_reaches(g, p[0], p[1], p.last());
            }
        } else {
            assert(reaches(g, p[1], owned) && reaches(g, owner, p.last()));
            if first_new {
                // a g-walk from the owner back to the owned side would make
                // the new edge redundant, against the hypothesis
                assert(reaches(g, owner, owned));
                assert(false);
            } else {
                lemma_step_then_reaches(g, p[0], p[1], owned);
            }
        }
    }
}

/// If the owner does not reach the owned side, inserting the edge keeps the
/// graph acyclic.
pub proof fn lemma_add_edge_acyclic(
    g: GraphModel,
    owned: Seq<char>,
    owner: Seq<char>,
    oi: Seq<char>,
    of: Seq<char>,
)
    requires
        graph_acyclic(g),
        !reaches(g, owner, owned),
    ensures
        graph_acyclic(spec_add_edge(g, owned, owner, oi, of)),
{
    let g2 = spec_add_edge(g, owned, owner, oi, of);
    assert forall|p: Seq<Seq<char>>| #[trigger] is_path(g2, p) && p.len() >= 2 implies p.first()
        != p.last() by {
        if p.first() == p.last() {
            let z = p.first();
            lemma_new_edge_path(g, g2, owned, owner, p);
            if reaches_proper(g, z, z) {
                let q = choose|q: Seq<Seq<char>>|
                    #[trigger] is_path(g, q) && q.len() >= 2 && q.first() == z && q.last() == z;
                assert(false);
            } else {
                lemma_reaches_trans(g, owner, z, owned);
                assert(false);
            }
        }
    }
}

/// Rejected edge insertions: the edge would have closed a directed cycle.
#[derive(Debug)]
pub enum GraphError {
    CycleDetected { from: String, to: String },
}

/// The directed ownership graph: collection-name nodes and labelled
/// owned-to-owner edges, kept acyclic.
pub struct OwnershipGraph {
    nodes: Vec<String>,
    edges: Vec<GraphEdge>,
}

impl View for OwnershipGraph {
    type V = GraphModel;

    closed spec fn view(&self) -> GraphModel {
        GraphModel {
            nodes: self.nodes@.map_values(|s: String| s@),
            edges: self.edges@.map_values(|e: GraphEdge| e@),
        }
    }
}

impl OwnershipGraph {
    /// Well formed and acyclic: the invariant every public operation keeps.
    pub open spec fn wf(&self) -> bool {
        graph_wf(self@) && graph_acyclic(self@)
    }

    /// The empty graph.
    pub fn new() -> (g: OwnershipGraph)
        ensures
            g.wf(),
            g@.nodes == Seq::<Seq<char>>::empty(),
            g@.edges == Seq::<EdgeModel>::empty(),
    {
        let g = OwnershipGraph { nodes: Vec::new(), edges: Vec::new() };
        proof {
            assert(g@.nodes =~= Seq::<Seq<char>>::empty());
            assert(g@.edges =~= Seq::<EdgeModel>::empty());
            assert(forall|p: Seq<Seq<char>>|
                is_path(g@, p) && p.len() >= 2 ==> !step(g@, p[0], p[1]));
        }
        g
    }

    /// Whether `name` is already a node.
    pub fn contains_node(&self, name: &str) -> (r: bool)
        ensures
            r == contains_name(self@.nodes, name@),
    {
        let n = self.nodes.len();
        let mut i: usize = 0;
        while i < n
            invariant
                i <= n,
                n == self.nodes.len(),
                forall|j: int| 0 <= j < i ==> self@.nodes[j] != name@,
            decreases n - i,
        {
            if str_eq(self.nodes[i].as_str(), name) {
                assert(self@.nodes[i as int] == name@);
                return true;
            }
            i = i + 1;
        }
        false
    }

    /// Add `name` as a node if it is not one yet.
    pub fn ensure_node(&mut self, name: &str)
        ensures
            final(self)@.nodes == append_if_missing(old(self)@.nodes, name@),
            final(self)@.edges == old(self)@.edges,
            old(self).wf() ==> final(self).wf(),
    {
        if !self.contains_node(name) {
            self.nodes.push(name.to_owned());
            proof {
                assert(self@.nodes =~= old(self)@.nodes.push(name@));
            }
        }
        proof {
            if old(self).wf() {
                lemma_append_if_missing(old(self)@.nodes, name@);
                lemma_same_edges_acyclic(old(self)@, self@);
                assert forall|i: int|
                    0 <= i < self@.edges.len() implies contains_name(
                        self@.nodes,
                        (#[trigger] self@.edges[i]).owned,
                    ) && contains_name(self@.nodes, self@.edges[i].owner) by {
                    assert(contains_name(old(self)@.nodes, old(self)@.edges[i].owned));
                    assert(contains_name(old(self)@.nodes, old(self)@.edges[i].owner));
                }
            }
        }
    }

    /// Whether `to` can be reached from `from` along the graph's edges, by a
    /// breadth-first search over a visited list.
    pub fn can_reach(&self, from: &str, to: &str) -> (b: bool)
        requires
            self.wf(),
        ensures
            b == reaches(self@, from@, to@),
    {
        let ghost g = self@;
        if str_eq(from, to) {
            proof {
                lemma_reaches_self(g, from@);
            }
            return true;
        }
        let mut visited: Vec<String> = Vec::new();
        let mut queue: Vec<String> = Vec::new();
        visited.push(from.to_owned());
        queue.push(from.to_owned());
        proof {
            assert(visited@.map_values(|s: String| s@)[0] == from@);
            assert(queue@.map_values(|s: String| s@)[0] == from@);
            assert(visited@[0]@ == from@);
            lemma_reaches_self(g, from@);
        }
        loop
            invariant
                self.wf(),
                g == self@,
                from@ != to@,
                contains_name(visited@.map_values(|s: String| s@), from@),
                // every visited name is reachable from the start
                forall|j: int| 0 <= j < visited@.len() ==> reaches(g, from@, (#[trigger] visited@[j])@),
                // the queue holds visited names, each at most once
                forall|j: int|
                    0 <= j < queue@.len() ==> contains_name(
                        visited@.map_values(|s: String| s@),
                        (#[trigger] queue@[j])@,
                    ),
                forall|j: int, k: int|
                    0 <= j < queue@.len() && 0 <= k < queue@.len() && j != k ==> (
                    #[trigger] queue@[j])@ != (#[trigger] queue@[k])@,
                // names fully processed (visited, no longer queued) have all
                // their successors visited, and none of them is the target
                forall|j: int, i: int|
                    0 <= j < visited@.len() && !contains_name(
                        queue@.map_values(|s: String| s@),
                        (#[trigger] visited@[j])@,
                    ) && 0 <= i < g.edges.len() && (#[trigger] g.edges[i]).owned == visited@[j]@
                        ==> contains_name(visited@.map_values(|s: String| s@), g.edges[i].owner)
                        && g.edges[i].owner != to@,
                // the target was never visited
                !contains_name(visited@.map_values(|s: String| s@), to@),
                // visited names are distinct and drawn from the nodes plus
                // the start
                forall|j: int, k: int|
                    0 <= j < visited@.len() && 0 <= k < visited@.len() && j != k ==> (
                    #[trigger] visited@[j])@ != (#[trigger] visited@[k])@,
                forall|j: int|
                    0 <= j < visited@.len() ==> (#[trigger] visited@[j])@ == from@ || contains_name(
                        g.nodes,
                        visited@[j]@,
                    ),
                visited@.len() <= g.nodes.len() + 1,
                visited@.len() >= 1,
            decreases g.nodes.len() + 1 - visited@.len(), queue@.len(),
        {
            let ghost visited_before = visited@.map_values(|s: String| s@);
            let ghost queue_pre = queue@;
            let popped = queue.pop();
            let cur = match popped {
                Some(c) => c,
                None => {
                    // the visited set is closed under successors and misses
                    // the target, so no walk can end there
                    proof {
                        let vs = visited@.map_values(|s: String| s@);
                        assert(queue@.map_values(|s: String| s@).len() == 0);
                        if reaches(g, from@, to@) {
                            let p = choose|p: Seq<Seq<char>>|
                                #[trigger] is_path(g, p) && p.first() == from@ && p.last() == to@;
                            assert forall|i: int|
                                0 <= i < g.edges.len() && contains_name(
                                    vs,
                                    (#[trigger] g.edges[i]).owned,
                                ) implies contains_name(vs, g.edges[i].owner) by {
                                let j = choose|j: int|
                                    0 <= j < vs.len() && vs[j] == g.edges[i].owned;
                                assert(visited@[j]@ == g.edges[i].owned);
                            }
                            lemma_closed_blocks(g, vs, p);
                            assert(false);
                        }
                    }
                    return false;
                },
            };
            proof {
                // the popped name leaves the queue; everything else stays
                assert(queue_pre == queue@.push(cur));
                let qm_pre = queue_pre.map_values(|s: String| s@);
                let qm = queue@.map_values(|s: String| s@);
                assert(qm_pre =~= qm.push(cur@));
                assert forall|u: Seq<char>| contains_name(qm.push(cur@), u) implies contains_name(
                    qm,
                    u,
                ) || u == cur@ by {
                    let j = choose|j: int| 0 <= j < qm.push(cur@).len() && qm.push(cur@)[j] == u;
                    if j < qm.len() {
                        assert(qm[j] == u);
                    }
                }
                assert(contains_name(qm_pre, cur@)) by {
                    assert(qm_pre[qm_pre.len() - 1] == cur@);
                }
                // `cur` occurs only once in the pre-pop queue, so not in the rest
                assert forall|j: int| 0 <= j < queue@.len() implies (#[trigger] queue@[j])@
                    != cur@ by {
                    assert(queue_pre[j] == queue@[j]);
                    assert(queue_pre[queue_pre.len() - 1] == cur);
                }
            }
            let ghost q0 = queue@.len();
            assert(contains_name(visited@.map_values(|s: String| s@), cur@)) by {
                let qm_pre = queue_pre.map_values(|s: String| s@);
                assert(qm_pre[qm_pre.len() - 1] == cur@);
            }
            assert(reaches(g, from@, cur@)) by {
                let vs = visited@.map_values(|s: String| s@);
                let j = choose|j: int| 0 <= j < vs.len() && vs[j] == cur@;
                assert(visited@[j]@ == cur@);
            }
            let n = self.edges.len();
            let mut i: usize = 0;
            while i < n
                invariant
                    self.wf(),
                    g == self@,
                    from@ != to@,
                    n == self.edges.len(),
                    i <= n,
                    contains_name(visited@.map_values(|s: String| s@), from@),
                    contains_name(visited@.map_values(|s: String| s@), cur@),
                    reaches(g, from@, cur@),
                    forall|j: int|
                        0 <= j < visited@.len() ==> reaches(g, from@, (#[trigger] visited@[j])@),
                    forall|j: int|
                        0 <= j < queue@.len() ==> contains_name(
                            visited@.map_values(|s: String| s@),
                            (#[trigger] queue@[j])@,
                        ),
                    forall|j: int, k: int|
                        0 <= j < queue@.len() && 0 <= k < queue@.len() && j != k ==> (
                        #[trigger] queue@[j])@ != (#[trigger] queue@[k])@,
                    // the name being expanded is no longer queued
                    forall|j: int| 0 <= j < queue@.len() ==> (#[trigger] queue@[j])@ != cur@,
                    // processed names other than `cur` stay closed
                    forall|j: int, i2: int|
                        0 <= j < visited@.len() && !contains_name(
                            queue@.map_values(|s: String| s@),
                            (#[trigger] visited@[j])@,
                        ) && visited@[j]@ != cur@ && 0 <= i2 < g.edges.len() && (
                        #[trigger] g.edges[i2]).owned == visited@[j]@ ==> contains_name(
                            visited@.map_values(|s: String| s@),
                            g.edges[i2].owner,
                        ) && g.edges[i2].owner != to@,
                    // the successors of `cur` seen so far are visited
                    forall|i2: int|
                        0 <= i2 < i && (#[trigger] g.edges[i2]).owned == cur@ ==> contains_name(
                            visited@.map_values(|s: String| s@),
                            g.edges[i2].owner,
                        ) && g.edges[i2].owner != to@,
                    !contains_name(visited@.map_values(|s: String| s@), to@),
                    forall|j: int, k: int|
                        0 <= j < visited@.len() && 0 <= k < visited@.len() && j != k ==> (
                        #[trigger] visited@[j])@ != (#[trigger] visited@[k])@,
                    forall|j: int|
                        0 <= j < visited@.len() ==> (#[trigger] visited@[j])@ == from@
                            || contains_name(g.nodes, visited@[j]@),
                    visited@.len() <= g.nodes.len() + 1,
                    visited@.len() >= 1,
                    // each new visit pairs with a queue entry
                    visited@.len() >= visited_before.len(),
                    queue@.len() == q0 + (visited@.len() - visited_before.len()),
                decreases n - i,
            {
                let ghost vs_prev = visited@.map_values(|s: String| s@);
                let e = &self.edges[i];
                proof {
                    assert(g.edges[i as int] == self.edges@[i as int]@);
                }
                if str_eq(e.owned.as_str(), cur.as_str()) {
                    assert(g.edges[i as int].owned == cur@);
                    if str_eq(e.owner.as_str(), to) {
                        proof {
                            assert(step(g, cur@, to@));
                            lemma_reaches_then_step(g, from@, cur@, to@);
                        }
                        return true;
                    }
                    let mut seen = false;
                    let m = visited.len();
                    let mut k: usize = 0;
                    while k < m
                        invariant
                            k <= m,
                            m == visited.len(),
                            g == self@,
                            i < g.edges.len(),
                            g.edges[i as int] == self.edges@[i as int]@,
                            e == &self.edges@[i as int],
                            seen ==> contains_name(
                                visited@.map_values(|s: String| s@),
                                g.edges[i as int].owner,
                            ),
                            !seen ==> forall|j: int|
                                0 <= j < k ==> (#[trigger] visited@[j])@ != g.edges[i as int].owner,
                        decreases m - k,
                    {
                        if str_eq(visited[k].as_str(), e.owner.as_str()) {
                            seen = true;
                            proof {
                                let vs = visited@.map_values(|s: String| s@);
                                assert(vs[k as int] == g.edges[i as int].owner);
                            }
                        }
                        k = k + 1;
                    }
                    if !seen {
                        let ghost x = g.edges[i as int].owner;
                        let ghost q_prev = queue@;
                        let ghost qm_prev = queue@.map_values(|s: String| s@);
                        proof {
                            assert(contains_name(g.nodes, x));
                            assert(!contains_name(vs_prev, x)) by {
                                if contains_name(vs_prev, x) {
                                    let j = choose|j: int|
                                        0 <= j < vs_prev.len() && vs_prev[j] == x;
                                    assert(visited@[j]@ == x);
                                }
                            }
                            assert forall|j: int, k2: int|
                                0 <= j < vs_prev.len() && 0 <= k2 < vs_prev.len() && j != k2 implies
                                vs_prev[j] != vs_prev[k2] by {
                                assert(vs_prev[j] == visited@[j]@);
                                assert(vs_prev[k2] == visited@[k2]@);
                            }
                            assert forall|j: int| 0 <= j < vs_prev.len() implies vs_prev[j] == from@
                                || contains_name(g.nodes, vs_prev[j]) by {
                                assert(vs_prev[j] == visited@[j]@);
                            }
                            lemma_visited_bound_push(g, vs_prev, x, from@);
                        }
                        visited.push(e.owner.clone());
                        queue.push(e.owner.clone());
                        proof {
                            let vs = visited@.map_values(|s: String| s@);
                            assert(vs =~= vs_prev.push(x));
                            assert(step(g, cur@, x));
                            lemma_reaches_then_step(g, from@, cur@, x);
                            assert forall|u: Seq<char>| contains_name(vs_prev, u) implies contains_name(
                                vs,
                                u,
                            ) by {
                                let j = choose|j: int| 0 <= j < vs_prev.len() && vs_prev[j] == u;
                                assert(vs[j] == u);
                            }
                            assert(contains_name(vs, x)) by {
                                assert(vs[vs.len() - 1] == x);
                            }
                            assert(!contains_name(vs, to@)) by {
                                if contains_name(vs, to@) {
                                    let j = choose|j: int| 0 <= j < vs.len() && vs[j] == to@;
                                    assert(j < vs_prev.len() || vs[j] == x);
                                    if j < vs_prev.len() {
                                        assert(visited@[j]@ == to@);
                                    }
                                }
                            }
                            let qm = queue@.map_values(|s: String| s@);
                            assert(qm =~= qm_prev.push(x));
                            assert(contains_name(qm, x)) by {
                                assert(qm[qm.len() - 1] == x);
                            }
                            assert forall|u: Seq<char>| contains_name(qm_prev, u) implies
                                contains_name(qm, u) by {
                                let j = choose|j: int| 0 <= j < qm_prev.len() && qm_prev[j] == u;
                                assert(qm[j] == u);
                            }
                            // the closure of already-processed names carries over
                            assert forall|j: int, i2: int|
                                0 <= j < visited@.len() && !contains_name(
                                    qm,
                                    (#[trigger] visited@[j])@,
                                ) && visited@[j]@ != cur@ && 0 <= i2 < g.edges.len() && (
                                #[trigger] g.edges[i2]).owned == visited@[j]@ implies contains_name(
                                    vs,
                                    g.edges[i2].owner,
                                ) && g.edges[i2].owner != to@ by {
                                if j < vs_prev.len() {
                                    assert(visited@[j]@ == vs_prev[j]);
                                    assert(!contains_name(qm_prev, visited@[j]@));
                                } else {
                                    assert(visited@[j]@ == vs[j]);
                                    assert(vs[j] == x);
                                }
                            }
                        }
                    }
                }
                i = i + 1;
            }
        }
    }

    /// Insert the edge `owned -> owner` with the given label, creating the
    /// endpoint nodes when missing.  An edge that would close a directed
    /// cycle is refused and the graph is left exactly as it was.
    pub fn add_edge(&mut self, owned: &str, owner: &str, label: OwnEdge) -> (r: Result<
        (),
        GraphError,
    >)
        requires
            old(self).wf(),
        ensures
            final(self).wf(),
            ({
                let g2 = spec_add_edge(
                    old(self)@,
                    owned@,
                    owner@,
                    label.owner_index@,
                    label.owned_field@,
                );
                match r {
                    Ok(()) => final(self)@ == g2 && graph_acyclic(g2),
                    Err(GraphError::CycleDetected { from, to }) => final(self)@ == old(self)@
                        && from@ == owned@ && to@ == owner@ && !graph_acyclic(g2),
                }
            }),
    {
        let ghost g0 = self@;
        let ghost oi = label.owner_index@;
        let ghost of = label.owned_field@;
        if self.can_reach(owner, owned) {
            proof {
                lemma_add_edge_cyclic(g0, owned@, owner@, oi, of);
            }
            return Err(GraphError::CycleDetected { from: owned.to_owned(), to: owner.to_owned() });
        }
        proof {
            lemma_add_edge_acyclic(g0, owned@, owner@, oi, of);
            lemma_add_edge_wf(g0, owned@, owner@, oi, of);
        }
        self.ensure_node(owned);
        self.ensure_node(owner);
        let edge = GraphEdge { owned: owned.to_owned(), owner: owner.to_owned(), label };
        proof {
            assert(edge@ == EdgeModel { owned: owned@, owner: owner@, owner_index: oi, owned_field: of });
        }
        self.edges.push(edge);
        proof {
            let g2 = spec_add_edge(g0, owned@, owner@, oi, of);
            assert(self@.edges =~= g2.edges);
            assert(self@.nodes == g2.nodes);
        }
        Ok(())
    }

    /// The edges directly owned by `collection`: every edge whose owner side
    /// is `collection`, in insertion order.
    pub fn edges_incoming(&self, collection: &str) -> (r: Vec<GraphEdge>)
        ensures
            r@.map_values(|e: GraphEdge| e@) == spec_edges_incoming(self@.edges, collection@),
    {
        let n = self.edges.len();
        let mut r: Vec<GraphEdge> = Vec::new();
        let mut i: usize = 0;
        while i < n
            invariant
                i <= n,
                n == self.edges.len(),
                r@.map_values(|e: GraphEdge| e@) == spec_edges_incoming(
                    self@.edges.take(i as int),
                    collection@,
                ),
            decreases n - i,
        {
            let ghost prefix = self@.edges.take(i as int);
            let e = &self.edges[i];
            if str_eq(e.owner.as_str(), collection) {
                let copy = GraphEdge {
                    owned: e.owned.clone(),
                    owner: e.owner.clone(),
                    label: OwnEdge {
                        owner_index: e.label.owner_index.clone(),
                        owned_field: e.label.owned_field.clone(),
                    },
                };
                assert(copy@ == self@.edges[i as int]);
                r.push(copy);
            }
            proof {
                let next = self@.edges.take(i + 1);
                assert(next.drop_last() =~= prefix);
                assert(next.last() == self@.edges[i as int]);
                if self@.edges[i as int].owner == collection@ {
                    assert(r@.map_values(|e: GraphEdge| e@) =~= spec_edges_incoming(
                        prefix,
                        collection@,
                    ) + seq![self@.edges[i as int]]);
                } else {
                    assert(spec_edges_incoming(next, collection@) =~= spec_edges_incoming(
                        prefix,
                        collection@,
                    ));
                }
            }
            i = i + 1;
        }
        proof {
            assert(self@.edges.take(n as int) =~= self@.edges);
        }
        r
    }

    /// How many nodes the graph has.
    pub fn node_count(&self) -> (n: usize)
        ensures
            n == self@.nodes.len(),
    {
        self.nodes.len()
    }

    /// The node name at position `i`.
    pub fn node_at(&self, i: usize) -> (name: &String)
        requires
            i < self@.nodes.len(),
        ensures
            name@ == self@.nodes[i as int],
    {
        &self.nodes[i]
    }

    /// How many edges the graph has.
    pub fn edge_count(&self) -> (n: usize)
        ensures
            n == self@.edges.len(),
    {
        self.edges.len()
    }

    /// The edge at position `i`.
    pub fn edge_at(&self, i: usize) -> (e: &GraphEdge)
        requires
            i < self@.edges.len(),
        ensures
            e@ == self@.edges[i as int],
    {
        &self.edges[i]
    }

    /// A deep copy with the same mathematical value.
    pub fn duplicate(&self) -> (g: OwnershipGraph)
        ensures
            g@ == self@,
            g.wf() == self.wf(),
    {
        let mut nodes: Vec<String> = Vec::new();
        let n = self.nodes.len();
        let mut i: usize = 0;
        while i < n
            invariant
                i <= n,
                n == self.nodes.len(),
                nodes@.len() == i,
                forall|k: int| 0 <= k < i ==> (#[trigger] nodes@[k])@ == self@.nodes[k],
            decreases n - i,
        {
            nodes.push(self.nodes[i].clone());
            i = i + 1;
        }
        let mut edges: Vec<GraphEdge> = Vec::new();
        let m = self.edges.len();
        let mut j: usize = 0;
        while j < m
            invariant
                j <= m,
                m == self.edges.len(),
                edges@.len() == j,
                forall|k: int| 0 <= k < j ==> (#[trigger] edges@[k])@ == self@.edges[k],
            decreases m - j,
        {
            let e = &self.edges[j];
            let copy = GraphEdge {
                owned: e.owned.clone(),
                owner: e.owner.clone(),
                label: OwnEdge {
                    owner_index: e.label.owner_index.clone(),
                    owned_field: e.label.owned_field.clone(),
                },
            };
            proof {
                assert(copy@ == self@.edges[j as int]);
            }
            edges.push(copy);
            j = j + 1;
        }
        let g = OwnershipGraph { nodes, edges };
        proof {
            assert(g@.nodes =~= self@.nodes);
            assert(g@.edges =~= self@.edges);
            assert(g@ == self@);
        }
        g
    }
}

} // verus!
