//! The resolved dependency graph: the selected package identities together
//! with index-addressed dependency edges, and the specifications of
//! topological order, acyclicity and cycles over it.

use vstd::prelude::*;
use crate::model::{views_of, PackageId, PackageIdV};
use crate::seq_find::{first_where, lemma_first_where};

verus! {

/// The output of dependency resolution: one node per selected package
/// (node 0 is the root), and for each node the indices of the nodes that
/// satisfy its declared requirements.
#[derive(Debug, PartialEq, Eq)]
pub struct ResolvedGraph {
    pub nodes: Vec<PackageId>,
    pub edges: Vec<Vec<usize>>,
}

/// Dependency edges as a pure value: `edges[i]` lists the indices of the
/// direct dependencies of node `i`.
pub open spec fn edges_view(edges: Seq<Vec<usize>>) -> Seq<Seq<int>> {
    edges.map_values(|row: Vec<usize>| row@.map_values(|u: usize| u as int))
}

impl ResolvedGraph {
    pub open spec fn node_ids(self) -> Seq<PackageIdV> {
        views_of(self.nodes@)
    }

    pub open spec fn dep_edges(self) -> Seq<Seq<int>> {
        edges_view(self.edges@)
    }

    /// Well-formed: one edge row per node, every edge within range.
    pub open spec fn wf(self) -> bool {
        wf_edges(self.dep_edges()) && self.nodes@.len() == self.edges@.len()
    }
}

pub open spec fn wf_edges(edges: Seq<Seq<int>>) -> bool {
    forall|i: int, k: int|
        0 <= i < edges.len() && 0 <= k < edges[i].len() ==> 0 <= #[trigger] edges[i][k]
            < edges.len()
}

/// The `e`-th dependency of the node at position `k` of `o` is already
/// listed at some earlier position.
pub open spec fn dep_listed_before(edges: Seq<Seq<int>>, o: Seq<int>, k: int, e: int) -> bool {
    exists|k2: int| 0 <= k2 < k && o[k2] == edges[o[k]][e]
}

/// Every node of `o` stands after all of its direct dependencies.
pub open spec fn deps_come_first(edges: Seq<Seq<int>>, o: Seq<int>) -> bool {
    forall|k: int, e: int|
        0 <= k < o.len() && 0 <= e < edges[o[k]].len() ==> #[trigger] dep_listed_before(
            edges,
            o,
            k,
            e,
        )
}

/// Appending a node whose direct dependencies are all already listed keeps
/// the dependencies-first property.
pub proof fn lemma_deps_come_first_push(edges: Seq<Seq<int>>, o: Seq<int>, x: int)
    requires
        deps_come_first(edges, o),
        0 <= x < edges.len(),
        forall|k: int| 0 <= k < o.len() ==> 0 <= #[trigger] o[k] < edges.len(),
        forall|e: int| 0 <= e < edges[x].len() ==> o.contains(#[trigger] edges[x][e]),
    ensures
        deps_come_first(edges, o.push(x)),
{
    let o2 = o.push(x);
    assert forall|k: int, e: int|
        0 <= k < o2.len() && 0 <= e < edges[o2[k]].len() implies #[trigger] dep_listed_before(
        edges,
        o2,
        k,
        e,
    ) by {
        if k < o.len() {
            assert(o2[k] == o[k]);
            assert(dep_listed_before(edges, o, k, e));
            let k2 = choose|k2: int| 0 <= k2 < k && o[k2] == edges[o[k]][e];
            assert(o2[k2] == edges[o2[k]][e]);
        } else {
            assert(o2[k] == x);
            assert(o.contains(edges[x][e]));
            let w = choose|w: int| 0 <= w < o.len() && o[w] == edges[x][e];
            assert(o2[w] == edges[o2[k]][e]);
        }
    }
}

/// `o` lists every node of the graph exactly once, and every node appears
/// after all of its direct dependencies.
pub open spec fn is_topo_order(edges: Seq<Seq<int>>, o: Seq<int>) -> bool {
    &&& o.len() == edges.len()
    &&& forall|k: int| 0 <= k < o.len() ==> 0 <= #[trigger] o[k] < edges.len()
    &&& forall|i: int| 0 <= i < edges.len() ==> o.contains(i)
    &&& forall|k1: int, k2: int| 0 <= k1 < k2 < o.len() ==> o[k1] != o[k2]
    &&& deps_come_first(edges, o)
}

/// Acyclicity, witnessed by the existence of a topological order.
pub open spec fn exists_topo_order(edges: Seq<Seq<int>>) -> bool {
    exists|o: Seq<int>| is_topo_order(edges, o)
}

/// A cycle: a closed walk of at least one edge.
pub open spec fn is_cycle(edges: Seq<Seq<int>>, path: Seq<int>) -> bool {
    &&& path.len() >= 2
    &&& forall|k: int| 0 <= k < path.len() ==> 0 <= #[trigger] path[k] < edges.len()
    &&& forall|k: int| 0 <= k < path.len() - 1 ==> edges[#[trigger] path[k]].contains(path[k + 1])
    &&& path[0] == path[path.len() - 1]
}

pub open spec fn has_cycle(edges: Seq<Seq<int>>) -> bool {
    exists|path: Seq<int>| is_cycle(edges, path)
}

/// The predicate "equals `v`", as a stable function value.
pub open spec fn eq_to(v: int) -> spec_fn(int) -> bool {
    |x: int| x == v
}

/// In a topological order, the position of a node's direct dependency is
/// strictly below the position of the node itself.
proof fn lemma_edge_position(edges: Seq<Seq<int>>, o: Seq<int>, a: int, b: int)
    requires
        is_topo_order(edges, o),
        0 <= a < edges.len(),
        edges[a].contains(b),
    ensures
        0 <= first_where(o, eq_to(b)) < first_where(o, eq_to(a)) < o.len(),
        o[first_where(o, eq_to(a))] == a,
        o[first_where(o, eq_to(b))] == b,
{
    lemma_first_where(o, eq_to(a));
    lemma_first_where(o, eq_to(b));
    assert(o.contains(a));
    let w = choose|w: int| 0 <= w < o.len() && o[w] == a;
    assert(eq_to(a)(o[w]));
    let pa = first_where(o, eq_to(a));
    assert(pa < o.len());
    assert(o[pa] == a);
    let e = choose|e: int| 0 <= e < edges[a].len() && edges[a][e] == b;
    assert(edges[o[pa]][e] == b);
    assert(dep_listed_before(edges, o, pa, e));
    let k2 = choose|k2: int| 0 <= k2 < pa && o[k2] == edges[o[pa]][e];
    assert(eq_to(b)(o[k2]));
    let pb = first_where(o, eq_to(b));
    assert(pb <= k2 < pa) by {
        if pb > k2 {
            assert(!eq_to(b)(o[k2]));
        }
    }
    assert(o[pb] == b);
}

/// Position strictly decreases along a walk: after `steps` edges the
/// position is strictly below the starting position.
proof fn lemma_walk_position(edges: Seq<Seq<int>>, o: Seq<int>, path: Seq<int>, steps: int)
    requires
        is_topo_order(edges, o),
        1 <= steps < path.len(),
        forall|k: int| 0 <= k < path.len() ==> 0 <= #[trigger] path[k] < edges.len(),
        forall|k: int| 0 <= k < path.len() - 1 ==> edges[#[trigger] path[k]].contains(path[k + 1]),
    ensures
        first_where(o, eq_to(path[steps])) < first_where(o, eq_to(path[0])),
    decreases steps,
{
    assert(edges[path[steps - 1]].contains(path[steps]));
    lemma_edge_position(edges, o, path[steps - 1], path[steps]);
    if steps > 1 {
        lemma_walk_position(edges, o, path, steps - 1);
    }
}

/// A topological position would have to decrease strictly around a closed
/// walk, which is impossible; so a sequence ordering a cyclic graph is
/// never a topological order.
pub proof fn lemma_cycle_excludes_order(edges: Seq<Seq<int>>, path: Seq<int>, o: Seq<int>)
    requires
        is_cycle(edges, path),
    ensures
        !is_topo_order(edges, o),
{
    if is_topo_order(edges, o) {
        let last = path.len() - 1;
        lemma_walk_position(edges, o, path, last);
        assert(path[last] == path[0]);
    }
}

/// A graph with a cycle admits no topological order. Together with the
/// orchestrator's contract (which succeeds exactly when an order exists),
/// this means a cyclic graph is always rejected rather than walked.
pub proof fn lemma_cyclic_graph_has_no_order(edges: Seq<Seq<int>>)
    requires
        has_cycle(edges),
    ensures
        !exists_topo_order(edges),
{
    let path = choose|path: Seq<int>| is_cycle(edges, path);
    assert forall|o: Seq<int>| !is_topo_order(edges, o) by {
        lemma_cycle_excludes_order(edges, path, o);
    }
}

} // verus!
