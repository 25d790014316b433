//! A directed graph with dense integer node handles. Each node carries a
//! string attribute value; edges are unweighted, unlabeled and directed.
use vstd::prelude::*;

verus! {

/// A directed graph. Node `i` is the `i`-th added node; `attrs[i]` is its
/// attribute value. Edges are (source, target) pairs of node handles.
pub struct Graph {
    pub attrs: Vec<String>,
    pub edges: Vec<(usize, usize)>,
}

/// Targets of the edges that leave node `v`, in edge order.
pub open spec fn succs(edges: Seq<(usize, usize)>, v: int) -> Seq<usize>
    decreases edges.len(),
{
    if edges.len() == 0 {
        Seq::empty()
    } else {
        let rest = succs(edges.drop_last(), v);
        if edges.last().0 == v {
            rest.push(edges.last().1)
        } else {
            rest
        }
    }
}

/// The number of edges incident to `v` in either direction; a self-loop
/// counts once, parallel edges count once each.
pub open spec fn undirected_degree(edges: Seq<(usize, usize)>, v: int) -> nat
    decreases edges.len(),
{
    if edges.len() == 0 {
        0
    } else {
        undirected_degree(edges.drop_last(), v) + (if edges.last().0 == v || edges.last().1 == v {
            1nat
        } else {
            0nat
        })
    }
}

pub proof fn lemma_undirected_degree_le(edges: Seq<(usize, usize)>, v: int)
    ensures
        undirected_degree(edges, v) <= edges.len(),
    decreases edges.len(),
{
    if edges.len() > 0 {
        lemma_undirected_degree_le(edges.drop_last(), v);
    }
}

/// Every successor of `v` is the target of some edge.
pub proof fn lemma_succs_are_targets(edges: Seq<(usize, usize)>, v: int)
    ensures
        forall|j: int|
            0 <= j < succs(edges, v).len() ==> exists|e: int|
                0 <= e < edges.len() && #[trigger] succs(edges, v)[j] == edges[e].1,
    decreases edges.len(),
{
    if edges.len() > 0 {
        lemma_succs_are_targets(edges.drop_last(), v);
        let rest = succs(edges.drop_last(), v);
        assert forall|j: int| 0 <= j < succs(edges, v).len() implies exists|e: int|
            0 <= e < edges.len() && #[trigger] succs(edges, v)[j] == edges[e].1 by {
            if j < rest.len() {
                assert(succs(edges, v)[j] == rest[j]);
                let e0 = choose|e: int|
                    0 <= e < edges.drop_last().len() && #[trigger] rest[j]
                        == edges.drop_last()[e].1;
                assert(edges[e0] == edges.drop_last()[e0]);
                assert(succs(edges, v)[j] == edges[e0].1);
            } else {
                assert(edges.last().0 == v);
                assert(succs(edges, v)[j] == edges.last().1);
                assert(edges[edges.len() - 1] == edges.last());
            }
        }
    }
}

impl Graph {
    /// Every edge endpoint refers to a node of the graph.
    pub open spec fn wf(&self) -> bool {
        forall|j: int|
            0 <= j < self.edges@.len() ==> (#[trigger] self.edges@[j]).0 < self.attrs@.len()
                && self.edges@[j].1 < self.attrs@.len()
    }

    /// Creates an empty graph.
    pub fn new() -> (g: Graph)
        ensures
            g.wf(),
            g.attrs@.len() == 0,
            g.edges@.len() == 0,
    {
        Graph { attrs: Vec::new(), edges: Vec::new() }
    }

    /// The number of nodes.
    pub fn node_count(&self) -> (n: usize)
        ensures
            n == self.attrs@.len(),
    {
        self.attrs.len()
    }

    /// Adds a node carrying `attr` and returns its handle.
    pub fn add_node(&mut self, attr: String) -> (idx: usize)
        ensures
            final(self).attrs@ == old(self).attrs@.push(attr),
            final(self).edges@ == old(self).edges@,
            idx == old(self).attrs@.len(),
            old(self).wf() ==> final(self).wf(),
    {
        let idx = self.attrs.len();
        self.attrs.push(attr);
        idx
    }

    /// Adds a directed edge from `a` to `b`; both must be node handles.
    pub fn add_edge(&mut self, a: usize, b: usize)
        requires
            a < old(self).attrs@.len(),
            b < old(self).attrs@.len(),
        ensures
            final(self).edges@ == old(self).edges@.push((a, b)),
            final(self).attrs@ == old(self).attrs@,
            old(self).wf() ==> final(self).wf(),
    {
        self.edges.push((a, b));
        proof {
            if old(self).wf() {
                assert forall|j: int| 0 <= j < self.edges@.len() implies (
                #[trigger] self.edges@[j]).0 < self.attrs@.len() && self.edges@[j].1
                    < self.attrs@.len() by {
                    if j < old(self).edges@.len() {
                        assert(self.edges@[j] == old(self).edges@[j]);
                    }
                }
            }
        }
    }
}

} // verus!
