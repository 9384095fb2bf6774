use vstd::prelude::*;
use crate::graphs::structs::SubGraph;

verus! {

/// A graph whose vertices are integers.
pub trait Graph {
    /// The graph's own consistency, which its constructors establish.
    spec fn graph_ok(&self) -> bool;

    /// Whether the neighbours of `vertex` can be asked for.
    spec fn has_vertex(&self, vertex: usize) -> bool;

    /// Whether `r` is what `neighbors` may answer for `vertex`.
    spec fn neighbors_ok(&self, vertex: usize, r: Seq<usize>) -> bool;

    /// The vertices reached from `vertex` by one link.
    fn neighbors(&self, vertex: usize) -> (r: Vec<usize>)
        requires
            self.graph_ok(),
            self.has_vertex(vertex),
        ensures
            self.neighbors_ok(vertex, r@),
    ;

    /// This graph with only the links from `a` to `b` for which `filter(a, b)` holds.
    fn subgraph<F: Fn(usize, usize) -> bool>(self, filter: F) -> (g: SubGraph<Self, F>) where
        Self: Sized,
        ensures
            g.graph == self,
            g.filter == filter,
    {
        SubGraph::new(self, filter)
    }
}

/// A graph whose set of vertices is known.
pub trait IterableGraph: Graph {
    /// Whether `iter` lists `v`.
    spec fn listed(&self, v: usize) -> bool;

    /// Every listed vertex once.
    fn iter(&self) -> (r: Vec<usize>)
        requires
            self.graph_ok(),
        ensures
            r@.no_duplicates(),
            forall|v: usize| r@.contains(v) <==> self.listed(v),
    ;
}

} // verus!
