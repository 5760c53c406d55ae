use vstd::prelude::*;

verus! {

/// Edge weights of a graph.
pub type Weight = i64;

/// An edge of an adjacency list: its head and its weight.
#[derive(Clone, Copy)]
pub struct WeightedEdge {
    pub to: usize,
    pub weight: Weight,
}

/// The edges leaving one vertex, in order of insertion.
pub type WeightEdges = Vec<WeightedEdge>;

/// An adjacency list: entry `v` holds the edges leaving vertex `v`.
pub type WeightedGraph = Vec<WeightEdges>;

/// A graph on `n` vertices without any edge.
pub fn build_weighted_graph(n: usize) -> (g: WeightedGraph)
    ensures
        g@.len() == n,
        forall|v: int| 0 <= v < n ==> (#[trigger] g@[v])@.len() == 0,
{
    let mut g: WeightedGraph = Vec::new();
    let mut i: usize = 0;
    while i < n
        invariant
            i <= n,
            g@.len() == i,
            forall|v: int| 0 <= v < i ==> (#[trigger] g@[v])@.len() == 0,
        decreases n - i,
    {
        g.push(Vec::new());
        i = i + 1;
    }
    g
}

/// Appends the edge `from -> to` of the given weight to the edges of `from`.
pub fn add_weighted_edge(g: &mut WeightedGraph, from: usize, to: usize, weight: Weight)
    requires
        from < old(g)@.len(),
    ensures
        final(g)@.len() == old(g)@.len(),
        final(g)@[from as int]@ == old(g)@[from as int]@.push(WeightedEdge { to, weight }),
        forall|v: int| 0 <= v < old(g)@.len() && v != from ==> #[trigger] final(g)@[v] == old(g)@[v],
{
    g[from].push(WeightedEdge { to, weight });
}

} // verus!
