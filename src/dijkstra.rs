use vstd::prelude::*;
use crate::graph::{add_weighted_edge, build_weighted_graph, Weight, WeightedEdge, WeightedGraph};

verus! {

/// There is a walk of exactly `k` edges from `s` to `v` whose weights add up to `w`.
pub open spec fn has_walk(es: Seq<Seq<WeightedEdge>>, s: int, v: int, w: int, k: nat) -> bool
    decreases k,
{
    if k == 0 {
        v == s && w == 0
    } else {
        exists|u: int, j: int|
            0 <= u < es.len() && 0 <= j < es[u].len() && (#[trigger] es[u][j]).to == v
                && has_walk(es, s, u, w - es[u][j].weight, (k - 1) as nat)
    }
}

/// Some walk from `s` to `v` weighs `w`.
pub open spec fn is_walk_weight(es: Seq<Seq<WeightedEdge>>, s: int, v: int, w: int) -> bool {
    exists|k: nat| #[trigger] has_walk(es, s, v, w, k)
}

/// Where `d` is 0 at `s` and no edge out of a vertex with a finite entry can
/// lower the entry of its head, no walk from `s` to `v` that weighs less than
/// `i64::MAX` weighs less than `d[v]`: with the walk of weight `d[v]` that
/// `solve` also guarantees, `d[v]` is the least weight of a walk.
pub proof fn lemma_no_lighter_walk(
    es: Seq<Seq<WeightedEdge>>,
    d: Seq<i64>,
    s: int,
    v: int,
    w: int,
    k: nat,
)
    requires
        d.len() == es.len(),
        0 <= s < d.len(),
        d[s] == 0,
        forall|u: int, j: int|
            0 <= u < es.len() && 0 <= j < es[u].len() ==> (#[trigger] es[u][j]).to < es.len()
                && es[u][j].weight >= 0,
        forall|u: int, j: int|
            0 <= u < d.len() && 0 <= j < es[u].len() && d[u] < i64::MAX ==> d[(
            #[trigger] es[u][j]).to as int] <= d[u] + es[u][j].weight,
        has_walk(es, s, v, w, k),
        w < i64::MAX,
    ensures
        0 <= v < d.len(),
        d[v] <= w,
    decreases k,
{
    if k > 0 {
        let (u, j) = choose|u: int, j: int|
            0 <= u < es.len() && 0 <= j < es[u].len() && (#[trigger] es[u][j]).to == v
                && has_walk(es, s, u, w - es[u][j].weight, (k - 1) as nat);
        lemma_no_lighter_walk(es, d, s, u, w - es[u][j].weight, (k - 1) as nat);
    }
}

/// The number of `true` entries of `s`.
spec fn count_true(s: Seq<bool>) -> nat
    decreases s.len(),
{
    if s.len() == 0 {
        0
    } else {
        count_true(s.drop_last()) + if s.last() {
            1nat
        } else {
            0nat
        }
    }
}

proof fn lemma_count_bound(s: Seq<bool>)
    ensures
        count_true(s) <= s.len(),
    decreases s.len(),
{
    if s.len() > 0 {
        lemma_count_bound(s.drop_last());
    }
}

proof fn lemma_count_none(s: Seq<bool>)
    requires
        forall|i: int| 0 <= i < s.len() ==> !s[i],
    ensures
        count_true(s) == 0,
    decreases s.len(),
{
    if s.len() > 0 {
        lemma_count_none(s.drop_last());
    }
}

proof fn lemma_count_set(s: Seq<bool>, i: int)
    requires
        0 <= i < s.len(),
        !s[i],
    ensures
        count_true(s.update(i, true)) == count_true(s) + 1,
    decreases s.len(),
{
    let t = s.update(i, true);
    if i == s.len() - 1 {
        assert(t.drop_last() =~= s.drop_last());
    } else {
        assert(t.drop_last() =~= s.drop_last().update(i, true));
        lemma_count_set(s.drop_last(), i);
    }
}

/// Single-source shortest paths on a directed graph with non-negative weights.
pub struct Dijkstra {
    n: usize,
    g: WeightedGraph,
}

impl Dijkstra {
    /// The number of vertices.
    pub closed spec fn num_vertices(&self) -> nat {
        self.n as nat
    }

    /// The edges leaving each vertex, in order of insertion.
    pub closed spec fn edges(&self) -> Seq<Seq<WeightedEdge>> {
        self.g@.map_values(|es: Vec<WeightedEdge>| es@)
    }

    /// Every vertex has an adjacency list, and every edge joins two vertices
    /// with a non-negative weight.
    pub open spec fn well_formed(&self) -> bool {
        &&& self.edges().len() == self.num_vertices()
        &&& forall|u: int, j: int|
            0 <= u < self.edges().len() && 0 <= j < self.edges()[u].len() ==> (
            #[trigger] self.edges()[u][j]).to < self.num_vertices() && self.edges()[u][j].weight >= 0
    }

    /// A graph on `n` vertices without any edge.
    pub fn new(n: usize) -> (r: Dijkstra)
        ensures
            r.well_formed(),
            r.num_vertices() == n,
            r.edges() == Seq::new(n as nat, |v: int| Seq::<WeightedEdge>::empty()),
    {
        let r = Dijkstra { n: n, g: build_weighted_graph(n) };
        proof {
            assert forall|v: int| 0 <= v < n implies #[trigger] r.edges()[v] =~= Seq::<WeightedEdge>::empty() by {
                assert(r.g@[v]@.len() == 0);
            }
            assert(r.edges() =~= Seq::new(n as nat, |v: int| Seq::<WeightedEdge>::empty()));
        }
        r
    }

    /// Shortest distances from `s`: entry `v` is the least weight of a walk
    /// from `s` to `v`, or `i64::MAX` where `v` cannot be reached.
    pub fn solve(&self, s: usize) -> (d: Vec<Weight>)
        requires
            self.well_formed(),
            s < self.num_vertices(),
        ensures
            d@.len() == self.num_vertices(),
            d@[s as int] == 0,
            forall|v: int|
                0 <= v < d@.len() && d@[v] < i64::MAX ==> is_walk_weight(
                    self.edges(),
                    s as int,
                    v,
                    #[trigger] d@[v] as int,
                ),
            forall|u: int, j: int|
                0 <= u < d@.len() && 0 <= j < self.edges()[u].len() && d@[u] < i64::MAX ==> d@[(
                #[trigger] self.edges()[u][j]).to as int] <= d@[u] + self.edges()[u][j].weight,
    {
        let n = self.g.len();
        let ghost es = self.edges();
        let mut d: Vec<Weight> = Vec::new();
        let mut done: Vec<bool> = Vec::new();
        let mut i: usize = 0;
        while i < n
            invariant
                n == self.n,
                i <= n,
                d@.len() == i,
                done@.len() == i,
                forall|v: int| 0 <= v < i ==> d@[v] == i64::MAX && !done@[v],
            decreases n - i,
        {
            d.push(i64::MAX);
            done.push(false);
            i = i + 1;
        }
        d.set(s, 0);
        let ghost mut count: nat = 0;
        proof {
            assert(has_walk(es, s as int, s as int, 0, 0));
            lemma_count_none(done@);
        }
        loop
            invariant
                n == self.n,
                self.well_formed(),
                es == self.edges(),
                s < n,
                d@.len() == n,
                done@.len() == n,
                count == count_true(done@),
                d@[s as int] == 0,
                forall|v: int| 0 <= v < n ==> 0 <= #[trigger] d@[v],
                forall|v: int|
                    0 <= v < n && d@[v] < i64::MAX ==> is_walk_weight(es, s as int, v, #[trigger] d@[v] as int),
                forall|v: int| 0 <= v < n && #[trigger] done@[v] ==> d@[v] < i64::MAX,
                forall|u: int, x: int|
                    0 <= u < n && 0 <= x < n && #[trigger] done@[u] && !#[trigger] done@[x] ==> d@[u] <= d@[x],
                forall|u: int, j: int|
                    0 <= u < n && 0 <= j < es[u].len() && done@[u] ==> d@[(#[trigger] es[u][j]).to as int]
                        <= d@[u] + es[u][j].weight,
            ensures
                forall|u: int, j: int|
                    0 <= u < n && 0 <= j < es[u].len() && d@[u] < i64::MAX ==> d@[(
                    #[trigger] es[u][j]).to as int] <= d@[u] + es[u][j].weight,
            decreases n - count,
        {
            let mut best: usize = n;
            let mut v: usize = 0;
            while v < n
                invariant
                    v <= n,
                    d@.len() == n,
                    done@.len() == n,
                    best == n || (best < v && !done@[best as int] && d@[best as int] < i64::MAX),
                    forall|x: int|
                        0 <= x < v && !done@[x] && d@[x] < i64::MAX ==> best != n && d@[best as int]
                            <= #[trigger] d@[x],
                decreases n - v,
            {
                if !done[v] && d[v] < i64::MAX && (best == n || d[v] < d[best]) {
                    best = v;
                }
                v = v + 1;
            }
            if best == n {
                proof {
                    assert forall|u: int, j: int|
                        0 <= u < n && 0 <= j < es[u].len() && d@[u] < i64::MAX implies d@[(
                        #[trigger] es[u][j]).to as int] <= d@[u] + es[u][j].weight by {
                        assert(done@[u]);
                    }
                }
                break;
            }
            proof {
                lemma_count_set(done@, best as int);
                lemma_count_bound(done@.update(best as int, true));
                count = count + 1;
            }
            let ghost done_before = done@;
            done.set(best, true);
            let d_now = d[best];
            let edges = &self.g[best];
            let ghost d_before = d@;
            let mut j: usize = 0;
            while j < edges.len()
                invariant
                    n == self.n,
                    self.well_formed(),
                    es == self.edges(),
                    best < n,
                    edges@ == es[best as int],
                    j <= edges@.len(),
                    d@.len() == n,
                    d_before.len() == n,
                    done@.len() == n,
                    done@[best as int],
                    d_now == d@[best as int],
                    d_now == d_before[best as int],
                    d_now < i64::MAX,
                    forall|v: int| 0 <= v < n ==> 0 <= #[trigger] d@[v],
                    forall|v: int| 0 <= v < n ==> #[trigger] d@[v] <= d_before[v],
                    forall|v: int| 0 <= v < n && #[trigger] done@[v] ==> d@[v] == d_before[v] && d@[v] <= d_now,
                    forall|v: int| 0 <= v < n && !#[trigger] done@[v] ==> d_now <= d@[v],
                    forall|v: int|
                        0 <= v < n && d@[v] < i64::MAX ==> is_walk_weight(es, s as int, v, #[trigger] d@[v] as int),
                    forall|k: int| 0 <= k < j ==> d@[(#[trigger] edges@[k]).to as int] <= d_now + edges@[k].weight,
                decreases edges@.len() - j,
            {
                let e = edges[j];
                let d_nex = if d_now <= i64::MAX - e.weight {
                    d_now + e.weight
                } else {
                    i64::MAX
                };
                if d_nex < d[e.to] {
                    proof {
                        let k = choose|k: nat| has_walk(es, s as int, best as int, d_now as int, k);
                        assert(es[best as int][j as int] == e);
                        assert(has_walk(es, s as int, e.to as int, d_nex as int, k + 1));
                    }
                    d.set(e.to, d_nex);
                }
                j = j + 1;
            }
        }
        d
    }

    /// Adds the edge `from -> to` with the given weight.
    pub fn add_edge(&mut self, from: usize, to: usize, weight: Weight)
        requires
            old(self).well_formed(),
            from < old(self).num_vertices(),
            to < old(self).num_vertices(),
            weight >= 0,
        ensures
            final(self).well_formed(),
            final(self).num_vertices() == old(self).num_vertices(),
            final(self).edges() == old(self).edges().update(
                from as int,
                old(self).edges()[from as int].push(WeightedEdge { to, weight }),
            ),
    {
        add_weighted_edge(&mut self.g, from, to, weight);
        proof {
            assert(self.edges() =~= old(self).edges().update(
                from as int,
                old(self).edges()[from as int].push(WeightedEdge { to, weight }),
            ));
            assert forall|u: int, j: int|
                0 <= u < self.edges().len() && 0 <= j < self.edges()[u].len() implies (
                #[trigger] self.edges()[u][j]).to < self.num_vertices() && self.edges()[u][j].weight >= 0 by {
                if u != from || j < old(self).edges()[u].len() {
                    assert(self.edges()[u][j] == old(self).edges()[u][j]);
                }
            }
        }
    }
}

} // verus!
