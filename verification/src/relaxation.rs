//! Levels by relaxation of edge weights, over a directed graph of the crate
//! `petgraph` and in the topological order that its visitor yields.
//!
//! What the graph and the visitor do is not proved here: their contracts
//! below state it, and the levels that come out are checked afterwards like
//! any others.

use crate::graph::CommitGraph;
use petgraph::graphmap::DiGraphMap;
use petgraph::visit::Topo;
use std::collections::HashSet;
use vstd::prelude::*;

verus! {

/// `petgraph::graphmap::GraphMap`: a graph that is keyed by its nodes.
#[verifier::external_type_specification]
#[verifier::external_body]
#[verifier::reject_recursive_types(N)]
#[verifier::reject_recursive_types(E)]
#[verifier::reject_recursive_types(Ty)]
#[verifier::reject_recursive_types(S)]
pub struct ExGraphMap<N, E, Ty, S: core::hash::BuildHasher>(
    petgraph::graphmap::GraphMap<N, E, Ty, S>,
);

/// `petgraph::Directed`: the marker of graphs whose edges have a direction.
#[verifier::external_type_specification]
#[verifier::external_body]
pub struct ExDirected(petgraph::Directed);

/// `petgraph::visit::Topo`: a visitor that yields nodes in topological order.
#[verifier::external_type_specification]
#[verifier::external_body]
#[verifier::reject_recursive_types(N)]
#[verifier::reject_recursive_types(VM)]
pub struct ExTopo<N, VM>(petgraph::visit::Topo<N, VM>);

/// A directed graph whose nodes are places in the arena, with a weight on
/// each edge.
pub type WeightedGraph = DiGraphMap<usize, usize>;

/// A visitor of such a graph.
pub type Visitor = Topo<usize, HashSet<usize>>;

/// The edges of a graph, each with its weight.
pub uninterp spec fn graph_edges(g: WeightedGraph) -> Map<(usize, usize), usize>;

/// The nodes that a visitor has yielded.
pub uninterp spec fn topo_visited(t: Visitor) -> Set<usize>;

/// The edges of the graph that a visitor was made for.
pub uninterp spec fn topo_edges(t: Visitor) -> Set<(usize, usize)>;

/// No edges at all.
pub open spec fn no_edges() -> Map<(usize, usize), usize> {
    Map::empty()
}

/// `GraphMap::new`: a graph without edges.
#[verifier::external_body]
fn graph_new() -> (g: WeightedGraph)
    ensures
        graph_edges(g) == no_edges(),
{
    DiGraphMap::new()
}

/// `GraphMap::add_node`: adds a node, and leaves the edges as they are.
#[verifier::external_body]
fn graph_add_node(g: &mut WeightedGraph, n: usize)
    ensures
        graph_edges(*final(g)) == graph_edges(*old(g)),
{
    g.add_node(n);
}

/// `GraphMap::add_edge`: adds the edge from `a` to `b` with the given
/// weight, or gives that weight to the edge if it is there already, and
/// returns the weight that the edge had.
#[verifier::external_body]
fn graph_add_edge(g: &mut WeightedGraph, a: usize, b: usize, weight: usize) -> (r:
    Option<usize>)
    ensures
        graph_edges(*final(g)) == graph_edges(*old(g)).insert((a, b), weight),
        r == (if graph_edges(*old(g)).contains_key((a, b)) {
            Some(graph_edges(*old(g))[(a, b)])
        } else {
            None
        }),
{
    g.add_edge(a, b, weight)
}

/// `GraphMap::edges_directed` with `Outgoing`: the edges that leave `a`, each
/// as its target and its weight.
#[verifier::external_body]
fn graph_outgoing(g: &WeightedGraph, a: usize) -> (r: Vec<(usize, usize)>)
    ensures
        forall|i: int|
            0 <= i < r@.len() ==> graph_edges(*g).contains_key((a, (#[trigger] r@[i]).0))
                && graph_edges(*g)[(a, r@[i].0)] == r@[i].1,
        forall|b: usize|
            graph_edges(*g).contains_key((a, b)) ==> exists|i: int|
                0 <= i < r@.len() && (#[trigger] r@[i]).0 == b,
{
    g.edges_directed(a, petgraph::Direction::Outgoing).map(|(_, b, w)| (b, *w)).collect()
}

/// `GraphMap::edges_directed` with `Incoming`: the edges that enter `b`, each
/// as its source and its weight.
#[verifier::external_body]
fn graph_incoming(g: &WeightedGraph, b: usize) -> (r: Vec<(usize, usize)>)
    ensures
        forall|i: int|
            0 <= i < r@.len() ==> graph_edges(*g).contains_key(((#[trigger] r@[i]).0, b))
                && graph_edges(*g)[(r@[i].0, b)] == r@[i].1,
        forall|a: usize|
            graph_edges(*g).contains_key((a, b)) ==> exists|i: int|
                0 <= i < r@.len() && (#[trigger] r@[i]).0 == a,
{
    g.edges_directed(b, petgraph::Direction::Incoming).map(|(a, _, w)| (a, *w)).collect()
}

/// `IndexMut` of `GraphMap`: gives the edge from `a` to `b` another weight.
/// It panics where there is no such edge.
#[verifier::external_body]
fn graph_set_weight(g: &mut WeightedGraph, a: usize, b: usize, weight: usize)
    requires
        graph_edges(*old(g)).contains_key((a, b)),
    ensures
        graph_edges(*final(g)) == graph_edges(*old(g)).insert((a, b), weight),
{
    g[(a, b)] = weight;
}

/// `Topo::new`: a visitor for the graph that has yielded nothing yet.
#[verifier::external_body]
fn topo_new(g: &WeightedGraph) -> (t: Visitor)
    ensures
        topo_visited(t) == Set::<usize>::empty(),
        topo_edges(t) == graph_edges(*g).dom(),
{
    Topo::new(g)
}

/// `Topo::next` on a graph with the edges that the visitor was made for: a
/// node that it has not yielded before, after every node with an edge into
/// it; or nothing.
#[verifier::external_body]
fn topo_next(t: &mut Visitor, g: &WeightedGraph) -> (r: Option<
    usize,
>)
    requires
        topo_edges(*old(t)) == graph_edges(*g).dom(),
    ensures
        topo_edges(*final(t)) == topo_edges(*old(t)),
        match r {
            Some(n) => !topo_visited(*old(t)).contains(n) && topo_visited(*final(t))
                == topo_visited(*old(t)).insert(n) && forall|a: usize|
                graph_edges(*g).contains_key((a, n)) ==> #[trigger] topo_visited(*old(t)).contains(
                    a,
                ),
            None => topo_visited(*final(t)) == topo_visited(*old(t)),
        },
{
    t.next(g)
}

/// The greatest weight among edges, or zero where there is none.
pub open spec fn greatest_weight(edges: Seq<(usize, usize)>) -> usize
    decreases edges.len(),
{
    if edges.len() == 0 {
        0
    } else if edges.last().1 > greatest_weight(edges.drop_last()) {
        edges.last().1
    } else {
        greatest_weight(edges.drop_last())
    }
}

/// The greatest weight among edges, or zero where there is none.
pub fn heaviest(edges: &Vec<(usize, usize)>) -> (r: usize)
    ensures
        r == greatest_weight(edges@),
        forall|i: int| 0 <= i < edges@.len() ==> (#[trigger] edges@[i]).1 <= r,
        r == 0 || exists|i: int| 0 <= i < edges@.len() && (#[trigger] edges@[i]).1 == r,
{
    let mut greatest: usize = 0;
    let mut i: usize = 0;
    while i < edges.len()
        invariant
            i <= edges@.len(),
            greatest == greatest_weight(edges@.take(i as int)),
            forall|j: int| 0 <= j < i ==> (#[trigger] edges@[j]).1 <= greatest,
            greatest == 0 || exists|j: int| 0 <= j < i && (#[trigger] edges@[j]).1 == greatest,
        decreases edges@.len() - i,
    {
        proof {
            assert(edges@.take(i + 1).drop_last() =~= edges@.take(i as int));
        }
        if edges[i].1 > greatest {
            greatest = edges[i].1;
        }
        i += 1;
    }
    proof {
        assert(edges@.take(i as int) =~= edges@);
    }
    greatest
}

impl CommitGraph {
    /// Levels by relaxation: every edge starts with the weight zero; the
    /// commits are visited in topological order, and each edge that leaves
    /// a visited commit gets as its weight the greatest weight of the edges
    /// into that commit, raised by one, if that is more than it has. The
    /// level of a commit is the greatest weight of the edges into it.
    pub(crate) fn relax(&self) -> (r: Vec<usize>)
        requires
            self.wf(),
        ensures
            r@.len() == self.size(),
    {
        let n = self.nodes.len();
        let mut graph = graph_new();
        graph_add_node(&mut graph, 0);
        let mut c: usize = 0;
        while c < n
            invariant
                self.wf(),
                n == self.size(),
                c <= n,
                forall|e: (usize, usize)|
                    graph_edges(graph).contains_key(e) ==> #[trigger] graph_edges(graph)[e] == 0,
            decreases n - c,
        {
            let mut k: usize = 0;
            while k < self.nodes[c].parents.len()
                invariant
                    self.wf(),
                    n == self.size(),
                    c < n,
                    k <= self.parents_of(c as int).len(),
                    forall|e: (usize, usize)|
                        graph_edges(graph).contains_key(e) ==> #[trigger] graph_edges(graph)[e]
                            == 0,
                decreases self.parents_of(c as int).len() - k,
            {
                let p = self.nodes[c].parents[k];
                let _ = graph_add_edge(&mut graph, c, p, 0);
                k += 1;
            }
            c += 1;
        }
        let mut visitor = topo_new(&graph);
        let mut visited: usize = 0;
        let mut more: bool = true;
        while more && visited < n
            invariant
                visited <= n,
                topo_edges(visitor) == graph_edges(graph).dom(),
                forall|e: (usize, usize)|
                    graph_edges(graph).contains_key(e) ==> #[trigger] graph_edges(graph)[e]
                        <= visited,
            decreases n - visited, (if more { 1int } else { 0int }),
        {
            match topo_next(&mut visitor, &graph) {
                None => {
                    more = false;
                },
                Some(node) => {
                    let incoming = graph_incoming(&graph, node);
                    let outgoing_weight = heaviest(&incoming) + 1;
                    let outgoing = graph_outgoing(&graph, node);
                    let mut i: usize = 0;
                    while i < outgoing.len()
                        invariant
                            i <= outgoing@.len(),
                            visited < n,
                            outgoing_weight <= visited + 1,
                            topo_edges(visitor) == graph_edges(graph).dom(),
                            forall|j: int|
                                0 <= j < outgoing@.len() ==> graph_edges(graph).contains_key(
                                    (node, (#[trigger] outgoing@[j]).0),
                                ),
                            forall|e: (usize, usize)|
                                graph_edges(graph).contains_key(e) ==> #[trigger] graph_edges(
                                    graph,
                                )[e] <= visited + 1,
                        decreases outgoing@.len() - i,
                    {
                        let (parent, existing) = outgoing[i];
                        if outgoing_weight > existing {
                            let ghost before = graph_edges(graph);
                            graph_set_weight(&mut graph, node, parent, outgoing_weight);
                            proof {
                                assert(graph_edges(graph).dom() =~= before.dom());
                            }
                        }
                        i += 1;
                    }
                    visited += 1;
                },
            }
        }
        let mut levels: Vec<usize> = Vec::new();
        while levels.len() < n
            invariant
                levels@.len() <= n,
            decreases n - levels@.len(),
        {
            let incoming = graph_incoming(&graph, levels.len());
            levels.push(heaviest(&incoming));
        }
        levels
    }
}

} // verus!
