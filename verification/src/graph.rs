//! The ancestry of a commit as an arena of nodes, and how the arena is
//! filled while the parents of one commit after another are looked up.

use crate::digest::Oid;
use vstd::prelude::*;

verus! {

/// Whether `p` is among the first `upto` of the places.
pub open spec fn placed_among(places: Seq<usize>, upto: int, p: int) -> bool {
    exists|j: int| 0 <= j < upto && 0 <= j < places.len() && #[trigger] places[j] == p
}

/// One commit of the ancestry.
#[derive(Debug, Clone)]
pub struct CommitNode {
    /// The address of the commit.
    pub id: Oid,
    /// The places of its parents in the arena, in their order.
    pub parents: Vec<usize>,
}

/// The ancestry of a commit. The commit itself is node 0.
#[derive(Debug, Clone)]
pub struct CommitGraph {
    pub nodes: Vec<CommitNode>,
}

impl CommitGraph {
    /// The number of nodes.
    pub open spec fn size(&self) -> nat {
        self.nodes@.len()
    }

    /// The parents of node `v`.
    pub open spec fn parents_of(&self, v: int) -> Seq<usize> {
        self.nodes@[v].parents@
    }

    /// The addresses of the nodes, in the order of the arena.
    pub open spec fn ids(&self) -> Seq<Seq<u8>> {
        Seq::new(self.nodes@.len(), |v: int| self.nodes@[v].id@)
    }

    /// Whether `p` is a parent of `c`.
    pub open spec fn edge(&self, c: int, p: int) -> bool {
        0 <= c < self.size() && exists|k: int|
            0 <= k < self.parents_of(c).len() && #[trigger] self.parents_of(c)[k] == p
    }

    /// There is a start, every parent is a node, and no address occurs twice.
    pub open spec fn wf(&self) -> bool {
        &&& self.size() > 0
        &&& forall|v: int, k: int|
            0 <= v < self.size() && 0 <= k < self.parents_of(v).len() ==> (
            #[trigger] self.parents_of(v)[k]) < self.size()
        &&& forall|v: int, w: int|
            0 <= v < w < self.size() ==> #[trigger] self.nodes@[v].id@ != #[trigger] self.nodes@[w].id@
    }

    /// Whether `p` is a parent of a node that stands before it in the arena.
    pub open spec fn found_from_earlier(&self, p: int) -> bool {
        exists|c: int| 0 <= c < p && #[trigger] self.edge(c, p)
    }

    /// Whether every node but the start is a parent of a node that stands
    /// before it in the arena, as it is where the arena was filled by a
    /// traversal from the start.
    pub open spec fn rooted(&self) -> bool {
        forall|p: int| 0 < p < self.size() ==> #[trigger] self.found_from_earlier(p)
    }

    /// Whether `w` is a walk: a sequence of nodes, each a parent of the one
    /// before it.
    pub open spec fn is_walk(&self, w: Seq<usize>) -> bool {
        &&& w.len() > 0
        &&& forall|i: int| 0 <= i < w.len() ==> (#[trigger] w[i]) < self.size()
        &&& forall|i: int| 0 <= i < w.len() - 1 ==> self.edge(#[trigger] w[i] as int, w[i + 1] as int)
    }

    /// Whether `g` is the generation number of the start: the number of
    /// edges of a longest walk from it. Such a walk ends at a commit without
    /// parents.
    pub open spec fn is_generation(&self, g: nat) -> bool {
        &&& exists|w: Seq<usize>| #[trigger] self.is_walk(w) && w[0] == 0 && w.len() == g + 1
        &&& forall|w: Seq<usize>| #[trigger] self.is_walk(w) && w[0] == 0 ==> w.len() <= g + 1
    }

    /// The number of commits on the chain of first parents below `v`, as far
    /// as `fuel` reaches.
    pub open spec fn first_parent_depth(&self, v: int, fuel: nat) -> nat
        decreases fuel,
    {
        if fuel == 0 || !(0 <= v < self.size()) || self.parents_of(v).len() == 0 {
            0
        } else {
            1 + self.first_parent_depth(self.parents_of(v)[0] as int, (fuel - 1) as nat)
        }
    }

    /// The place of the commit with address `id`, if it is in the arena.
    pub fn find(&self, id: &Oid) -> (r: Option<usize>)
        ensures
            r matches Some(v) ==> v < self.size() && self.nodes@[v as int].id@ == id@,
            r is None ==> forall|v: int| 0 <= v < self.size() ==> self.nodes@[v].id@ != id@,
    {
        let mut v: usize = 0;
        while v < self.nodes.len()
            invariant
                v <= self.nodes.len(),
                forall|u: int| 0 <= u < v ==> self.nodes@[u].id@ != id@,
            decreases self.nodes.len() - v,
        {
            if self.nodes[v].id.same(id) {
                return Some(v);
            }
            v += 1;
        }
        None
    }

    /// The number of commits in the ancestry.
    pub fn len(&self) -> (r: usize)
        ensures
            r == self.size(),
    {
        self.nodes.len()
    }
}

/// The state of a traversal that fills the arena: the nodes found so far,
/// and those whose parents have not been looked up yet.
#[derive(Debug, Clone)]
pub struct GraphBuilder {
    pub graph: CommitGraph,
    /// The nodes whose parents are still to be supplied; the last is next.
    pub pending: Vec<usize>,
}

impl GraphBuilder {
    /// The arena is well formed, each pending node is in it, none is
    /// pending twice, and a pending node has no parents yet.
    pub open spec fn wf(&self) -> bool {
        &&& self.graph.wf()
        &&& self.graph.rooted()
        &&& self.pending@.no_duplicates()
        &&& forall|i: int|
            0 <= i < self.pending@.len() ==> (#[trigger] self.pending@[i]) < self.graph.size()
                && self.graph.parents_of(self.pending@[i] as int).len() == 0
    }

    /// A traversal that has found the start and nothing else.
    pub fn new(start: Oid) -> (r: GraphBuilder)
        ensures
            r.wf(),
            r.graph.ids() == seq![start@],
            r.graph.parents_of(0).len() == 0,
            r.pending@ == seq![0usize],
    {
        let mut nodes: Vec<CommitNode> = Vec::new();
        nodes.push(CommitNode { id: start, parents: Vec::new() });
        let mut pending: Vec<usize> = Vec::new();
        pending.push(0);
        let r = GraphBuilder { graph: CommitGraph { nodes }, pending };
        proof {
            assert(r.graph.ids() =~= seq![start@]);
        }
        r
    }

    /// The commit whose parents are wanted next, if any is left.
    pub fn wanted(&self) -> (r: Option<Oid>)
        requires
            self.wf(),
        ensures
            r is Some <==> self.pending@.len() > 0,
            r matches Some(id) ==> id == self.graph.nodes@[self.pending@.last() as int].id,
    {
        if self.pending.len() == 0 {
            None
        } else {
            Some(self.graph.nodes[self.pending[self.pending.len() - 1]].id)
        }
    }

    /// Takes the parents of the wanted commit. Each parent that is not in
    /// the arena yet becomes a new node at its end and is pending from then
    /// on; one that is there already is not visited again.
    pub fn supply(&mut self, parents: &Vec<Oid>)
        requires
            old(self).wf(),
            old(self).pending@.len() > 0,
        ensures
            final(self).wf(),
            final(self).graph.size() >= old(self).graph.size(),
            final(self).graph.ids().subrange(0, old(self).graph.size() as int) == old(self).graph.ids(),
            forall|v: int|
                0 <= v < old(self).graph.size() && v != old(self).pending@.last() ==> final(self).graph.parents_of(v) == old(self).graph.parents_of(v),
            forall|v: int|
                old(self).graph.size() <= v < final(self).graph.size() ==> final(self).graph.parents_of(v).len() == 0,
            final(self).graph.parents_of(old(self).pending@.last() as int).len() == parents@.len(),
            forall|k: int|
                0 <= k < parents@.len() ==> final(self).graph.ids()[final(self).graph.parents_of(
                    old(self).pending@.last() as int,
                )[k] as int] == #[trigger] parents@[k]@,
            final(self).pending@.len() == old(self).pending@.len() - 1 + (final(self).graph.size()
                - old(self).graph.size()),
    {
        let node = self.pending.pop().unwrap();
        let id = self.graph.nodes[node].id;
        let ghost before = *self;
        let ghost start_size = self.graph.size();
        let ghost start_pending = self.pending@;
        let mut places: Vec<usize> = Vec::new();
        let mut k: usize = 0;
        while k < parents.len()
            invariant
                k <= parents.len(),
                self.graph.wf(),
                self.pending@.no_duplicates(),
                forall|i: int|
                    0 <= i < self.pending@.len() ==> (#[trigger] self.pending@[i]) < self.graph.size()
                        && self.graph.parents_of(self.pending@[i] as int).len() == 0,
                forall|p: int| 0 < p < start_size ==> #[trigger] before.graph.found_from_earlier(p),
                forall|p: int|
                    start_size <= p < self.graph.size() ==> #[trigger] placed_among(
                        places@,
                        k as int,
                        p,
                    ),
                node < start_size <= self.graph.size(),
                self.graph.nodes@[node as int].id == id,
                self.graph.parents_of(node as int).len() == 0,
                !self.pending@.contains(node),
                self.graph.ids().subrange(0, start_size as int) == before.graph.ids(),
                forall|v: int|
                    0 <= v < start_size ==> self.graph.parents_of(v) == before.graph.parents_of(v),
                forall|v: int|
                    start_size <= v < self.graph.size() ==> self.graph.parents_of(v).len() == 0,
                places@.len() == k,
                forall|j: int|
                    0 <= j < k ==> (#[trigger] places@[j]) < self.graph.size()
                        && self.graph.nodes@[places@[j] as int].id@ == parents@[j]@,
                self.pending@.len() == start_pending.len() + (self.graph.size() - start_size),
            decreases parents.len() - k,
        {
            let parent = parents[k];
            let found = self.graph.find(&parent);
            match found {
                Some(place) => {
                    let ghost places_before = places@;
                    places.push(place);
                    proof {
                        assert forall|p: int|
                            start_size <= p < self.graph.size() implies #[trigger] placed_among(
                            places@,
                            k + 1,
                            p,
                        ) by {
                            assert(placed_among(places_before, k as int, p));
                            let j = choose|j: int|
                                0 <= j < k && 0 <= j < places_before.len()
                                    && #[trigger] places_before[j] == p;
                            assert(places@[j] == p);
                        }
                    }
                },
                None => {
                    let place = self.graph.nodes.len();
                    let ghost ids_before = self.graph.ids();
                    let ghost prev = *self;
                    let ghost places_before = places@;
                    self.graph.nodes.push(CommitNode { id: parent, parents: Vec::new() });
                    self.pending.push(place);
                    places.push(place);
                    proof {
                        assert forall|p: int|
                            start_size <= p < self.graph.size() implies #[trigger] placed_among(
                            places@,
                            k + 1,
                            p,
                        ) by {
                            if p < place {
                                assert(placed_among(places_before, k as int, p));
                                let j = choose|j: int|
                                    0 <= j < k && 0 <= j < places_before.len()
                                        && #[trigger] places_before[j] == p;
                                assert(places@[j] == p);
                            } else {
                                assert(places@[k as int] == p);
                            }
                        }
                    }
                    proof {
                        assert(self.graph.ids().subrange(0, start_size as int)
                            =~= ids_before.subrange(0, start_size as int));
                        assert(self.graph.nodes@ == prev.graph.nodes@.push(
                            self.graph.nodes@[place as int],
                        ));
                        assert(self.pending@ == prev.pending@.push(place));
                        assert forall|v: int| 0 <= v < self.graph.size() implies (v < place
                            ==> self.graph.parents_of(v) == prev.graph.parents_of(v)) && (v == place
                            ==> self.graph.parents_of(v).len() == 0) by {}
                        assert forall|v: int, j: int|
                            0 <= v < self.graph.size() && 0 <= j < self.graph.parents_of(
                                v,
                            ).len() implies (#[trigger] self.graph.parents_of(v)[j])
                            < self.graph.size() by {
                            assert(prev.graph.parents_of(v)[j] < prev.graph.size());
                        }
                        assert forall|v: int, w: int| 0 <= v < w < self.graph.size() implies (
                        #[trigger] self.graph.nodes@[v].id@) != (
                        #[trigger] self.graph.nodes@[w].id@) by {
                            if w < place {
                                assert(prev.graph.nodes@[v].id@ != prev.graph.nodes@[w].id@);
                            }
                        }
                        assert forall|i: int, j: int|
                            0 <= i < self.pending@.len() && 0 <= j < self.pending@.len() && i
                                != j implies self.pending@[i] != self.pending@[j] by {
                            if i < prev.pending@.len() {
                                assert(prev.pending@[i] < place);
                            }
                            if j < prev.pending@.len() {
                                assert(prev.pending@[j] < place);
                            }
                        }
                        assert forall|i: int| 0 <= i < self.pending@.len() implies (
                        #[trigger] self.pending@[i]) < self.graph.size() && self.graph.parents_of(
                            self.pending@[i] as int,
                        ).len() == 0 by {
                            if i < prev.pending@.len() {
                                assert(prev.pending@[i] < place);
                            }
                        }
                        assert(!self.pending@.contains(node));
                        assert forall|v: int|
                            start_size <= v < self.graph.size() implies self.graph.parents_of(
                            v,
                        ).len() == 0 by {
                            if v < place {
                                assert(prev.graph.parents_of(v).len() == 0);
                            }
                        }
                    }
                },
            }
            k += 1;
        }
        let ghost prev = *self;
        self.graph.nodes[node] = CommitNode { id, parents: places };
        proof {
            assert(self.graph.nodes@ == prev.graph.nodes@.update(
                node as int,
                self.graph.nodes@[node as int],
            ));
            assert forall|v: int| 0 <= v < self.graph.size() && v != node implies #[trigger] self.graph.parents_of(v) == prev.graph.parents_of(v) by {}
            assert forall|v: int, j: int|
                0 <= v < self.graph.size() && 0 <= j < self.graph.parents_of(v).len() implies (
            #[trigger] self.graph.parents_of(v)[j]) < self.graph.size() by {
                if v != node {
                    assert(prev.graph.parents_of(v)[j] < prev.graph.size());
                } else {
                    assert(places@[j] < self.graph.size());
                }
            }
            assert forall|v: int, w: int| 0 <= v < w < self.graph.size() implies (
            #[trigger] self.graph.nodes@[v].id@) != (#[trigger] self.graph.nodes@[w].id@) by {
                assert(prev.graph.nodes@[v].id@ != prev.graph.nodes@[w].id@);
            }
            assert forall|i: int| 0 <= i < self.pending@.len() implies (
            #[trigger] self.pending@[i]) < self.graph.size() && self.graph.parents_of(
                self.pending@[i] as int,
            ).len() == 0 by {
                assert(prev.pending@.contains(prev.pending@[i]));
            }
            assert forall|k: int| 0 <= k < parents@.len() implies self.graph.ids()[self.graph.parents_of(
                node as int,
            )[k] as int] == #[trigger] parents@[k]@ by {
                assert(places@[k] < self.graph.size());
            }
            assert forall|p: int| 0 < p < self.graph.size() implies #[trigger] self.graph.found_from_earlier(
                p,
            ) by {
                if p < start_size {
                    assert(before.graph.found_from_earlier(p));
                    let c = choose|c: int| 0 <= c < p && #[trigger] before.graph.edge(c, p);
                    let j = choose|j: int|
                        0 <= j < before.graph.parents_of(c).len() && #[trigger] before.graph.parents_of(
                            c,
                        )[j] == p;
                    assert(c != node);
                    assert(self.graph.parents_of(c) == before.graph.parents_of(c));
                    assert(self.graph.parents_of(c)[j] == p);
                    assert(self.graph.edge(c, p));
                } else {
                    assert(placed_among(places@, parents@.len() as int, p));
                    let j = choose|j: int|
                        0 <= j < parents@.len() && 0 <= j < places@.len() && #[trigger] places@[j]
                            == p;
                    assert(self.graph.parents_of(node as int)[j] == p);
                    assert(self.graph.edge(node as int, p));
                }
            }
            assert(final(self).graph.ids().subrange(0, start_size as int) =~= old(self).graph.ids()) by {
                assert(before.graph.ids() =~= old(self).graph.ids());
            }
        }
    }

    /// The arena, once no commit is left whose parents are wanted.
    pub fn finish(self) -> (r: CommitGraph)
        requires
            self.wf(),
            self.pending@.len() == 0,
        ensures
            r == self.graph,
            r.wf(),
            r.rooted(),
    {
        self.graph
    }
}

} // verus!
