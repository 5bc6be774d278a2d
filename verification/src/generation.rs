//! The generation number of a commit: the number of edges of a longest walk
//! from it to a commit without parents.
//!
//! Two procedures compute a level for every commit of the ancestry, the
//! number of edges of a longest walk from the start to it: one by
//! propagation, one by relaxation. Whatever either of them computed is then
//! checked edge by edge. Levels that pass the check give the generation
//! number; where they do not pass it, every edge is relaxed as often as
//! there are commits, which finds the levels wherever there are any.

use crate::graph::CommitGraph;
use vstd::prelude::*;

verus! {

/// What is known of a commit in its ancestry.
#[derive(Debug, Clone, Copy, PartialEq, Eq, Structural)]
pub struct GraphStats {
    /// The number of commits on the chain of first parents below the commit.
    pub revision_index: u32,
    /// The generation number of the commit.
    pub generation_index: u32,
    /// The number of commits in the ancestry, the commit itself not counted.
    pub commit_index: u32,
}

impl GraphStats {
    /// Whether a message about the commit names its generation number: only
    /// where it differs from the number of commits on the chain of first
    /// parents.
    pub fn names_generation(&self) -> (r: bool)
        ensures
            r == (self.generation_index != self.revision_index),
    {
        self.generation_index != self.revision_index
    }

    /// Whether a message about the commit names the number of commits in
    /// its ancestry: only where it differs from the generation number.
    pub fn names_commit_count(&self) -> (r: bool)
        ensures
            r == (self.commit_index != self.generation_index),
    {
        self.commit_index != self.generation_index
    }
}

impl Default for GraphStats {
    fn default() -> (r: Self)
        ensures
            r == (GraphStats { revision_index: 0, generation_index: 0, commit_index: 0 }),
    {
        GraphStats { revision_index: 0, generation_index: 0, commit_index: 0 }
    }
}

/// Distinct numbers below `n` are at most `n`.
pub proof fn lemma_distinct_below(s: Seq<usize>, n: nat)
    requires
        s.no_duplicates(),
        forall|i: int| 0 <= i < s.len() ==> (#[trigger] s[i]) < n,
    ensures
        s.len() <= n,
    decreases n,
{
    if s.len() > 0 {
        if n == 0 {
            assert(s[0] < n);
        } else {
            if exists|i: int| 0 <= i < s.len() && s[i] == n - 1 {
                let i = choose|i: int| 0 <= i < s.len() && s[i] == n - 1;
                let t = s.remove(i);
                assert forall|j: int| 0 <= j < t.len() implies (#[trigger] t[j]) < n - 1 by {
                    if j < i {
                        assert(t[j] == s[j]);
                    } else {
                        assert(t[j] == s[j + 1]);
                    }
                }
                assert forall|j: int, k: int| 0 <= j < t.len() && 0 <= k < t.len() && j != k implies t[j]
                    != t[k] by {
                    let jj = if j < i { j } else { j + 1 };
                    let kk = if k < i { k } else { k + 1 };
                    assert(t[j] == s[jj] && t[k] == s[kk]);
                }
                lemma_distinct_below(t, (n - 1) as nat);
            } else {
                assert forall|j: int| 0 <= j < s.len() implies (#[trigger] s[j]) < n - 1 by {
                    assert(s[j] < n);
                }
                lemma_distinct_below(s, (n - 1) as nat);
            }
        }
    }
}

impl CommitGraph {
    /// Whether the edge from `c` to `p` raises the level by exactly one.
    pub open spec fn tight(&self, levels: Seq<usize>, c: int, p: int) -> bool {
        self.edge(c, p) && levels[p] == levels[c] + 1
    }

    /// Whether some edge into `p` raises the level by exactly one.
    pub open spec fn has_tight(&self, levels: Seq<usize>, p: int) -> bool {
        exists|c: int| #[trigger] self.tight(levels, c, p)
    }

    /// Whether `levels` gives every commit the number of edges of a longest
    /// walk from the start to it: the start has level 0, every edge raises
    /// the level, and every other commit has an edge into it that raises the
    /// level by exactly one.
    pub open spec fn levelled(&self, levels: Seq<usize>) -> bool {
        &&& levels.len() == self.size()
        &&& levels[0] == 0
        &&& forall|c: int, k: int|
            0 <= c < self.size() && 0 <= k < self.parents_of(c).len() ==> levels[(
            #[trigger] self.parents_of(c)[k]) as int] > levels[c]
        &&& forall|p: int| 0 < p < self.size() ==> #[trigger] self.has_tight(levels, p)
    }

    /// Along a walk from the start, the level rises with every edge.
    pub proof fn lemma_walk_bound(&self, levels: Seq<usize>, w: Seq<usize>)
        requires
            self.wf(),
            self.levelled(levels),
            self.is_walk(w),
            w[0] == 0,
        ensures
            levels[w.last() as int] >= w.len() - 1,
        decreases w.len(),
    {
        if w.len() > 1 {
            let v = w.drop_last();
            assert(self.is_walk(v)) by {
                assert forall|i: int| 0 <= i < v.len() - 1 implies self.edge(
                    #[trigger] v[i] as int,
                    v[i + 1] as int,
                ) by {
                    assert(self.edge(w[i] as int, w[i + 1] as int));
                }
            }
            self.lemma_walk_bound(levels, v);
            let c = w[w.len() - 2];
            assert(v.last() == c);
            assert(self.edge(c as int, w[w.len() - 2 + 1] as int));
            let k = choose|k: int|
                0 <= k < self.parents_of(c as int).len() && #[trigger] self.parents_of(c as int)[k]
                    == w.last();
            assert(levels[self.parents_of(c as int)[k] as int] > levels[c as int]);
        }
    }

    /// To every commit there is a walk from the start with as many edges as
    /// its level.
    pub proof fn lemma_walk_to(&self, levels: Seq<usize>, p: int) -> (w: Seq<usize>)
        requires
            self.wf(),
            self.levelled(levels),
            0 <= p < self.size(),
        ensures
            self.is_walk(w),
            w[0] == 0,
            w.last() == p,
            w.len() == levels[p] + 1,
            forall|i: int| 0 <= i < w.len() ==> levels[(#[trigger] w[i]) as int] == i,
        decreases levels[p],
    {
        if p == 0 {
            let w = seq![0usize];
            assert(self.is_walk(w));
            w
        } else {
            assert(self.has_tight(levels, p));
            let c = choose|c: int| #[trigger] self.tight(levels, c, p);
            let v = self.lemma_walk_to(levels, c);
            let w = v.push(p as usize);
            assert(self.is_walk(w)) by {
                assert forall|i: int| 0 <= i < w.len() - 1 implies self.edge(
                    #[trigger] w[i] as int,
                    w[i + 1] as int,
                ) by {
                    if i < v.len() - 1 {
                        assert(self.edge(v[i] as int, v[i + 1] as int));
                    }
                }
            }
            w
        }
    }

    /// The greatest level is the generation number.
    pub proof fn lemma_greatest_level(&self, levels: Seq<usize>, top: int)
        requires
            self.wf(),
            self.levelled(levels),
            0 <= top < self.size(),
            forall|v: int| 0 <= v < self.size() ==> levels[v] <= levels[top],
        ensures
            self.is_generation(levels[top] as nat),
    {
        let w = self.lemma_walk_to(levels, top);
        assert(self.is_walk(w) && w[0] == 0 && w.len() == levels[top] + 1);
        assert forall|u: Seq<usize>| #[trigger] self.is_walk(u) && u[0] == 0 implies u.len()
            <= levels[top] + 1 by {
            self.lemma_walk_bound(levels, u);
        }
    }

    /// A longest walk from the start ends at a commit without parents.
    pub proof fn lemma_longest_walk_ends_at_root(&self, g: nat, w: Seq<usize>)
        requires
            self.wf(),
            self.is_generation(g),
            self.is_walk(w),
            w[0] == 0,
            w.len() == g + 1,
        ensures
            self.parents_of(w.last() as int).len() == 0,
    {
        if self.parents_of(w.last() as int).len() > 0 {
            let p = self.parents_of(w.last() as int)[0];
            let longer = w.push(p);
            assert(self.is_walk(longer)) by {
                assert forall|i: int| 0 <= i < longer.len() - 1 implies self.edge(
                    #[trigger] longer[i] as int,
                    longer[i + 1] as int,
                ) by {
                    if i < w.len() - 1 {
                        assert(self.edge(w[i] as int, w[i + 1] as int));
                    } else {
                        assert(self.parents_of(w.last() as int)[0] == p);
                    }
                }
            }
            assert(longer[0] == 0);
        }
    }

    /// A commit has one generation number at most.
    pub proof fn lemma_generation_unique(&self, a: nat, b: nat)
        requires
            self.is_generation(a),
            self.is_generation(b),
        ensures
            a == b,
    {
        let wa = choose|w: Seq<usize>| #[trigger] self.is_walk(w) && w[0] == 0 && w.len() == a + 1;
        let wb = choose|w: Seq<usize>| #[trigger] self.is_walk(w) && w[0] == 0 && w.len() == b + 1;
        assert(self.is_walk(wa) && wa[0] == 0);
        assert(self.is_walk(wb) && wb[0] == 0);
    }

    /// Every level is below the number of commits.
    pub proof fn lemma_level_below_size(&self, levels: Seq<usize>, p: int)
        requires
            self.wf(),
            self.levelled(levels),
            0 <= p < self.size(),
        ensures
            levels[p] < self.size(),
    {
        let w = self.lemma_walk_to(levels, p);
        assert forall|i: int, j: int| 0 <= i < w.len() && 0 <= j < w.len() && i != j implies w[i]
            != w[j] by {
            assert(levels[w[i] as int] == i);
            assert(levels[w[j] as int] == j);
        }
        lemma_distinct_below(w, self.size());
    }

    /// The commits of an ancestry have their levels in one way only.
    pub proof fn lemma_levels_unique(&self, first: Seq<usize>, second: Seq<usize>)
        requires
            self.wf(),
            self.levelled(first),
            self.levelled(second),
        ensures
            first == second,
    {
        assert forall|p: int| 0 <= p < self.size() implies first[p] == second[p] by {
            let w1 = self.lemma_walk_to(first, p);
            let w2 = self.lemma_walk_to(second, p);
            self.lemma_walk_bound(second, w1);
            self.lemma_walk_bound(first, w2);
        }
        assert(first =~= second);
    }

    /// Whether the commits have levels: whether the parents never lead in a
    /// circle and every commit is an ancestor of the start.
    pub open spec fn has_levels(&self) -> bool {
        exists|levels: Seq<usize>| #[trigger] self.levelled(levels)
    }

    /// Whether `w` is a walk from the start to `p`.
    pub open spec fn walk_to(&self, w: Seq<usize>, p: int) -> bool {
        self.is_walk(w) && w[0] == 0 && w.last() == p
    }

    /// Whether the parents never lead in a circle: no walk comes to a commit
    /// twice.
    pub open spec fn acyclic(&self) -> bool {
        forall|w: Seq<usize>| #[trigger] self.is_walk(w) ==> w.no_duplicates()
    }

    /// Whether `p` is the start or one of its ancestors.
    pub open spec fn is_ancestor(&self, p: int) -> bool {
        exists|w: Seq<usize>| #[trigger] self.walk_to(w, p)
    }

    /// Whether every commit is the start or one of its ancestors.
    pub open spec fn connected(&self) -> bool {
        forall|p: int| 0 <= p < self.size() ==> #[trigger] self.is_ancestor(p)
    }

    /// Whether some walk from the start to `p` has `len` edges.
    pub open spec fn reached_in(&self, p: int, len: nat) -> bool {
        exists|w: Seq<usize>| #[trigger] self.walk_to(w, p) && w.len() == len + 1
    }

    /// The greatest number of edges, up to `bound`, of a walk from the start
    /// to `p`; zero where there is no such walk.
    pub open spec fn longest_to(&self, p: int, bound: nat) -> nat
        decreases bound,
    {
        if bound == 0 || self.reached_in(p, bound) {
            bound
        } else {
            self.longest_to(p, (bound - 1) as nat)
        }
    }

    /// Where a walk to `p` has no more than `bound` edges, the longest such
    /// walk has no fewer edges, and there is one of that length.
    pub proof fn lemma_longest_to(&self, p: int, bound: nat, len: nat)
        requires
            self.reached_in(p, len),
            len <= bound,
        ensures
            len <= self.longest_to(p, bound) <= bound,
            self.reached_in(p, self.longest_to(p, bound)),
        decreases bound,
    {
        if bound != 0 && !self.reached_in(p, bound) {
            self.lemma_longest_to(p, (bound - 1) as nat, len);
        }
    }

    /// A walk with one more step is a walk.
    pub proof fn lemma_walk_push(&self, w: Seq<usize>, p: usize)
        requires
            self.wf(),
            self.is_walk(w),
            self.edge(w.last() as int, p as int),
            p < self.size(),
        ensures
            self.is_walk(w.push(p)),
            w.push(p)[0] == w[0],
            w.push(p).last() == p,
    {
        let longer = w.push(p);
        assert forall|i: int| 0 <= i < longer.len() - 1 implies self.edge(
            #[trigger] longer[i] as int,
            longer[i + 1] as int,
        ) by {
            if i < w.len() - 1 {
                assert(self.edge(w[i] as int, w[i + 1] as int));
            }
        }
    }

    /// A walk without its last step is a walk.
    pub proof fn lemma_walk_drop_last(&self, w: Seq<usize>)
        requires
            self.is_walk(w),
            w.len() >= 2,
        ensures
            self.is_walk(w.drop_last()),
            w.drop_last()[0] == w[0],
            w.drop_last().last() == w[w.len() - 2],
            self.edge(w[w.len() - 2] as int, w.last() as int),
    {
        let v = w.drop_last();
        assert forall|i: int| 0 <= i < v.len() - 1 implies self.edge(
            #[trigger] v[i] as int,
            v[i + 1] as int,
        ) by {
            assert(self.edge(w[i] as int, w[i + 1] as int));
        }
        assert(self.edge(w[w.len() - 2] as int, w[w.len() - 2 + 1] as int));
    }

    /// Where the parents never lead in a circle and every commit is the
    /// start or one of its ancestors, the commits have levels, and so the
    /// start has a generation number.
    pub proof fn lemma_ancestry_has_levels(&self)
        requires
            self.wf(),
            self.size() <= usize::MAX,
            self.acyclic(),
            self.connected(),
        ensures
            self.has_levels(),
    {
        let n = self.size();
        let levels = Seq::new(n, |p: int| self.longest_to(p, n) as usize);
        assert forall|p: int| 0 <= p < n implies self.reached_in(p, #[trigger] self.longest_to(p, n))
            && self.longest_to(p, n) <= n by {
            assert(self.is_ancestor(p));
            let w = choose|w: Seq<usize>| #[trigger] self.walk_to(w, p);
            assert(self.walk_to(w, p));
            assert(w.no_duplicates());
            lemma_distinct_below(w, n);
            assert(self.reached_in(p, (w.len() - 1) as nat));
            self.lemma_longest_to(p, n, (w.len() - 1) as nat);
        }
        assert(levels[0] == 0) by {
            let len = self.longest_to(0, n);
            assert(self.reached_in(0, len));
            let w = choose|w: Seq<usize>| #[trigger] self.walk_to(w, 0) && w.len() == len + 1;
            assert(self.walk_to(w, 0));
            assert(w.no_duplicates());
            if len > 0 {
                assert(w[0] == w[len as int]);
            }
        }
        assert forall|c: int, k: int|
            0 <= c < n && 0 <= k < self.parents_of(c).len() implies levels[(
        #[trigger] self.parents_of(c)[k]) as int] > levels[c] by {
            let p = self.parents_of(c)[k];
            let len = self.longest_to(c, n);
            assert(self.reached_in(c, len));
            let w = choose|w: Seq<usize>| #[trigger] self.walk_to(w, c) && w.len() == len + 1;
            assert(self.walk_to(w, c));
            assert(self.edge(c, p as int));
            self.lemma_walk_push(w, p);
            let longer = w.push(p);
            assert(self.walk_to(longer, p as int));
            assert(longer.no_duplicates());
            lemma_distinct_below(longer, n);
            assert(self.reached_in(p as int, (len + 1) as nat));
            self.lemma_longest_to(p as int, n, (len + 1) as nat);
        }
        assert forall|p: int| 0 < p < n implies #[trigger] self.has_tight(levels, p) by {
            let len = self.longest_to(p, n);
            assert(self.reached_in(p, len));
            let w = choose|w: Seq<usize>| #[trigger] self.walk_to(w, p) && w.len() == len + 1;
            assert(self.walk_to(w, p));
            assert(w.len() >= 2);
            self.lemma_walk_drop_last(w);
            let v = w.drop_last();
            let c = w[w.len() - 2] as int;
            assert(self.walk_to(v, c));
            assert(v.no_duplicates());
            lemma_distinct_below(v, n);
            assert(self.reached_in(c, (len - 1) as nat));
            self.lemma_longest_to(c, n, (len - 1) as nat);
            let k = choose|k: int|
                0 <= k < self.parents_of(c).len() && #[trigger] self.parents_of(c)[k] == p;
            assert(levels[self.parents_of(c)[k] as int] > levels[c]);
            assert(self.tight(levels, c, p));
        }
        assert(self.levelled(levels));
    }

    /// Where the commits have levels, the level rises along every walk.
    pub proof fn lemma_walk_rises(&self, levels: Seq<usize>, w: Seq<usize>, i: int, j: int)
        requires
            self.wf(),
            self.levelled(levels),
            self.is_walk(w),
            0 <= i < j < w.len(),
        ensures
            levels[w[i] as int] < levels[w[j] as int],
        decreases j - i,
    {
        assert(self.edge(w[j - 1] as int, w[j - 1 + 1] as int));
        let k = choose|k: int|
            0 <= k < self.parents_of(w[j - 1] as int).len() && #[trigger] self.parents_of(
                w[j - 1] as int,
            )[k] == w[j];
        assert(levels[self.parents_of(w[j - 1] as int)[k] as int] > levels[w[j - 1] as int]);
        if i < j - 1 {
            self.lemma_walk_rises(levels, w, i, j - 1);
        }
    }

    /// Where the commits have levels, the parents never lead in a circle and
    /// every commit is the start or one of its ancestors.
    pub proof fn lemma_levels_mean_ancestry(&self)
        requires
            self.wf(),
            self.has_levels(),
        ensures
            self.acyclic(),
            self.connected(),
    {
        let levels = choose|levels: Seq<usize>| #[trigger] self.levelled(levels);
        assert forall|w: Seq<usize>| #[trigger] self.is_walk(w) implies w.no_duplicates() by {
            assert forall|i: int, j: int| 0 <= i < w.len() && 0 <= j < w.len() && i != j implies w[i]
                != w[j] by {
                if i < j {
                    self.lemma_walk_rises(levels, w, i, j);
                } else {
                    self.lemma_walk_rises(levels, w, j, i);
                }
            }
        }
        assert forall|p: int| 0 <= p < self.size() implies #[trigger] self.is_ancestor(p) by {
            let w = self.lemma_walk_to(levels, p);
            assert(self.walk_to(w, p));
        }
    }

    /// Where every node but the start was found from an earlier one, there
    /// is a walk from the start to every node.
    pub proof fn lemma_rooted_walk(&self, p: int) -> (w: Seq<usize>)
        requires
            self.wf(),
            self.rooted(),
            0 <= p < self.size(),
        ensures
            self.walk_to(w, p),
        decreases p,
    {
        if p == 0 {
            let w = seq![0usize];
            assert(self.is_walk(w));
            w
        } else {
            assert(self.found_from_earlier(p));
            let c = choose|c: int| 0 <= c < p && #[trigger] self.edge(c, p);
            let v = self.lemma_rooted_walk(c);
            self.lemma_walk_push(v, p as usize);
            v.push(p as usize)
        }
    }

    /// An arena that was filled by a traversal from the start holds the
    /// start and its ancestors only.
    pub proof fn lemma_rooted_is_connected(&self)
        requires
            self.wf(),
            self.rooted(),
        ensures
            self.connected(),
    {
        assert forall|p: int| 0 <= p < self.size() implies #[trigger] self.is_ancestor(p) by {
            let w = self.lemma_rooted_walk(p);
            assert(self.walk_to(w, p));
        }
    }

    /// Whether `r` is what the generation number of the start is given as:
    /// the number, if the commits have levels and it is not too great.
    pub open spec fn generation_outcome(&self, r: Option<u32>) -> bool {
        match r {
            Some(g) => self.has_levels() && self.is_generation(g as nat),
            None => !self.has_levels() || exists|g: nat|
                #[trigger] self.is_generation(g) && g > u32::MAX,
        }
    }

    /// The generation number of the start is given in one way only: the two
    /// procedures agree on every ancestry.
    pub proof fn lemma_outcome_unique(&self, first: Option<u32>, second: Option<u32>)
        requires
            self.generation_outcome(first),
            self.generation_outcome(second),
        ensures
            first == second,
    {
        match (first, second) {
            (Some(a), Some(b)) => {
                self.lemma_generation_unique(a as nat, b as nat);
            },
            (Some(a), None) => {
                let g = choose|g: nat| #[trigger] self.is_generation(g) && g > u32::MAX;
                self.lemma_generation_unique(a as nat, g);
            },
            (None, Some(b)) => {
                let g = choose|g: nat| #[trigger] self.is_generation(g) && g > u32::MAX;
                self.lemma_generation_unique(b as nat, g);
            },
            (None, None) => {},
        }
    }

    /// Whether `levels` passes the check of [`CommitGraph::levelled`].
    pub fn check_levels(&self, levels: &Vec<usize>) -> (ok: bool)
        requires
            self.wf(),
        ensures
            ok == self.levelled(levels@),
    {
        let n = self.nodes.len();
        if levels.len() != n || levels[0] != 0 {
            return false;
        }
        let mut reached: Vec<bool> = Vec::new();
        while reached.len() < n
            invariant
                reached@.len() <= n,
                forall|p: int| 0 <= p < reached@.len() ==> !reached@[p],
            decreases n - reached@.len(),
        {
            reached.push(false);
        }
        let mut c: usize = 0;
        while c < n
            invariant
                self.wf(),
                n == self.size() == levels@.len() == reached@.len(),
                c <= n,
                forall|b: int, k: int|
                    0 <= b < c && 0 <= k < self.parents_of(b).len() ==> levels@[(
                    #[trigger] self.parents_of(b)[k]) as int] > levels@[b],
                forall|b: int, k: int|
                    0 <= b < c && 0 <= k < self.parents_of(b).len() && levels@[(
                    #[trigger] self.parents_of(b)[k]) as int] == levels@[b] + 1
                        ==> reached@[self.parents_of(b)[k] as int],
                forall|p: int| 0 <= p < n && #[trigger] reached@[p] ==> self.has_tight(levels@, p),
            decreases n - c,
        {
            let mut k: usize = 0;
            while k < self.nodes[c].parents.len()
                invariant
                    self.wf(),
                    n == self.size() == levels@.len() == reached@.len(),
                    c < n,
                    k <= self.parents_of(c as int).len(),
                    forall|j: int|
                        0 <= j < k ==> levels@[(#[trigger] self.parents_of(c as int)[j]) as int]
                            > levels@[c as int],
                    forall|b: int, j: int|
                        0 <= b < c && 0 <= j < self.parents_of(b).len() && levels@[(
                        #[trigger] self.parents_of(b)[j]) as int] == levels@[b] + 1
                            ==> reached@[self.parents_of(b)[j] as int],
                    forall|j: int|
                        0 <= j < k && levels@[(#[trigger] self.parents_of(c as int)[j]) as int]
                            == levels@[c as int] + 1 ==> reached@[self.parents_of(c as int)[j] as int],
                    forall|p: int|
                        0 <= p < n && #[trigger] reached@[p] ==> self.has_tight(levels@, p),
                decreases self.parents_of(c as int).len() - k,
            {
                let p = self.nodes[c].parents[k];
                assert(p == self.parents_of(c as int)[k as int]);
                if levels[p] <= levels[c] {
                    return false;
                }
                if levels[p] - 1 == levels[c] {
                    reached[p] = true;
                    assert(self.tight(levels@, c as int, p as int));
                }
                k += 1;
            }
            c += 1;
        }
        let mut p: usize = 1;
        while p < n
            invariant
                self.wf(),
                n == self.size() == levels@.len() == reached@.len(),
                1 <= p <= n,
                levels@[0] == 0,
                forall|b: int, k: int|
                    0 <= b < n && 0 <= k < self.parents_of(b).len() ==> levels@[(
                    #[trigger] self.parents_of(b)[k]) as int] > levels@[b],
                forall|b: int, k: int|
                    0 <= b < n && 0 <= k < self.parents_of(b).len() && levels@[(
                    #[trigger] self.parents_of(b)[k]) as int] == levels@[b] + 1
                        ==> reached@[self.parents_of(b)[k] as int],
                forall|q: int| 0 < q < p ==> #[trigger] self.has_tight(levels@, q),
                forall|q: int| 0 <= q < n && #[trigger] reached@[q] ==> self.has_tight(levels@, q),
            decreases n - p,
        {
            if !reached[p] {
                proof {
                    if self.has_tight(levels@, p as int) {
                        let b = choose|b: int| #[trigger] self.tight(levels@, b, p as int);
                        let k = choose|k: int|
                            0 <= k < self.parents_of(b).len() && #[trigger] self.parents_of(b)[k]
                                == p;
                        assert(reached@[self.parents_of(b)[k] as int]);
                    }
                }
                return false;
            }
            p += 1;
        }
        true
    }

    /// The generation number that checked levels give: the greatest of them.
    pub fn greatest_level(&self, levels: &Vec<usize>) -> (r: usize)
        requires
            self.wf(),
            self.levelled(levels@),
        ensures
            self.is_generation(r as nat),
            r < self.size(),
    {
        let mut top: usize = 0;
        let mut v: usize = 1;
        while v < levels.len()
            invariant
                levels@.len() == self.size(),
                1 <= v <= levels@.len(),
                top < v,
                forall|u: int| 0 <= u < v ==> levels@[u] <= levels@[top as int],
            decreases levels@.len() - v,
        {
            if levels[v] > levels[top] {
                top = v;
            }
            v += 1;
        }
        proof {
            self.lemma_greatest_level(levels@, top as int);
            self.lemma_level_below_size(levels@, top as int);
        }
        levels[top]
    }

    /// Levels by propagation: a commit is taken up once every edge into it
    /// has been accounted for, and hands its level, raised by one, down
    /// every edge that leaves it.
    fn propagate(&self) -> (r: Vec<usize>)
        requires
            self.wf(),
        ensures
            r@.len() == self.size(),
    {
        let n = self.nodes.len();
        let mut unaccounted: Vec<usize> = Vec::new();
        let mut levels: Vec<usize> = Vec::new();
        let mut queued: Vec<bool> = Vec::new();
        while unaccounted.len() < n
            invariant
                unaccounted@.len() <= n,
                levels@.len() == unaccounted@.len() == queued@.len(),
                forall|v: int| 0 <= v < levels@.len() ==> levels@[v] == 0 && !queued@[v],
            decreases n - unaccounted@.len(),
        {
            unaccounted.push(0);
            levels.push(0);
            queued.push(false);
        }
        let mut c: usize = 0;
        while c < n
            invariant
                self.wf(),
                n == self.size() == unaccounted@.len(),
                c <= n,
            decreases n - c,
        {
            let mut k: usize = 0;
            while k < self.nodes[c].parents.len()
                invariant
                    self.wf(),
                    n == self.size() == unaccounted@.len(),
                    c < n,
                    k <= self.parents_of(c as int).len(),
                decreases self.parents_of(c as int).len() - k,
            {
                let p = self.nodes[c].parents[k];
                assert(p == self.parents_of(c as int)[k as int]);
                if unaccounted[p] < usize::MAX {
                    unaccounted[p] = unaccounted[p] + 1;
                }
                k += 1;
            }
            c += 1;
        }
        let mut live: Vec<usize> = Vec::new();
        let ghost mut order: Seq<usize> = Seq::empty();
        live.push(0);
        queued[0] = true;
        while live.len() > 0
            invariant
                self.wf(),
                n == self.size() == unaccounted@.len() == levels@.len() == queued@.len(),
                order.no_duplicates(),
                live@.no_duplicates(),
                forall|i: int, j: int|
                    0 <= i < order.len() && 0 <= j < live@.len() ==> order[i] != live@[j],
                forall|i: int|
                    0 <= i < order.len() ==> (#[trigger] order[i]) < n && queued@[order[i] as int],
                forall|j: int|
                    0 <= j < live@.len() ==> (#[trigger] live@[j]) < n && queued@[live@[j] as int],
                forall|v: int| 0 <= v < n ==> levels@[v] <= order.len(),
            decreases n - order.len(),
        {
            proof {
                vstd::seq_lib::lemma_no_dup_in_concat(order, live@);
                assert forall|i: int| 0 <= i < (order + live@).len() implies (#[trigger] (order
                    + live@)[i]) < n by {
                    if i < order.len() {
                        assert(order[i] < n);
                    } else {
                        assert(live@[i - order.len()] < n);
                    }
                }
                lemma_distinct_below(order + live@, n as nat);
            }
            let v = live.pop().unwrap();
            proof {
                order = order.push(v);
            }
            let level = levels[v];
            let mut k: usize = 0;
            while k < self.nodes[v].parents.len()
                invariant
                    self.wf(),
                    n == self.size() == unaccounted@.len() == levels@.len() == queued@.len(),
                    v < n,
                    order.len() <= n,
                    level < order.len(),
                    k <= self.parents_of(v as int).len(),
                    order.no_duplicates(),
                    live@.no_duplicates(),
                    forall|i: int, j: int|
                        0 <= i < order.len() && 0 <= j < live@.len() ==> order[i] != live@[j],
                    forall|i: int|
                        0 <= i < order.len() ==> (#[trigger] order[i]) < n
                            && queued@[order[i] as int],
                    forall|j: int|
                        0 <= j < live@.len() ==> (#[trigger] live@[j]) < n && queued@[live@[j] as int],
                    forall|u: int| 0 <= u < n ==> levels@[u] <= order.len(),
                decreases self.parents_of(v as int).len() - k,
            {
                let p = self.nodes[v].parents[k];
                assert(p == self.parents_of(v as int)[k as int]);
                if levels[p] < level + 1 {
                    levels[p] = level + 1;
                }
                if unaccounted[p] > 0 {
                    unaccounted[p] = unaccounted[p] - 1;
                    if unaccounted[p] == 0 && !queued[p] {
                        queued[p] = true;
                        live.push(p);
                    }
                }
                k += 1;
            }
        }
        levels
    }

    /// Levels by relaxing every edge again and again, as often as there are
    /// commits, which is more than enough wherever the commits have levels.
    pub fn settle(&self) -> (r: Vec<usize>)
        requires
            self.wf(),
        ensures
            r@.len() == self.size(),
            forall|levels: Seq<usize>| #[trigger] self.levelled(levels) ==> r@ == levels,
    {
        let n = self.nodes.len();
        let ghost witness: Seq<usize> = choose|l: Seq<usize>| #[trigger] self.levelled(l);
        let ghost known: bool = self.levelled(witness);
        let mut lv: Vec<usize> = Vec::new();
        while lv.len() < n
            invariant
                lv@.len() <= n,
                forall|p: int| 0 <= p < lv@.len() ==> lv@[p] == 0,
            decreases n - lv@.len(),
        {
            lv.push(0);
        }
        let mut round: usize = 1;
        proof {
            if self.has_levels() {
                assert(self.levelled(witness));
            }
        }
        while round < n
            invariant
                self.wf(),
                n == self.size() == lv@.len(),
                1 <= round <= n,
                known == self.levelled(witness),
                self.has_levels() ==> known,
                known ==> forall|p: int| 0 <= p < n ==> #[trigger] lv@[p] <= witness[p],
                known ==> forall|p: int|
                    0 <= p < n && witness[p] < round ==> #[trigger] lv@[p] == witness[p],
            decreases n - round,
        {
            let mut c: usize = 0;
            while c < n
                invariant
                    self.wf(),
                    n == self.size() == lv@.len(),
                    1 <= round < n,
                    c <= n,
                    known == self.levelled(witness),
                self.has_levels() ==> known,
                    known ==> forall|p: int| 0 <= p < n ==> #[trigger] lv@[p] <= witness[p],
                    known ==> forall|p: int|
                        0 <= p < n && witness[p] < round ==> #[trigger] lv@[p] == witness[p],
                    known ==> forall|b: int, k: int|
                        0 <= b < c && 0 <= k < self.parents_of(b).len() && witness[b] < round
                            ==> lv@[(#[trigger] self.parents_of(b)[k]) as int] >= witness[b] + 1,
                decreases n - c,
            {
                let mut k: usize = 0;
                while k < self.nodes[c].parents.len()
                    invariant
                        self.wf(),
                        n == self.size() == lv@.len(),
                        1 <= round < n,
                        c < n,
                        k <= self.parents_of(c as int).len(),
                        known == self.levelled(witness),
                self.has_levels() ==> known,
                        known ==> forall|p: int| 0 <= p < n ==> #[trigger] lv@[p] <= witness[p],
                        known ==> forall|p: int|
                            0 <= p < n && witness[p] < round ==> #[trigger] lv@[p] == witness[p],
                        known ==> forall|b: int, j: int|
                            0 <= b < c && 0 <= j < self.parents_of(b).len() && witness[b] < round
                                ==> lv@[(#[trigger] self.parents_of(b)[j]) as int] >= witness[b]
                                + 1,
                        known ==> forall|j: int|
                            0 <= j < k && witness[c as int] < round ==> lv@[(
                            #[trigger] self.parents_of(c as int)[j]) as int] >= witness[c as int]
                                + 1,
                    decreases self.parents_of(c as int).len() - k,
                {
                    let p = self.nodes[c].parents[k];
                    assert(p == self.parents_of(c as int)[k as int]);
                    proof {
                        if known {
                            self.lemma_level_below_size(witness, p as int);
                            assert(witness[self.parents_of(c as int)[k as int] as int]
                                > witness[c as int]);
                            assert(lv@[c as int] <= witness[c as int]);
                        }
                    }
                    if lv[c] >= n - 1 {
                        return lv;
                    }
                    let raised = lv[c] + 1;
                    if lv[p] < raised {
                        let ghost before = lv@;
                        lv[p] = raised;
                        proof {
                            if known {
                                assert forall|q: int| 0 <= q < n implies #[trigger] lv@[q]
                                    <= witness[q] by {
                                    assert(before[q] <= witness[q]);
                                }
                                assert forall|q: int|
                                    0 <= q < n && witness[q] < round implies #[trigger] lv@[q]
                                    == witness[q] by {
                                    assert(before[q] == witness[q]);
                                }
                                assert forall|b: int, j: int|
                                    0 <= b < c && 0 <= j < self.parents_of(b).len() && witness[b]
                                        < round implies lv@[(
                                #[trigger] self.parents_of(b)[j]) as int] >= witness[b] + 1 by {
                                    assert(before[self.parents_of(b)[j] as int] >= witness[b] + 1);
                                }
                                assert forall|j: int|
                                    0 <= j < k && witness[c as int] < round implies lv@[(
                                #[trigger] self.parents_of(c as int)[j]) as int] >= witness[c as int]
                                    + 1 by {
                                    assert(before[self.parents_of(c as int)[j] as int]
                                        >= witness[c as int] + 1);
                                }
                            }
                        }
                    }
                    proof {
                        if known && witness[c as int] < round {
                            assert(lv@[c as int] == witness[c as int]);
                        }
                    }
                    k += 1;
                }
                c += 1;
            }
            proof {
                if known {
                    assert forall|p: int| 0 <= p < n && witness[p] < round + 1 implies #[trigger] lv@[p]
                        == witness[p] by {
                        if witness[p] == round {
                            assert(self.has_tight(witness, p));
                            let b = choose|b: int| #[trigger] self.tight(witness, b, p);
                            let k = choose|k: int|
                                0 <= k < self.parents_of(b).len() && #[trigger] self.parents_of(
                                    b,
                                )[k] == p;
                            assert(lv@[self.parents_of(b)[k] as int] >= witness[b] + 1);
                            assert(lv@[p] <= witness[p]);
                        }
                    }
                }
            }
            round += 1;
        }
        proof {
            if known {
                assert forall|p: int| 0 <= p < n implies lv@[p] == witness[p] by {
                    self.lemma_level_below_size(witness, p);
                }
                assert(lv@ =~= witness);
                assert forall|levels: Seq<usize>| #[trigger] self.levelled(levels) implies lv@
                    == levels by {
                    self.lemma_levels_unique(levels, witness);
                }
            }
        }
        lv
    }

    /// The levels of the commits, if they have levels: those that were
    /// computed if they pass the check, else those that exhaustive
    /// relaxation gives, if they pass it.
    pub fn settled_levels(&self, computed: Vec<usize>) -> (r: Option<Vec<usize>>)
        requires
            self.wf(),
        ensures
            r is Some <==> self.has_levels(),
            r matches Some(levels) ==> self.levelled(levels@),
    {
        if self.check_levels(&computed) {
            return Some(computed);
        }
        let settled = self.settle();
        if self.check_levels(&settled) {
            Some(settled)
        } else {
            None
        }
    }

    /// The generation number of the start, from levels that were computed.
    /// `None` where the commits have no levels, or where the number is too
    /// great.
    pub fn generation_from(&self, computed: Vec<usize>) -> (r: Option<u32>)
        requires
            self.wf(),
        ensures
            self.generation_outcome(r),
            r matches Some(g) ==> self.is_generation(g as nat),
            r is None ==> !self.acyclic() || !self.connected() || self.size() > u32::MAX,
            r is Some ==> self.acyclic() && self.connected(),
            self.rooted() && self.size() <= u32::MAX ==> (r is Some <==> self.acyclic()),
    {
        proof {
            if self.rooted() {
                self.lemma_rooted_is_connected();
            }
        }
        proof {
            if self.has_levels() {
                self.lemma_levels_mean_ancestry();
            }
            if self.acyclic() && self.connected() && self.size() <= u32::MAX {
                self.lemma_ancestry_has_levels();
            }
        }
        match self.settled_levels(computed) {
            None => None,
            Some(levels) => {
                let g = self.greatest_level(&levels);
                if g > u32::MAX as usize {
                    assert(self.is_generation(g as nat) && g > u32::MAX);
                    None
                } else {
                    Some(g as u32)
                }
            },
        }
    }

    /// The generation number of the start, with levels by propagation.
    /// `None` where the commits have no levels, or where the number is too
    /// great.
    pub fn generation_number(&self) -> (r: Option<u32>)
        requires
            self.wf(),
        ensures
            self.generation_outcome(r),
            r matches Some(g) ==> self.is_generation(g as nat),
            r is None ==> !self.acyclic() || !self.connected() || self.size() > u32::MAX,
            r is Some ==> self.acyclic() && self.connected(),
            self.rooted() && self.size() <= u32::MAX ==> (r is Some <==> self.acyclic()),
    {
        proof {
            if self.rooted() {
                self.lemma_rooted_is_connected();
            }
        }
        let levels = self.propagate();
        self.generation_from(levels)
    }

    /// The generation number of the start, with levels by relaxation. `None`
    /// as for [`CommitGraph::generation_number`].
    pub fn relaxed_generation_number(&self) -> (r: Option<u32>)
        requires
            self.wf(),
        ensures
            self.generation_outcome(r),
            r matches Some(g) ==> self.is_generation(g as nat),
            r is None ==> !self.acyclic() || !self.connected() || self.size() > u32::MAX,
            r is Some ==> self.acyclic() && self.connected(),
            self.rooted() && self.size() <= u32::MAX ==> (r is Some <==> self.acyclic()),
    {
        proof {
            if self.rooted() {
                self.lemma_rooted_is_connected();
            }
        }
        let levels = self.relax();
        self.generation_from(levels)
    }

    /// The number of commits on the chain of first parents below the start.
    pub fn revision_index(&self) -> (r: usize)
        requires
            self.wf(),
        ensures
            r == self.first_parent_depth(0, self.size()),
            r <= self.size(),
    {
        let n = self.nodes.len();
        let mut v: usize = 0;
        let mut steps: usize = 0;
        while steps < n && self.nodes[v].parents.len() > 0
            invariant
                self.wf(),
                n == self.size(),
                v < n,
                steps <= n,
                self.first_parent_depth(0, n as nat) == steps + self.first_parent_depth(
                    v as int,
                    (n - steps) as nat,
                ),
            decreases n - steps,
        {
            let p = self.nodes[v].parents[0];
            assert(p == self.parents_of(v as int)[0]);
            v = p;
            steps += 1;
        }
        steps
    }

    /// The three numbers of the start, with its generation number by
    /// relaxation. `None` where the commits have no levels, or where one of
    /// the numbers is too great.
    pub fn graph_stats(&self) -> (r: Option<GraphStats>)
        requires
            self.wf(),
        ensures
            r matches Some(s) ==> self.is_generation(s.generation_index as nat) && s.revision_index
                == self.first_parent_depth(0, self.size()) && s.commit_index == self.size() - 1,
            r is None ==> !self.acyclic() || !self.connected() || self.size() > u32::MAX,
            r is Some ==> self.acyclic() && self.connected(),
            self.rooted() && self.size() <= u32::MAX ==> (r is Some <==> self.acyclic()),
    {
        proof {
            if self.rooted() {
                self.lemma_rooted_is_connected();
            }
        }
        let revision = self.revision_index();
        let count = self.nodes.len() - 1;
        if revision > u32::MAX as usize || count > u32::MAX as usize {
            return None;
        }
        match self.relaxed_generation_number() {
            Some(generation) => Some(
                GraphStats {
                    revision_index: revision as u32,
                    generation_index: generation,
                    commit_index: count as u32,
                },
            ),
            None => None,
        }
    }
}

} // verus!
