//! The search for a pair of timestamps that gives a commit an address which
//! matches a masked target.
//!
//! Candidates are numbered by an index: the pair of offsets at that index is
//! added to the ideal timestamps. A candidate ranks before another if more
//! leading bits of its address match the target, or as many and its index is
//! lower. The search yields the candidate that ranks first below a limit.

use crate::commit::{BruteForcedCommit, Commit, Draft};
use crate::digest::{commit_tag, object_id, Oid};
use crate::hex::MaskedBytes;
use crate::zigzag::{index_to_pair, ZugZug};
use vstd::prelude::*;

verus! {

/// The number of zero bits at the top of a byte.
pub open spec fn leading_zero_bits(x: u8) -> nat {
    if x >= 128 {
        0
    } else if x >= 64 {
        1
    } else if x >= 32 {
        2
    } else if x >= 16 {
        3
    } else if x >= 8 {
        4
    } else if x >= 4 {
        5
    } else if x >= 2 {
        6
    } else if x >= 1 {
        7
    } else {
        8
    }
}

/// For each byte that is compared, the bits in which an address differs from
/// the target where the mask lets them count. Bytes of the target beyond
/// the 20 bytes of an address are not compared.
pub open spec fn difference(id: Seq<u8>, bytes: Seq<u8>, mask: Seq<u8>) -> Seq<u8> {
    Seq::new(
        if bytes.len() < 20 {
            bytes.len()
        } else {
            20
        },
        |k: int| (id[k] ^ bytes[k]) & mask[k],
    )
}

/// The number of leading bits without a difference, from byte `k` on.
pub open spec fn matched_from(diff: Seq<u8>, k: int) -> nat
    decreases diff.len() - k,
{
    if k < 0 || k >= diff.len() {
        0
    } else if diff[k] == 0 {
        8 + matched_from(diff, k + 1)
    } else {
        leading_zero_bits(diff[k])
    }
}

/// The number of leading bits of an address that match the target.
pub open spec fn matched_bits(id: Seq<u8>, bytes: Seq<u8>, mask: Seq<u8>) -> nat {
    matched_from(difference(id, bytes, mask), 0)
}

/// Whether an address matches the target in every bit that counts.
pub open spec fn matches_target(id: Seq<u8>, bytes: Seq<u8>, mask: Seq<u8>) -> bool {
    forall|k: int|
        0 <= k < difference(id, bytes, mask).len() ==> #[trigger] difference(id, bytes, mask)[k]
            == 0
}

/// Whether a candidate with `score` matching bits at `index` ranks before one
/// with `other_score` matching bits at `other_index`.
pub open spec fn outranks(score: nat, index: nat, other_score: nat, other_index: nat) -> bool {
    score > other_score || (score == other_score && index < other_index)
}

/// No more bits match than are compared, and all of them match exactly
/// where there is no difference.
pub proof fn lemma_matched_from_bound(diff: Seq<u8>, k: int)
    requires
        0 <= k <= diff.len(),
    ensures
        matched_from(diff, k) <= 8 * (diff.len() - k),
        matched_from(diff, k) == 8 * (diff.len() - k) <==> forall|j: int|
            k <= j < diff.len() ==> #[trigger] diff[j] == 0,
    decreases diff.len() - k,
{
    if k < diff.len() {
        lemma_matched_from_bound(diff, k + 1);
        if diff[k] != 0 {
            assert(leading_zero_bits(diff[k]) < 8);
        }
    }
}

/// A full score means a match in every bit that counts, and the reverse.
pub proof fn lemma_full_score(id: Seq<u8>, bytes: Seq<u8>, mask: Seq<u8>)
    ensures
        matched_bits(id, bytes, mask) <= 8 * difference(id, bytes, mask).len(),
        matched_bits(id, bytes, mask) == 8 * difference(id, bytes, mask).len() <==> matches_target(
            id,
            bytes,
            mask,
        ),
{
    lemma_matched_from_bound(difference(id, bytes, mask), 0);
}

/// The number of leading bits of `id` that match the target, and the number
/// of bits that are compared.
pub fn score(id: &Oid, target: &MaskedBytes) -> (r: (u8, u8))
    requires
        target.wf(),
    ensures
        r.0 == matched_bits(id@, target.bytes@, target.mask@),
        r.1 == 8 * difference(id@, target.bytes@, target.mask@).len(),
        r.0 <= r.1 <= 160,
        r.0 == r.1 <==> matches_target(id@, target.bytes@, target.mask@),
{
    let compared: usize = if target.bytes.len() < 20 {
        target.bytes.len()
    } else {
        20
    };
    let ghost diff = difference(id@, target.bytes@, target.mask@);
    let full: u8 = (8 * compared) as u8;
    let mut k: usize = 0;
    while k < compared
        invariant
            k <= compared == diff.len(),
            compared <= 20,
            full == 8 * compared,
            target.wf(),
            diff == difference(id@, target.bytes@, target.mask@),
            matched_from(diff, 0) == 8 * k + matched_from(diff, k as int),
        decreases compared - k,
    {
        let d: u8 = (id.bytes[k] ^ target.bytes[k]) & target.mask[k];
        assert(d == diff[k as int]);
        if d != 0 {
            let zeros: u8 = if d >= 128 {
                0
            } else if d >= 64 {
                1
            } else if d >= 32 {
                2
            } else if d >= 16 {
                3
            } else if d >= 8 {
                4
            } else if d >= 4 {
                5
            } else if d >= 2 {
                6
            } else {
                7
            };
            proof {
                lemma_full_score(id@, target.bytes@, target.mask@);
            }
            return ((8 * k) as u8 + zeros, full);
        }
        k += 1;
    }
    proof {
        lemma_full_score(id@, target.bytes@, target.mask@);
    }
    (full, full)
}

/// One trial: the timestamps at an index, the commit they give, and how much
/// of its address matches the target.
#[derive(Debug, Clone)]
pub struct Candidate {
    /// The index of the pair of offsets.
    pub index: u64,
    pub author_timestamp: i64,
    pub committer_timestamp: i64,
    /// The commit with these timestamps.
    pub commit: Commit,
    /// The number of leading bits of its address that match the target.
    pub matched_bits: u8,
}

/// What is searched for, and from where.
#[derive(Debug, Clone)]
pub struct Search {
    /// The commit whose timestamps are open.
    pub draft: Draft,
    /// The pattern that the address should match.
    pub target: MaskedBytes,
    /// The author's timestamp that would be best.
    pub ideal_author_timestamp: i64,
    /// The committer's timestamp that would be best.
    pub ideal_committer_timestamp: i64,
    /// The least timestamp that the author may have.
    pub min_author_timestamp: i64,
}

impl Search {
    pub open spec fn wf(&self) -> bool {
        self.draft.wf() && self.target.wf()
    }

    /// The author's timestamp at an index: the ideal one, moved by the
    /// lower offset of the pair.
    pub open spec fn author_time(&self, index: nat) -> int {
        self.ideal_author_timestamp + index_to_pair(index).0
    }

    /// The committer's timestamp at an index: the ideal one, moved by the
    /// higher offset of the pair.
    pub open spec fn committer_time(&self, index: nat) -> int {
        self.ideal_committer_timestamp + index_to_pair(index).1
    }

    /// Whether the index gives a candidate: both timestamps can be
    /// represented, and the author's is not below its minimum.
    pub open spec fn admissible(&self, index: nat) -> bool {
        &&& self.min_author_timestamp <= self.author_time(index) <= i64::MAX
        &&& i64::MIN <= self.committer_time(index) <= i64::MAX
    }

    /// The record of the candidate at an index.
    pub open spec fn body_at(&self, index: nat) -> Seq<u8> {
        self.draft.rendered(self.author_time(index), self.committer_time(index))
    }

    /// The address of the candidate at an index.
    pub open spec fn id_at(&self, index: nat) -> Seq<u8> {
        object_id(commit_tag(), self.body_at(index))
    }

    /// The number of leading bits that match at an index.
    pub open spec fn score_at(&self, index: nat) -> nat {
        matched_bits(self.id_at(index), self.target.bytes@, self.target.mask@)
    }

    /// The number of bits that are compared.
    pub open spec fn full_score(&self) -> nat {
        if self.target.bytes@.len() < 20 {
            8 * self.target.bytes@.len()
        } else {
            160
        }
    }

    /// Whether the candidate at an index matches the target in full.
    pub open spec fn hit_at(&self, index: nat) -> bool {
        self.admissible(index) && matches_target(
            self.id_at(index),
            self.target.bytes@,
            self.target.mask@,
        )
    }

    /// Whether `c` is the candidate at its index.
    pub open spec fn is_candidate(&self, c: Candidate) -> bool {
        &&& self.admissible(c.index as nat)
        &&& c.author_timestamp == self.author_time(c.index as nat)
        &&& c.committer_timestamp == self.committer_time(c.index as nat)
        &&& c.commit.body@ == self.body_at(c.index as nat)
        &&& c.commit.id@ == self.id_at(c.index as nat)
        &&& c.matched_bits == self.score_at(c.index as nat)
    }

    /// Whether the candidate at `index` is as good as or better than the
    /// one at `other`: it is the same, or it ranks before it.
    pub open spec fn covers(&self, index: nat, other: nat) -> bool {
        index == other || outranks(self.score_at(index), index, self.score_at(other), other)
    }

    /// Whether there is a leader and it is as good as the candidate at
    /// `other`, or better.
    pub open spec fn settles(&self, leader: Option<Candidate>, other: nat) -> bool {
        leader is Some && self.covers(leader.unwrap().index as nat, other)
    }

    /// Whether the candidate at `index` ranks first among those below `limit`.
    pub open spec fn ranks_first(&self, index: nat, limit: nat) -> bool {
        &&& self.admissible(index)
        &&& forall|j: nat| j < limit && self.admissible(j) ==> #[trigger] self.covers(index, j)
    }

    /// The indices that one worker visits: from `start` on in steps of
    /// `step`, below `limit`.
    pub open spec fn visits(start: nat, step: nat, limit: nat, j: nat) -> bool {
        start <= j < limit && (j - start) % (step as int) == 0
    }

    /// The candidate at an index, if the index gives one.
    pub fn candidate(&self, index: u64) -> (r: Option<Candidate>)
        requires
            self.wf(),
        ensures
            r is Some <==> self.admissible(index as nat),
            r matches Some(c) ==> c.index == index && self.is_candidate(c),
    {
        let (delta_author, delta_committer) = index.zugzug();
        let author = match self.ideal_author_timestamp.checked_add(delta_author) {
            Some(t) => t,
            None => {
                return None;
            },
        };
        let committer = match self.ideal_committer_timestamp.checked_add(delta_committer) {
            Some(t) => t,
            None => {
                return None;
            },
        };
        if author < self.min_author_timestamp {
            return None;
        }
        let commit = Commit::new(self.draft.render(author, committer));
        let (matched, _) = score(&commit.id, &self.target);
        Some(
            Candidate {
                index,
                author_timestamp: author,
                committer_timestamp: committer,
                commit,
                matched_bits: matched,
            },
        )
    }

    /// The better of a leader and a challenger: the challenger only if it
    /// ranks before the leader.
    pub fn leading(&self, leader: Option<Candidate>, challenger: Candidate) -> (r: Candidate)
        requires
            self.is_candidate(challenger),
            leader matches Some(c) ==> self.is_candidate(c),
        ensures
            self.is_candidate(r),
            r == challenger || leader == Some(r),
            self.covers(r.index as nat, challenger.index as nat),
            leader matches Some(c) ==> self.covers(r.index as nat, c.index as nat),
            leader matches Some(c) ==> r == (if outranks(
                challenger.matched_bits as nat,
                challenger.index as nat,
                c.matched_bits as nat,
                c.index as nat,
            ) {
                challenger
            } else {
                c
            }),
    {
        match leader {
            None => challenger,
            Some(c) => {
                if challenger.matched_bits > c.matched_bits || (challenger.matched_bits
                    == c.matched_bits && challenger.index < c.index) {
                    challenger
                } else {
                    c
                }
            },
        }
    }

    /// One worker's part of the search: visits the indices from `start` on
    /// in steps of `step` below `limit`, and returns the leader after them.
    /// It stops early once the leader matches in full and has a lower index
    /// than those still to visit, which then cannot rank before it.
    pub fn scan(&self, leader: Option<Candidate>, start: u64, step: u64, limit: u64) -> (r: Option<
        Candidate,
    >)
        requires
            self.wf(),
            step > 0,
            leader matches Some(c) ==> self.is_candidate(c),
        ensures
            r matches Some(c) ==> self.is_candidate(c) && (leader == r || Self::visits(
                start as nat,
                step as nat,
                limit as nat,
                c.index as nat,
            )),
            leader matches Some(c) ==> r is Some && self.covers(
                r.unwrap().index as nat,
                c.index as nat,
            ),
            forall|j: nat|
                Self::visits(start as nat, step as nat, limit as nat, j) && self.admissible(j)
                    ==> #[trigger] self.settles(r, j),
    {
        let full: u8 = self.full_bits();
        let mut best = leader;
        let mut index: u64 = start;
        let mut active: bool = start < limit;
        proof {
            vstd::arithmetic::div_mod::lemma_small_mod(0, step as nat);
        }
        while active
            invariant
                self.wf(),
                step > 0,
                full == self.full_score(),
                start <= index,
                (index - start) % (step as int) == 0,
                active ==> index < limit,
                leader matches Some(c) ==> best is Some && self.covers(
                    best.unwrap().index as nat,
                    c.index as nat,
                ),
                best matches Some(c) ==> self.is_candidate(c) && (leader == best || Self::visits(
                    start as nat,
                    step as nat,
                    limit as nat,
                    c.index as nat,
                )),
                forall|j: nat|
                    Self::visits(start as nat, step as nat, limit as nat, j) && self.admissible(j)
                        && (j < index || !active) ==> #[trigger] self.settles(best, j),
            decreases limit - index, (if active { 1int } else { 0int }),
        {
            let pruned = match &best {
                Some(c) => c.matched_bits == full && c.index < index,
                None => false,
            };
            if pruned {
                proof {
                    let c = best.unwrap();
                    assert forall|j: nat|
                        Self::visits(start as nat, step as nat, limit as nat, j)
                            && self.admissible(j) implies #[trigger] self.settles(best, j) by {
                        lemma_full_score(self.id_at(j), self.target.bytes@, self.target.mask@);
                    }
                }
                active = false;
            } else {
                let ghost before = best;
                match self.candidate(index) {
                    Some(c) => {
                        best = Some(self.leading(best, c));
                    },
                    None => {},
                }
                proof {
                    let b = best;
                    assert forall|j: nat|
                        Self::visits(start as nat, step as nat, limit as nat, j)
                            && self.admissible(j) && j < index + step implies #[trigger] self.settles(
                        b,
                        j,
                    ) by {
                        if j > index {
                            lemma_next_visit(start as int, step as int, index as int, j as int);
                        } else if j < index {
                            assert(self.settles(before, j));
                        }
                    }
                }
                if limit - index <= step {
                    active = false;
                } else {
                    proof {
                        lemma_step_visit(start as int, step as int, index as int);
                    }
                    index = index + step;
                }
            }
        }
        best
    }

    /// The search with `workers` workers, one after the other: worker `w`
    /// visits the indices `w`, `w + workers`, `w + 2 * workers`, ... below
    /// `limit`. The outcome is the candidate that ranks first below `limit`,
    /// whatever the number of workers.
    pub fn search(&self, limit: u64, workers: u64) -> (r: Option<Candidate>)
        requires
            self.wf(),
            workers > 0,
        ensures
            r matches Some(c) ==> c.index < limit && self.is_candidate(c) && self.ranks_first(
                c.index as nat,
                limit as nat,
            ),
            r is None <==> forall|j: nat| j < limit ==> !self.admissible(j),
    {
        let mut best: Option<Candidate> = None;
        let mut worker: u64 = 0;
        while worker < workers
            invariant
                self.wf(),
                workers > 0,
                worker <= workers,
                best matches Some(c) ==> c.index < limit && self.is_candidate(c),
                forall|j: nat|
                    j < limit && self.admissible(j) && j % (workers as nat) < worker
                        ==> #[trigger] self.settles(best, j),
            decreases workers - worker,
        {
            let ghost before = best;
            best = self.scan(best, worker, workers, limit);
            proof {
                let b = best;
                assert forall|j: nat|
                    j < limit && self.admissible(j) && j % (workers as nat) < worker
                        + 1 implies #[trigger] self.settles(b, j) by {
                    if j % (workers as nat) == worker {
                        lemma_residue_visit(worker as int, workers as int, j as int);
                        assert(Self::visits(worker as nat, workers as nat, limit as nat, j));
                    } else {
                        assert(self.settles(before, j));
                    }
                }
            }
            worker += 1;
        }
        proof {
            assert forall|j: nat| j < limit && self.admissible(j) implies #[trigger] self.settles(
                best,
                j,
            ) by {
                vstd::arithmetic::div_mod::lemma_mod_bound(j as int, workers as int);
            }
            if best is Some {
                assert forall|j: nat| j < limit && self.admissible(j) implies #[trigger] self.covers(
                    best.unwrap().index as nat,
                    j,
                ) by {
                    assert(self.settles(best, j));
                }
            } else {
                assert forall|j: nat| j < limit implies !self.admissible(j) by {
                    if self.admissible(j) {
                        assert(self.settles(best, j));
                    }
                }
            }
        }
        best
    }

    /// The number of bits that are compared.
    pub fn full_bits(&self) -> (r: u8)
        ensures
            r == self.full_score(),
    {
        if self.target.bytes.len() < 20 {
            (8 * self.target.bytes.len()) as u8
        } else {
            160
        }
    }

    /// Whether the leader matches in full and has a lower index than
    /// `index`, so that no candidate from `index` on can rank before it.
    pub fn is_settled(&self, leader: &Option<Candidate>, index: u64) -> (r: bool)
        ensures
            r == (leader matches Some(c) && c.matched_bits == self.full_score() && c.index < index),
    {
        match leader {
            Some(c) => c.matched_bits == self.full_bits() && c.index < index,
            None => false,
        }
    }

    /// The commit to take after a search: the draft as it is if the target
    /// is empty; else the commit of the candidate that was found, which is
    /// complete if it matches in full; else, where none was found, the
    /// draft, with the number of bits of its own address that match.
    pub fn conclude(&self, found: Option<Candidate>) -> (r: BruteForcedCommit)
        requires
            self.wf(),
            found matches Some(c) ==> self.is_candidate(c),
        ensures
            r.commit_spec().wf(),
            self.target.bytes@.len() == 0 ==> r is Complete && r.commit_spec().body@
                == self.draft.raw@,
            self.target.bytes@.len() > 0 ==> match found {
                Some(c) => r.commit_spec().body@ == c.commit.body@ && (r is Complete
                    <==> self.hit_at(c.index as nat)) && (r matches BruteForcedCommit::Incomplete {
                    matched_bits,
                    ..
                } ==> matched_bits == c.matched_bits),
                None => r.commit_spec().body@ == self.draft.raw@ && (
                r matches BruteForcedCommit::Incomplete { commit, matched_bits } && matched_bits
                    == crate::search::matched_bits(commit.id@, self.target.bytes@, self.target.mask@)),
            },
    {
        if self.target.bytes.len() == 0 {
            let mut raw: Vec<u8> = Vec::new();
            raw.extend_from_slice(self.draft.raw.as_slice());
            return BruteForcedCommit::Complete { commit: Commit::new(raw) };
        }
        match found {
            Some(c) => {
                proof {
                    lemma_full_score(
                        self.id_at(c.index as nat),
                        self.target.bytes@,
                        self.target.mask@,
                    );
                }
                if c.matched_bits == self.full_bits() {
                    BruteForcedCommit::Complete { commit: c.commit }
                } else {
                    BruteForcedCommit::Incomplete { commit: c.commit, matched_bits: c.matched_bits }
                }
            },
            None => {
                let mut raw: Vec<u8> = Vec::new();
                raw.extend_from_slice(self.draft.raw.as_slice());
                let commit = Commit::new(raw);
                let (matched, _) = score(&commit.id, &self.target);
                BruteForcedCommit::Incomplete { commit, matched_bits: matched }
            },
        }
    }

    /// The commit to take: the draft as it is if the target is empty, else
    /// the outcome of the search below `limit`. Where no index below `limit`
    /// gives a candidate, it is the draft, with the number of bits of its own
    /// address that match.
    pub fn brute_force_timestamps(&self, limit: u64, workers: u64) -> (r: BruteForcedCommit)
        requires
            self.wf(),
            workers > 0,
        ensures
            r.commit_spec().wf(),
            self.target.bytes@.len() == 0 ==> r is Complete && r.commit_spec().body@
                == self.draft.raw@,
            self.target.bytes@.len() > 0 ==> match r {
                BruteForcedCommit::Complete { commit } => exists|i: nat|
                    i < limit && #[trigger] self.ranks_first(i, limit as nat) && self.hit_at(i)
                        && commit.body@ == self.body_at(i),
                BruteForcedCommit::Incomplete { commit, matched_bits } => {
                    ||| exists|i: nat|
                        i < limit && #[trigger] self.ranks_first(i, limit as nat) && !self.hit_at(i)
                            && commit.body@ == self.body_at(i) && matched_bits == self.score_at(i)
                    ||| (forall|j: nat| j < limit ==> !self.admissible(j)) && commit.body@
                        == self.draft.raw@ && matched_bits == crate::search::matched_bits(
                        commit.id@,
                        self.target.bytes@,
                        self.target.mask@,
                    )
                },
            },
    {
        if self.target.bytes.len() == 0 {
            return self.conclude(None);
        }
        let found = self.search(limit, workers);
        proof {
            if found is Some {
                assert(self.ranks_first(found.unwrap().index as nat, limit as nat));
            }
        }
        self.conclude(found)
    }
}

/// Only one candidate ranks first below a limit: the outcome of a search
/// does not depend on how the indices were shared out among workers.
pub proof fn lemma_first_unique(search: Search, limit: nat, i: nat, j: nat)
    requires
        i < limit,
        j < limit,
        search.ranks_first(i, limit),
        search.ranks_first(j, limit),
    ensures
        i == j,
{
    assert(search.covers(i, j));
    assert(search.covers(j, i));
}

/// A candidate that matches in full ranks first exactly if no candidate
/// with a lower index matches in full.
pub proof fn lemma_first_hit(search: Search, limit: nat, i: nat)
    requires
        i < limit,
        search.hit_at(i),
    ensures
        search.ranks_first(i, limit) <==> forall|j: nat| j < i ==> !search.hit_at(j),
{
    lemma_full_score(search.id_at(i), search.target.bytes@, search.target.mask@);
    if search.ranks_first(i, limit) {
        assert forall|j: nat| j < i implies !search.hit_at(j) by {
            lemma_full_score(search.id_at(j), search.target.bytes@, search.target.mask@);
            if search.admissible(j) {
                assert(search.covers(i, j));
            }
        }
    }
    if forall|j: nat| j < i ==> !search.hit_at(j) {
        assert forall|j: nat| j < limit && search.admissible(j) implies #[trigger] search.covers(
            i,
            j,
        ) by {
            lemma_full_score(search.id_at(j), search.target.bytes@, search.target.mask@);
            if j < i {
                assert(!search.hit_at(j));
            }
        }
    }
}

/// The index after a visited one is visited too.
proof fn lemma_step_visit(start: int, step: int, index: int)
    requires
        step > 0,
        start <= index,
        (index - start) % step == 0,
    ensures
        (index + step - start) % step == 0,
{
    vstd::arithmetic::div_mod::lemma_mod_add_multiples_vanish(index - start, step);
}

/// Between a visited index and the next one nothing is visited.
proof fn lemma_next_visit(start: int, step: int, index: int, j: int)
    requires
        step > 0,
        start <= index < j,
        (index - start) % step == 0,
        (j - start) % step == 0,
    ensures
        j >= index + step,
{
    vstd::arithmetic::div_mod::lemma_fundamental_div_mod(index - start, step);
    vstd::arithmetic::div_mod::lemma_fundamental_div_mod(j - start, step);
    let a = (index - start) / step;
    let b = (j - start) / step;
    assert(step * b > step * a);
    assert(b >= a + 1) by (nonlinear_arith)
        requires
            step > 0,
            step * b > step * a,
    ;
    assert(step * b >= step * a + step) by (nonlinear_arith)
        requires
            step > 0,
            b >= a + 1,
    ;
}

/// An index is visited by the worker whose number is its residue.
proof fn lemma_residue_visit(worker: int, workers: int, j: int)
    requires
        0 <= worker < workers,
        0 <= j,
        j % workers == worker,
    ensures
        worker <= j,
        (j - worker) % workers == 0,
{
    vstd::arithmetic::div_mod::lemma_fundamental_div_mod(j, workers);
    let q = j / workers;
    assert(workers * q >= 0) by (nonlinear_arith)
        requires
            workers > 0,
            q >= 0,
    ;
    assert(j - worker == workers * q);
    vstd::arithmetic::div_mod::lemma_mod_multiples_basic(q, workers);
    assert(q * workers == workers * q) by (nonlinear_arith);
}

} // verus!
