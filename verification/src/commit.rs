//! Commit records: their bytes, their address, and drafts whose two
//! timestamps are still open.

use crate::digest::{commit_tag, hash_commit, object_id, signed_decimal, signed_decimal_digits, Oid};
use vstd::prelude::*;
use vstd::slice::slice_subrange;

verus! {

/// A commit record and its content address.
#[derive(Debug, Clone)]
pub struct Commit {
    pub id: Oid,
    pub body: Vec<u8>,
}

impl Commit {
    /// The address is the one that the body has as a commit object.
    pub open spec fn wf(&self) -> bool {
        self.id@ == object_id(commit_tag(), self.body@)
    }

    /// The commit with the given body.
    pub fn new(body: Vec<u8>) -> (r: Commit)
        ensures
            r.body == body,
            r.wf(),
    {
        let id = hash_commit(body.as_slice());
        Commit { id, body }
    }

    /// The commit made of a header and a message, which a line feed parts.
    pub fn from_parts(header: &[u8], message: &[u8]) -> (r: Commit)
        ensures
            r.body@ == header@ + seq![0x0au8] + message@,
            r.wf(),
    {
        let mut body: Vec<u8> = Vec::new();
        body.extend_from_slice(header);
        body.push(0x0a);
        body.extend_from_slice(message);
        Commit::new(body)
    }

    /// The raw contents of the commit object.
    pub fn to_bytes(&self) -> (r: Vec<u8>)
        ensures
            r@ == self.body@,
    {
        let mut out: Vec<u8> = Vec::new();
        out.extend_from_slice(self.body.as_slice());
        out
    }
}

/// The outcome of a search for a commit whose address matches a target,
/// which says whether the target was matched in full.
#[derive(Debug, Clone)]
pub enum BruteForcedCommit {
    /// The target was matched in every bit that counts.
    Complete {
        /// The resulting commit.
        commit: Commit,
    },
    /// The target was not matched in full.
    Incomplete {
        /// The resulting commit.
        commit: Commit,
        /// The number of leading bits of the address that match the target.
        matched_bits: u8,
    },
}

impl BruteForcedCommit {
    /// The commit, whatever the outcome.
    pub open spec fn commit_spec(&self) -> Commit {
        match *self {
            BruteForcedCommit::Complete { commit } => commit,
            BruteForcedCommit::Incomplete { commit, .. } => commit,
        }
    }

    /// A reference to the underlying commit.
    pub fn commit(&self) -> (r: &Commit)
        ensures
            *r == self.commit_spec(),
    {
        match self {
            BruteForcedCommit::Complete { commit } => commit,
            BruteForcedCommit::Incomplete { commit, .. } => commit,
        }
    }

    /// The underlying commit if the match is complete.
    pub fn complete(self) -> (r: Option<Commit>)
        ensures
            r == (match self {
                BruteForcedCommit::Complete { commit } => Some(commit),
                BruteForcedCommit::Incomplete { .. } => None,
            }),
    {
        match self {
            BruteForcedCommit::Complete { commit } => Some(commit),
            _ => None,
        }
    }

    /// A reference to the underlying commit if the match is not complete.
    pub fn incomplete(&self) -> (r: Option<&Commit>)
        ensures
            r == (match *self {
                BruteForcedCommit::Incomplete { commit, .. } => Some(&commit),
                BruteForcedCommit::Complete { .. } => None,
            }),
    {
        match self {
            BruteForcedCommit::Incomplete { commit, .. } => Some(commit),
            _ => None,
        }
    }

    /// The underlying commit, whatever the outcome.
    pub fn into_commit(self) -> (r: Commit)
        ensures
            r == self.commit_spec(),
    {
        match self {
            BruteForcedCommit::Complete { commit } => commit,
            BruteForcedCommit::Incomplete { commit, .. } => commit,
        }
    }
}

/// A commit record in which the places of the author's and the committer's
/// timestamp are marked, so that other timestamps can be written there.
#[derive(Debug, Clone)]
pub struct Draft {
    /// The record as it was drafted.
    pub raw: Vec<u8>,
    /// Where the author's timestamp starts.
    pub author_start: usize,
    /// Where the author's timestamp ends.
    pub author_end: usize,
    /// Where the committer's timestamp starts.
    pub committer_start: usize,
    /// Where the committer's timestamp ends.
    pub committer_end: usize,
}

/// A record with two of its ranges replaced by timestamps in decimal.
pub open spec fn spliced(
    raw: Seq<u8>,
    author_start: int,
    author_end: int,
    committer_start: int,
    committer_end: int,
    author_time: int,
    committer_time: int,
) -> Seq<u8> {
    raw.subrange(0, author_start) + signed_decimal(author_time) + raw.subrange(
        author_end,
        committer_start,
    ) + signed_decimal(committer_time) + raw.subrange(committer_end, raw.len() as int)
}

/// The name that starts the author's line, `author` and a space.
pub open spec fn author_name() -> Seq<u8> {
    seq![0x61u8, 0x75u8, 0x74u8, 0x68u8, 0x6fu8, 0x72u8, 0x20u8]
}

/// The name that starts the committer's line, `committer` and a space.
pub open spec fn committer_name() -> Seq<u8> {
    seq![0x63u8, 0x6fu8, 0x6du8, 0x6du8, 0x69u8, 0x74u8, 0x74u8, 0x65u8, 0x72u8, 0x20u8]
}

/// Whether a line starts at `i` and begins with `name`.
pub open spec fn header_at(raw: Seq<u8>, name: Seq<u8>, i: int) -> bool {
    &&& 0 <= i
    &&& i + name.len() <= raw.len()
    &&& (i == 0 || raw[i - 1] == 0x0a)
    &&& raw.subrange(i, i + name.len()) == name
}

/// Whether the first line that begins with `name` starts at `i`.
pub open spec fn first_header_at(raw: Seq<u8>, name: Seq<u8>, i: int) -> bool {
    header_at(raw, name, i) && forall|j: int| 0 <= j < i ==> !header_at(raw, name, j)
}

/// Whether the line that holds `i` ends at `e`: at the next line feed, or
/// at the end of the record.
pub open spec fn line_ends_at(raw: Seq<u8>, i: int, e: int) -> bool {
    &&& 0 <= i <= e <= raw.len()
    &&& (e == raw.len() || raw[e] == 0x0a)
    &&& forall|j: int| i <= j < e ==> raw[j] != 0x0a
}

/// Whether the last space between `lo` and `hi` stands at `s`.
pub open spec fn last_space_at(raw: Seq<u8>, lo: int, hi: int, s: int) -> bool {
    &&& lo <= s < hi
    &&& raw[s] == 0x20
    &&& forall|j: int| s < j < hi ==> raw[j] != 0x20
}

/// Whether the timestamp of the line that starts at `line` stands between
/// `start` and `end`: it is the piece before the last space of the line,
/// which begins behind the space before that, or with the line.
pub open spec fn timestamp_at(raw: Seq<u8>, line: int, start: int, end: int) -> bool {
    exists|e: int|
        #![trigger line_ends_at(raw, line, e)]
        {
            &&& line_ends_at(raw, line, e)
            &&& last_space_at(raw, line, e, end)
            &&& line <= start <= end
            &&& if start == line {
                forall|j: int| line <= j < end ==> raw[j] != 0x20
            } else {
                last_space_at(raw, line, end, start - 1)
            }
        }
}

/// Whether a record has the two places of a draft: the timestamp of its
/// first author's line, and behind it that of its first committer's line.
pub open spec fn marks(
    raw: Seq<u8>,
    author_start: int,
    author_end: int,
    committer_start: int,
    committer_end: int,
) -> bool {
    exists|a: int, c: int|
        #![trigger first_header_at(raw, author_name(), a), first_header_at(raw, committer_name(), c)]
        {
            &&& first_header_at(raw, author_name(), a)
            &&& first_header_at(raw, committer_name(), c)
            &&& timestamp_at(raw, a, author_start, author_end)
            &&& timestamp_at(raw, c, committer_start, committer_end)
            &&& author_end <= committer_start
        }
}

/// Where the first line that begins with `name` starts.
pub fn find_header(raw: &[u8], name: &[u8]) -> (r: Option<usize>)
    ensures
        r matches Some(i) ==> first_header_at(raw@, name@, i as int),
        r is None ==> forall|j: int| 0 <= j ==> !header_at(raw@, name@, j),
{
    if name.len() > raw.len() {
        return None;
    }
    let last: usize = raw.len() - name.len();
    let mut i: usize = 0;
    loop
        invariant
            last == raw@.len() - name@.len(),
            raw@.len() <= usize::MAX,
            i <= last,
            forall|j: int| 0 <= j < i ==> !header_at(raw@, name@, j),
        decreases last - i,
    {
        if i == 0 || raw[i - 1] == 0x0a {
            let mut k: usize = 0;
            let mut same: bool = true;
            while same && k < name.len()
                invariant
                    i <= last,
                    last == raw@.len() - name@.len(),
                    raw@.len() <= usize::MAX,
                    k <= name@.len(),
                    forall|j: int| 0 <= j < k ==> raw@[i + j] == name@[j],
                    !same ==> k < name@.len() && raw@[i + k] != name@[k as int],
                decreases name@.len() - k, (if same { 1int } else { 0int }),
            {
                if raw[i + k] == name[k] {
                    k += 1;
                } else {
                    same = false;
                }
            }
            if same {
                proof {
                    assert(raw@.subrange(i as int, i + name@.len()) =~= name@);
                }
                return Some(i);
            }
            proof {
                assert(raw@.subrange(i as int, i + name@.len())[k as int] == raw@[i + k]);
            }
        }
        if i == last {
            return None;
        }
        i += 1;
    }
}

/// Where the timestamp of the line that starts at `line` stands.
pub fn find_timestamp(raw: &[u8], line: usize) -> (r: Option<(usize, usize)>)
    requires
        line <= raw@.len(),
    ensures
        r matches Some((start, end)) ==> timestamp_at(raw@, line as int, start as int, end as int)
            && line <= start <= end < raw@.len(),
        r is None ==> forall|e: int, s: int|
            line_ends_at(raw@, line as int, e) ==> !last_space_at(raw@, line as int, e, s),
{
    let mut e: usize = line;
    while e < raw.len() && raw[e] != 0x0a
        invariant
            line <= e <= raw@.len(),
            forall|j: int| line <= j < e ==> raw@[j] != 0x0a,
        decreases raw@.len() - e,
    {
        e += 1;
    }
    assert(line_ends_at(raw@, line as int, e as int));
    let mut end: usize = e;
    while end > line && raw[end - 1] != 0x20
        invariant
            line <= end <= e <= raw@.len(),
            forall|j: int| end <= j < e ==> raw@[j] != 0x20,
        decreases end,
    {
        end -= 1;
    }
    if end == line {
        proof {
            assert forall|e2: int, s: int| line_ends_at(raw@, line as int, e2) implies !last_space_at(
                raw@,
                line as int,
                e2,
                s,
            ) by {
                if e2 < e {
                    assert(raw@[e2] == 0x0a);
                } else if e < e2 {
                    assert(raw@[e as int] != 0x0a);
                }
            }
        }
        return None;
    }
    end -= 1;
    let mut start: usize = end;
    while start > line && raw[start - 1] != 0x20
        invariant
            line <= start <= end < raw@.len(),
            forall|j: int| start <= j < end ==> raw@[j] != 0x20,
        decreases start,
    {
        start -= 1;
    }
    proof {
        assert(last_space_at(raw@, line as int, e as int, end as int));
        if start > line {
            assert(last_space_at(raw@, line as int, end as int, start - 1));
        }
    }
    Some((start, end))
}

impl Draft {
    /// The author's timestamp stands before the committer's, both inside
    /// the record.
    pub open spec fn wf(&self) -> bool {
        self.author_start <= self.author_end <= self.committer_start <= self.committer_end
            <= self.raw@.len()
    }

    /// The two places are those of the timestamps of the record's first
    /// author's line and first committer's line.
    pub open spec fn marked(&self) -> bool {
        marks(
            self.raw@,
            self.author_start as int,
            self.author_end as int,
            self.committer_start as int,
            self.committer_end as int,
        )
    }

    /// Marks the two timestamps of a record: in the first line that begins
    /// with `author` and a space, and in the first that begins with
    /// `committer` and a space, the piece before the last. `None` where a
    /// line is missing, or where the author's timestamp does not stand
    /// before the committer's.
    pub fn parse(raw: Vec<u8>) -> (r: Option<Draft>)
        ensures
            r matches Some(d) ==> d.raw == raw && d.wf() && d.marked(),
            r is None ==> forall|a: int, b: int, c: int, d: int| !marks(raw@, a, b, c, d),
    {
        let author_name: [u8; 7] = [0x61, 0x75, 0x74, 0x68, 0x6f, 0x72, 0x20];
        let committer_name: [u8; 10] = [0x63, 0x6f, 0x6d, 0x6d, 0x69, 0x74, 0x74, 0x65, 0x72, 0x20];
        proof {
            assert(author_name@ =~= crate::commit::author_name());
            assert(committer_name@ =~= crate::commit::committer_name());
        }
        let author_line = match find_header(raw.as_slice(), author_name.as_slice()) {
            Some(i) => i,
            None => {
                return None;
            },
        };
        let committer_line = match find_header(raw.as_slice(), committer_name.as_slice()) {
            Some(i) => i,
            None => {
                return None;
            },
        };
        let author = find_timestamp(raw.as_slice(), author_line);
        let committer = find_timestamp(raw.as_slice(), committer_line);
        proof {
            lemma_marks_unique(raw@, author_line as int, committer_line as int);
        }
        match (author, committer) {
            (Some((author_start, author_end)), Some((committer_start, committer_end))) => {
                proof {
                    lemma_timestamp_unique(
                        raw@,
                        author_line as int,
                        author_start as int,
                        author_end as int,
                    );
                    lemma_timestamp_unique(
                        raw@,
                        committer_line as int,
                        committer_start as int,
                        committer_end as int,
                    );
                }
                if author_end <= committer_start {
                    let d = Draft { raw, author_start, author_end, committer_start, committer_end };
                    assert(first_header_at(d.raw@, crate::commit::author_name(), author_line as int));
                    assert(first_header_at(
                        d.raw@,
                        crate::commit::committer_name(),
                        committer_line as int,
                    ));
                    Some(d)
                } else {
                    None
                }
            },
            _ => None,
        }
    }

    /// The record with the two timestamps written into it.
    pub open spec fn rendered(&self, author_time: int, committer_time: int) -> Seq<u8> {
        spliced(
            self.raw@,
            self.author_start as int,
            self.author_end as int,
            self.committer_start as int,
            self.committer_end as int,
            author_time,
            committer_time,
        )
    }

    /// The record with the two timestamps written into it. Every other byte
    /// stays as it was drafted.
    pub fn render(&self, author_time: i64, committer_time: i64) -> (r: Vec<u8>)
        requires
            self.wf(),
        ensures
            r@ == self.rendered(author_time as int, committer_time as int),
    {
        let raw = self.raw.as_slice();
        let author = signed_decimal_digits(author_time);
        let committer = signed_decimal_digits(committer_time);
        let mut out: Vec<u8> = Vec::new();
        out.extend_from_slice(slice_subrange(raw, 0, self.author_start));
        out.extend_from_slice(author.as_slice());
        out.extend_from_slice(slice_subrange(raw, self.author_end, self.committer_start));
        out.extend_from_slice(committer.as_slice());
        out.extend_from_slice(slice_subrange(raw, self.committer_end, raw.len()));
        out
    }
}

/// The first line with a given name starts at one place only.
pub proof fn lemma_marks_unique(raw: Seq<u8>, a: int, c: int)
    requires
        first_header_at(raw, author_name(), a),
        first_header_at(raw, committer_name(), c),
    ensures
        forall|i: int| first_header_at(raw, author_name(), i) ==> i == a,
        forall|i: int| first_header_at(raw, committer_name(), i) ==> i == c,
{
}

/// A line has its timestamp at one place only.
pub proof fn lemma_timestamp_unique(raw: Seq<u8>, line: int, start: int, end: int)
    requires
        timestamp_at(raw, line, start, end),
    ensures
        forall|s: int, e: int| timestamp_at(raw, line, s, e) ==> s == start && e == end,
{
    assert forall|s: int, e: int| timestamp_at(raw, line, s, e) implies s == start && e == end by {
        let e1 = choose|e1: int|
            #![trigger line_ends_at(raw, line, e1)]
            {
                &&& line_ends_at(raw, line, e1)
                &&& last_space_at(raw, line, e1, end)
                &&& line <= start <= end
                &&& if start == line {
                    forall|j: int| line <= j < end ==> raw[j] != 0x20
                } else {
                    last_space_at(raw, line, end, start - 1)
                }
            };
        let e2 = choose|e2: int|
            #![trigger line_ends_at(raw, line, e2)]
            {
                &&& line_ends_at(raw, line, e2)
                &&& last_space_at(raw, line, e2, e)
                &&& line <= s <= e
                &&& if s == line {
                    forall|j: int| line <= j < e ==> raw[j] != 0x20
                } else {
                    last_space_at(raw, line, e, s - 1)
                }
            };
        if e1 < e2 {
            assert(raw[e1] == 0x0a);
        } else if e2 < e1 {
            assert(raw[e2] == 0x0a);
        }
        if e < end {
            assert(raw[end] == 0x20);
        } else if end < e {
            assert(raw[e] == 0x20);
        }
        if s != start {
            if s == line {
                assert(raw[start - 1] == 0x20);
            } else if start == line {
                assert(raw[s - 1] == 0x20);
            } else if s < start {
                assert(raw[start - 1] == 0x20);
            } else {
                assert(raw[s - 1] == 0x20);
            }
        }
    }
}

/// Written with the timestamps that it holds, a draft is the record as it
/// was drafted.
pub proof fn lemma_render_own_timestamps(d: Draft, author_time: int, committer_time: int)
    requires
        d.wf(),
        d.raw@.subrange(d.author_start as int, d.author_end as int) == signed_decimal(author_time),
        d.raw@.subrange(d.committer_start as int, d.committer_end as int) == signed_decimal(
            committer_time,
        ),
    ensures
        d.rendered(author_time, committer_time) == d.raw@,
{
    assert(d.rendered(author_time, committer_time) =~= d.raw@);
}

} // verus!
