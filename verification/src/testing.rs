//! Expectations of tests: a literal that a value is held against, and the
//! place in the sources where it stands.

use vstd::prelude::*;
use vstd::string::StringSliceAdditionalSpecFns;

verus! {

/// A value that can stand as a literal in a source file.
pub trait Literal: Clone + Copy + PartialEq {

}

impl Literal for &str {

}

impl Literal for &[u8] {

}

impl Literal for bool {

}

impl Literal for char {

}

impl Literal for u8 {

}

impl Literal for u16 {

}

impl Literal for u32 {

}

impl Literal for u64 {

}

impl Literal for u128 {

}

impl Literal for usize {

}

impl Literal for i8 {

}

impl Literal for i16 {

}

impl Literal for i32 {

}

impl Literal for i64 {

}

impl Literal for i128 {

}

impl Literal for isize {

}

/// Where an expected value stands.
#[derive(Clone, Debug)]
pub enum ExpectedLocation {
    /// In a source file, at a line and a column.
    InlineLiteral { line: usize, column: usize },
    /// In a file of its own.
    ExternalFile { path: String },
}

/// An expected value, the source file that expects it, and its place.
#[derive(Clone, Debug)]
pub struct Expected<L: Literal> {
    pub value: L,
    pub by: String,
    pub at: ExpectedLocation,
}

/// A place in a source file.
#[derive(Debug, Clone, Copy)]
pub struct Position {
    pub file: &'static str,
    pub line: u32,
    pub column: u32,
}

/// An expectation written into a source file.
#[derive(Debug, Clone, Copy)]
pub struct Expect {
    pub position: Position,
    pub data: &'static str,
    pub indent: bool,
}

/// An expectation kept in a file of its own.
#[derive(Debug, Clone)]
pub struct ExpectFile {
    pub path: String,
    pub position: &'static str,
}

impl Expect {
    /// An expectation of `data` at `position`, indented like its
    /// surroundings when it is written back.
    pub fn new(position: Position, data: &'static str) -> (r: Expect)
        ensures
            r.position == position,
            r.data == data,
            r.indent,
    {
        Expect { position, data, indent: true }
    }

    /// Sets whether the literal is indented when it is written back.
    pub fn indent(&mut self, yes: bool)
        ensures
            final(self).indent == yes,
            final(self).position == old(self).position,
            final(self).data == old(self).data,
    {
        self.indent = yes;
    }

    /// The expected text as it was written.
    pub fn data(&self) -> (r: &str)
        ensures
            r == self.data,
    {
        self.data
    }
}

/// How a string literal is written: with quotes alone, or raw, with a number
/// of hashes around the quotes.
#[derive(Debug, Clone, Copy, PartialEq, Eq, Structural)]
pub enum StrLitKind {
    Normal,
    Raw(usize),
}

/// `n` hashes.
pub open spec fn hashes(n: nat) -> Seq<u8> {
    Seq::new(n, |i: int| 0x23u8)
}

impl StrLitKind {
    /// What opens a literal of this kind: a quote, or `r`, the hashes and a
    /// quote.
    pub open spec fn start_text(self) -> Seq<u8> {
        match self {
            StrLitKind::Normal => seq![0x22u8],
            StrLitKind::Raw(n) => seq![0x72u8] + hashes(n as nat) + seq![0x22u8],
        }
    }

    /// What closes a literal of this kind: a quote, and the hashes.
    pub open spec fn end_text(self) -> Seq<u8> {
        match self {
            StrLitKind::Normal => seq![0x22u8],
            StrLitKind::Raw(n) => seq![0x22u8] + hashes(n as nat),
        }
    }

    /// Writes what opens a literal of this kind.
    pub fn write_start(self, w: &mut Vec<u8>)
        ensures
            final(w)@ == old(w)@ + self.start_text(),
    {
        match self {
            StrLitKind::Normal => {
                w.push(0x22);
            },
            StrLitKind::Raw(n) => {
                w.push(0x72);
                write_hashes(w, n);
                w.push(0x22);
            },
        }
        proof {
            assert(final(w)@ =~= old(w)@ + self.start_text());
        }
    }

    /// Writes what closes a literal of this kind.
    pub fn write_end(self, w: &mut Vec<u8>)
        ensures
            final(w)@ == old(w)@ + self.end_text(),
    {
        match self {
            StrLitKind::Normal => {
                w.push(0x22);
            },
            StrLitKind::Raw(n) => {
                w.push(0x22);
                write_hashes(w, n);
            },
        }
        proof {
            assert(final(w)@ =~= old(w)@ + self.end_text());
        }
    }
}

/// Writes `n` hashes.
pub fn write_hashes(w: &mut Vec<u8>, n: usize)
    ensures
        final(w)@ == old(w)@ + hashes(n as nat),
{
    let mut i: usize = 0;
    proof {
        assert(w@ =~= old(w)@ + hashes(0));
    }
    while i < n
        invariant
            i <= n,
            w@ == old(w)@ + hashes(i as nat),
        decreases n - i,
    {
        w.push(0x23);
        i += 1;
        proof {
            assert(w@ =~= old(w)@ + hashes(i as nat));
        }
    }
}

/// The number of hashes in a row from `i` on.
pub open spec fn hashes_at(text: Seq<u8>, i: int) -> nat
    decreases text.len() - i,
{
    if 0 <= i < text.len() && text[i] == 0x23 {
        1 + hashes_at(text, i + 1)
    } else {
        0
    }
}

/// The hashes in a row from `i` on are hashes.
pub proof fn lemma_hashes_run(text: Seq<u8>, i: int)
    requires
        0 <= i <= text.len(),
    ensures
        i + hashes_at(text, i) <= text.len(),
        forall|j: int| i <= j < i + hashes_at(text, i) ==> text[j] == 0x23,
    decreases text.len() - i,
{
    if i < text.len() && text[i] == 0x23 {
        lemma_hashes_run(text, i + 1);
    }
}

/// Whether a piece starts at `i`, where the text is split at its quotes: at
/// the start of the text, and behind every quote.
pub open spec fn piece_starts_at(text: Seq<u8>, i: int) -> bool {
    0 <= i <= text.len() && (i == 0 || text[i - 1] == 0x22)
}

/// Whether `m` is the greatest number of hashes that a piece starts with.
pub open spec fn most_hashes(text: Seq<u8>, m: nat) -> bool {
    &&& forall|i: int| piece_starts_at(text, i) ==> hashes_at(text, i) <= m
    &&& exists|i: int| piece_starts_at(text, i) && hashes_at(text, i) == m
}

/// Whether the byte occurs in the text.
pub open spec fn occurs(text: Seq<u8>, byte: u8) -> bool {
    exists|i: int| 0 <= i < text.len() && text[i] == byte
}

/// Whether the byte occurs in the text.
pub fn contains_byte(text: &[u8], byte: u8) -> (r: bool)
    ensures
        r == occurs(text@, byte),
{
    let mut i: usize = 0;
    while i < text.len()
        invariant
            i <= text@.len(),
            forall|j: int| 0 <= j < i ==> text@[j] != byte,
        decreases text@.len() - i,
    {
        if text[i] == byte {
            return true;
        }
        i += 1;
    }
    false
}

/// The number of hashes in a row from `i` on.
pub fn count_hashes(text: &[u8], i: usize) -> (r: usize)
    requires
        i <= text@.len(),
    ensures
        r == hashes_at(text@, i as int),
        i + r <= text@.len(),
{
    let mut k: usize = i;
    while k < text.len() && text[k] == 0x23
        invariant
            i <= k <= text@.len(),
            hashes_at(text@, i as int) == (k - i) + hashes_at(text@, k as int),
        decreases text@.len() - k,
    {
        k += 1;
    }
    k - i
}

/// The kind of literal that can hold `patch`: with quotes alone if it has
/// no quote, backslash or line feed; raw with one hash if it has no quote;
/// else raw with one hash more than any piece of it starts with, where it is
/// split at its quotes.
pub fn lit_kind_for_patch(patch: &[u8]) -> (r: StrLitKind)
    ensures
        !occurs(patch@, 0x22) && !occurs(patch@, 0x5c) && !occurs(patch@, 0x0a) ==> r
            == StrLitKind::Normal,
        !occurs(patch@, 0x22) && (occurs(patch@, 0x5c) || occurs(patch@, 0x0a)) ==> r
            == StrLitKind::Raw(1),
        occurs(patch@, 0x22) ==> (r matches StrLitKind::Raw(n) && n >= 1 && most_hashes(
            patch@,
            (n - 1) as nat,
        )),
{
    if !contains_byte(patch, 0x22) {
        return if contains_byte(patch, 0x5c) || contains_byte(patch, 0x0a) {
            StrLitKind::Raw(1)
        } else {
            StrLitKind::Normal
        };
    }
    let mut most: usize = count_hashes(patch, 0);
    let ghost mut at: int = 0;
    proof {
        lemma_hashes_run(patch@, 0);
        let q = choose|q: int| 0 <= q < patch@.len() && patch@[q] == 0x22;
        assert(patch@[q] != 0x23);
    }
    let mut i: usize = 0;
    while i < patch.len()
        invariant
            i <= patch@.len(),
            most < patch@.len(),
            occurs(patch@, 0x22),
            piece_starts_at(patch@, at),
            hashes_at(patch@, at) == most,
            forall|j: int| piece_starts_at(patch@, j) && j <= i ==> hashes_at(patch@, j) <= most,
        decreases patch@.len() - i,
    {
        if patch[i] == 0x22 {
            let here = count_hashes(patch, i + 1);
            if here > most {
                most = here;
                proof {
                    at = i + 1;
                }
            }
        }
        i += 1;
    }
    StrLitKind::Raw(most + 1)
}

/// Where the line that starts at `from` ends: behind its line feed, or at
/// the end of the text. `None` where nothing is left.
pub fn line_with_end(text: &[u8], from: usize) -> (r: Option<usize>)
    requires
        from <= text@.len(),
    ensures
        r is None <==> from == text@.len(),
        r matches Some(end) ==> from < end <= text@.len() && (end == text@.len() || text@[end - 1]
            == 0x0a) && forall|j: int| from <= j < end - 1 ==> text@[j] != 0x0a,
{
    if from == text.len() {
        return None;
    }
    let mut end: usize = from;
    while end < text.len() && text[end] != 0x0a
        invariant
            from <= end <= text@.len(),
            forall|j: int| from <= j < end ==> text@[j] != 0x0a,
        decreases text@.len() - end,
    {
        end += 1;
    }
    if end < text.len() {
        Some(end + 1)
    } else {
        Some(end)
    }
}

/// The lines of a text, each with the line feed that ends it.
pub fn lines_with_ends(text: &[u8]) -> (r: Vec<(usize, usize)>)
    ensures
        forall|i: int|
            0 <= i < r@.len() ==> (#[trigger] r@[i]).0 < r@[i].1 <= text@.len() && (r@[i].1
                == text@.len() || text@[r@[i].1 - 1] == 0x0a) && forall|j: int|
                r@[i].0 <= j < r@[i].1 - 1 ==> text@[j] != 0x0a,
        forall|i: int| 0 <= i < r@.len() - 1 ==> (#[trigger] r@[i]).1 == r@[i + 1].0,
        r@.len() > 0 ==> r@[0].0 == 0 && r@.last().1 == text@.len(),
        r@.len() == 0 <==> text@.len() == 0,
{
    let mut lines: Vec<(usize, usize)> = Vec::new();
    let mut from: usize = 0;
    loop
        invariant
            from <= text@.len(),
            forall|i: int|
                0 <= i < lines@.len() ==> (#[trigger] lines@[i]).0 < lines@[i].1 <= text@.len() && (
                lines@[i].1 == text@.len() || text@[lines@[i].1 - 1] == 0x0a) && forall|j: int|
                    lines@[i].0 <= j < lines@[i].1 - 1 ==> text@[j] != 0x0a,
            forall|i: int| 0 <= i < lines@.len() - 1 ==> (#[trigger] lines@[i]).1 == lines@[i + 1].0,
            lines@.len() > 0 ==> lines@[0].0 == 0 && lines@.last().1 == from,
            lines@.len() == 0 ==> from == 0,
        decreases text@.len() - from,
    {
        match line_with_end(text, from) {
            None => {
                return lines;
            },
            Some(end) => {
                lines.push((from, end));
                from = end;
            },
        }
    }
}

/// Where a literal in quotes ends that is read from `i` on: behind the first
/// quote that no backslash stands before. A backslash takes the byte behind
/// it along.
pub open spec fn normal_end(text: Seq<u8>, i: int) -> Option<int>
    decreases text.len() - i,
{
    if i < 0 || i >= text.len() {
        None
    } else if text[i] == 0x5c {
        if i + 1 < text.len() {
            normal_end(text, i + 2)
        } else {
            None
        }
    } else if text[i] == 0x22 {
        Some(i + 1)
    } else {
        normal_end(text, i + 1)
    }
}

/// Where a raw literal with `n` hashes ends that is read from `i` on: behind
/// the first quote that `n` hashes follow.
pub open spec fn raw_end(text: Seq<u8>, i: int, n: nat) -> Option<int>
    decreases text.len() - i,
{
    if i < 0 || i >= text.len() {
        None
    } else if text[i] == 0x22 {
        if n == 0 {
            Some(i + 1)
        } else if hashes_at(text, i + 1) >= n {
            Some(i + 1 + n)
        } else if i + 1 + hashes_at(text, i + 1) >= text.len() {
            None
        } else {
            raw_end(text, i + 1 + hashes_at(text, i + 1) as int, n)
        }
    } else {
        raw_end(text, i + 1, n)
    }
}

/// The length of the string literal that the text starts with: one in
/// quotes, or a raw one, which starts with `r`, hashes and a quote. `None`
/// where the text starts with neither or the literal is not closed.
pub open spec fn str_lit_len(text: Seq<u8>) -> Option<int> {
    if text.len() == 0 {
        None
    } else if text[0] == 0x22 {
        normal_end(text, 1)
    } else if text[0] == 0x72 {
        if 1 + hashes_at(text, 1) < text.len() && text[1 + hashes_at(text, 1) as int] == 0x22 {
            raw_end(text, 2 + hashes_at(text, 1) as int, hashes_at(text, 1))
        } else {
            None
        }
    } else {
        None
    }
}

/// The length of the string literal that the text starts with.
pub fn find_str_lit_len(text: &[u8]) -> (r: Option<usize>)
    ensures
        match r {
            Some(len) => str_lit_len(text@) == Some(len as int) && len <= text@.len(),
            None => str_lit_len(text@) is None,
        },
{
    if text.len() == 0 {
        return None;
    }
    if text[0] == 0x22 {
        let mut i: usize = 1;
        loop
            invariant
                1 <= i <= text@.len(),
                text@[0] == 0x22,
                normal_end(text@, 1) == normal_end(text@, i as int),
            decreases text@.len() - i,
        {
            if i >= text.len() {
                return None;
            }
            if text[i] == 0x5c {
                if i + 1 >= text.len() {
                    return None;
                }
                i += 2;
            } else if text[i] == 0x22 {
                return Some(i + 1);
            } else {
                i += 1;
            }
        }
    } else if text[0] == 0x72 {
        let n = count_hashes(text, 1);
        if 1 + n >= text.len() || text[1 + n] != 0x22 {
            return None;
        }
        let mut i: usize = 2 + n;
        loop
            invariant
                2 + n <= i <= text@.len(),
                text@[0] == 0x72,
                n == hashes_at(text@, 1),
                text@[1 + n] == 0x22,
                raw_end(text@, 2 + n, n as nat) == raw_end(text@, i as int, n as nat),
            decreases text@.len() - i,
        {
            if i >= text.len() {
                return None;
            }
            if text[i] == 0x22 {
                if n == 0 {
                    return Some(i + 1);
                }
                let seen = count_hashes(text, i + 1);
                if seen >= n {
                    return Some(i + 1 + n);
                }
                if i + 1 + seen >= text.len() {
                    return None;
                }
                i = i + 1 + seen;
            } else {
                i += 1;
            }
        }
    } else {
        None
    }
}

/// One replacement in a text: the range that was replaced, by its place in
/// the text as it was at first, and the number of bytes that were put there.
#[derive(Debug, Clone, Copy, PartialEq, Eq, Structural)]
pub struct Indel {
    pub start: usize,
    pub end: usize,
    pub inserted: usize,
}

/// A text in which ranges are replaced one after the other, each range
/// given by its place in the text as it was at first.
#[derive(Debug, Clone)]
pub struct Patchwork {
    pub text: Vec<u8>,
    /// The replacements so far, ordered by where they start.
    pub indels: Vec<Indel>,
}

/// The number of bytes that the replacements which start before `pos` took
/// out.
pub open spec fn deleted_before(indels: Seq<Indel>, pos: int) -> int
    decreases indels.len(),
{
    if indels.len() == 0 {
        0
    } else if indels.last().start < pos {
        deleted_before(indels.drop_last(), pos) + (indels.last().end - indels.last().start)
    } else {
        deleted_before(indels.drop_last(), pos)
    }
}

/// The number of bytes that the replacements which start before `pos` put
/// in.
pub open spec fn inserted_before(indels: Seq<Indel>, pos: int) -> int
    decreases indels.len(),
{
    if indels.len() == 0 {
        0
    } else if indels.last().start < pos {
        inserted_before(indels.drop_last(), pos) + indels.last().inserted
    } else {
        inserted_before(indels.drop_last(), pos)
    }
}

/// The replacements with one more at the place `at`.
pub open spec fn with_indel(indels: Seq<Indel>, at: int, indel: Indel) -> Seq<Indel> {
    indels.insert(at, indel)
}

/// Whether the replacements are ordered by where they start.
pub open spec fn ordered_by_start(indels: Seq<Indel>) -> bool {
    forall|i: int, j: int| 0 <= i < j < indels.len() ==> indels[i].start <= indels[j].start
}

/// What the first replacements took out and put in is no more than what
/// all of them did.
pub proof fn lemma_before_grows(indels: Seq<Indel>, pos: int, k: int)
    requires
        0 <= k <= indels.len(),
        forall|i: int| 0 <= i < indels.len() ==> (#[trigger] indels[i]).start <= indels[i].end,
    ensures
        0 <= deleted_before(indels.take(k), pos) <= deleted_before(indels, pos),
        0 <= inserted_before(indels.take(k), pos) <= inserted_before(indels, pos),
    decreases indels.len() - k,
{
    if k < indels.len() {
        lemma_before_grows(indels, pos, k + 1);
        assert(indels.take(k + 1).drop_last() =~= indels.take(k));
        assert(indels.take(k + 1).last() == indels[k]);
    } else {
        assert(indels.take(k) =~= indels);
    }
    lemma_before_not_negative(indels.take(k), pos);
}

/// Replacements take out and put in no less than nothing.
pub proof fn lemma_before_not_negative(indels: Seq<Indel>, pos: int)
    requires
        forall|i: int| 0 <= i < indels.len() ==> (#[trigger] indels[i]).start <= indels[i].end,
    ensures
        0 <= deleted_before(indels, pos),
        0 <= inserted_before(indels, pos),
    decreases indels.len(),
{
    if indels.len() > 0 {
        lemma_before_not_negative(indels.drop_last(), pos);
    }
}

impl Patchwork {
    /// Each replacement's range ends where it starts or behind, and the
    /// replacements are ordered by where they start.
    pub open spec fn wf(&self) -> bool {
        &&& forall|i: int|
            0 <= i < self.indels@.len() ==> (#[trigger] self.indels@[i]).start
                <= self.indels@[i].end
        &&& ordered_by_start(self.indels@)
    }

    /// Where a place of the text as it was at first is now.
    pub open spec fn moved(&self, pos: int, anchor: int) -> int {
        pos - deleted_before(self.indels@, anchor) + inserted_before(self.indels@, anchor)
    }

    /// A text in which nothing was replaced yet.
    pub fn new(text: Vec<u8>) -> (r: Patchwork)
        ensures
            r.text == text,
            r.indels@.len() == 0,
            r.wf(),
    {
        Patchwork { text, indels: Vec::new() }
    }

    /// Replaces the range from `start` to `end`, given by its place in the
    /// text as it was at first, by `patch`. Both ends are moved by what the
    /// replacements that start before `start` took out and put in.
    pub fn patch(&mut self, start: usize, end: usize, patch: &[u8])
        requires
            old(self).wf(),
            start <= end,
            deleted_before(old(self).indels@, start as int) <= start,
            inserted_before(old(self).indels@, start as int) <= usize::MAX,
            old(self).moved(end as int, start as int) <= old(self).text@.len(),
        ensures
            final(self).wf(),
            final(self).text@ == old(self).text@.subrange(
                0,
                old(self).moved(start as int, start as int),
            ) + patch@ + old(self).text@.subrange(
                old(self).moved(end as int, start as int),
                old(self).text@.len() as int,
            ),
            exists|at: int|
                0 <= at <= old(self).indels@.len() && final(self).indels@ == #[trigger] with_indel(
                    old(self).indels@,
                    at,
                    (Indel { start, end, inserted: patch@.len() as usize }),
                ),
    {
        let mut deleted: usize = 0;
        let mut inserted: usize = 0;
        let mut at: usize = 0;
        let mut k: usize = 0;
        proof {
            assert(self.indels@.take(0) =~= Seq::<Indel>::empty());
        }
        while k < self.indels.len()
            invariant
                self.wf(),
                *self == *old(self),
                start <= end,
                self.moved(end as int, start as int) <= self.text@.len(),
                k <= self.indels@.len(),
                at <= k,
                deleted == deleted_before(self.indels@.take(k as int), start as int),
                inserted == inserted_before(self.indels@.take(k as int), start as int),
                deleted_before(self.indels@, start as int) <= start,
                inserted_before(self.indels@, start as int) <= usize::MAX,
                forall|i: int| 0 <= i < at ==> (#[trigger] self.indels@[i]).start <= start,
                forall|i: int| at <= i < k ==> (#[trigger] self.indels@[i]).start > start,
            decreases self.indels@.len() - k,
        {
            proof {
                lemma_before_grows(self.indels@, start as int, k + 1);
                assert(self.indels@.take(k + 1).drop_last() =~= self.indels@.take(k as int));
                assert(self.indels@.take(k + 1).last() == self.indels@[k as int]);
            }
            let indel = self.indels[k];
            if indel.start < start {
                deleted = deleted + (indel.end - indel.start);
                inserted = inserted + indel.inserted;
            }
            if indel.start <= start {
                proof {
                    assert forall|i: int| 0 <= i < k + 1 implies (#[trigger] self.indels@[i]).start
                        <= start by {
                        if i < k {
                            assert(self.indels@[i].start <= self.indels@[k as int].start);
                        }
                    }
                }
                at = k + 1;
            }
            k += 1;
        }
        proof {
            assert(self.indels@.take(k as int) =~= self.indels@);
        }
        let len: usize = self.text.len();
        let from: usize = start - deleted + inserted;
        let to: usize = end - deleted + inserted;
        let mut text: Vec<u8> = Vec::new();
        text.extend_from_slice(vstd::slice::slice_subrange(self.text.as_slice(), 0, from));
        text.extend_from_slice(patch);
        text.extend_from_slice(vstd::slice::slice_subrange(self.text.as_slice(), to, len));
        self.text = text;
        let ghost before = self.indels@;
        self.indels.insert(at, Indel { start, end, inserted: patch.len() });
        proof {
            let new = Indel { start, end, inserted: patch@.len() as usize };
            assert(self.indels@ == with_indel(before, at as int, new));
            assert forall|i: int, j: int| 0 <= i < j < self.indels@.len() implies self.indels@[i].start
                <= self.indels@[j].start by {
                let bi = if i < at { i } else { i - 1 };
                let bj = if j < at { j } else { j - 1 };
                if i != at && j != at {
                    assert(before[bi].start <= before[bj].start);
                } else if i == at {
                    assert(before[bj].start > start);
                } else {
                    assert(before[bi].start <= start);
                }
            }
            assert forall|i: int| 0 <= i < self.indels@.len() implies (#[trigger] self.indels@[i]).start
                <= self.indels@[i].end by {
                if i < at {
                    assert(self.indels@[i] == before[i]);
                } else if i > at {
                    assert(self.indels@[i] == before[i - 1]);
                }
            }
        }
    }
}

/// The white space of ASCII: the space, and the bytes from the tabulator to
/// the carriage return.
pub open spec fn is_space(b: u8) -> bool {
    b == 0x20 || (0x09 <= b && b <= 0x0d)
}

/// The number of bytes of white space in a row from `i` on.
pub open spec fn spaces_at(text: Seq<u8>, i: int) -> nat
    decreases text.len() - i,
{
    if 0 <= i < text.len() && is_space(text[i]) {
        1 + spaces_at(text, i + 1)
    } else {
        0
    }
}

/// Where the byte stands first from `i` on.
pub open spec fn first_at(text: Seq<u8>, byte: u8, i: int) -> Option<int>
    decreases text.len() - i,
{
    if i < 0 || i >= text.len() {
        None
    } else if text[i] == byte {
        Some(i)
    } else {
        first_at(text, byte, i + 1)
    }
}

/// Whether the byte is white space of ASCII.
pub fn is_ascii_space(b: u8) -> (r: bool)
    ensures
        r == is_space(b),
{
    b == 0x20 || (0x09 <= b && b <= 0x0d)
}

/// The number of bytes of white space in a row from `i` on.
pub fn count_spaces(text: &[u8], i: usize) -> (r: usize)
    requires
        i <= text@.len(),
    ensures
        r == spaces_at(text@, i as int),
        i + r <= text@.len(),
{
    let mut k: usize = i;
    while k < text.len() && is_ascii_space(text[k])
        invariant
            i <= k <= text@.len(),
            spaces_at(text@, i as int) == (k - i) + spaces_at(text@, k as int),
        decreases text@.len() - k,
    {
        k += 1;
    }
    k - i
}

/// Where the byte stands first from `i` on.
pub fn find_byte(text: &[u8], byte: u8, i: usize) -> (r: Option<usize>)
    requires
        i <= text@.len(),
    ensures
        match r {
            Some(at) => first_at(text@, byte, i as int) == Some(at as int) && i <= at < text@.len(),
            None => first_at(text@, byte, i as int) is None,
        },
{
    let mut k: usize = i;
    while k < text.len()
        invariant
            i <= k <= text@.len(),
            first_at(text@, byte, i as int) == first_at(text@, byte, k as int),
        decreases text@.len() - k,
    {
        if text[k] == byte {
            return Some(k);
        }
        k += 1;
    }
    None
}

/// The length of the argument that the text starts with: of a string
/// literal; or of one in square or round brackets, up to the bracket that
/// closes them, where white space may stand before the literal; or nothing
/// where the text starts with a closing bracket. Empty brackets have the
/// length two.
pub open spec fn argument_len(text: Seq<u8>) -> Option<int> {
    if text.len() == 0 {
        None
    } else if text[0] == 0x5b || text[0] == 0x28 {
        let close = if text[0] == 0x5b {
            0x5du8
        } else {
            0x29u8
        };
        let start = 1 + spaces_at(text, 1) as int;
        if start < text.len() && text[start] == close {
            Some(2)
        } else {
            match str_lit_len(text.skip(start)) {
                None => None,
                Some(len) => match first_at(text, close, start + len) {
                    None => None,
                    Some(at) => Some(at + 1),
                },
            }
        }
    } else if text[0] == 0x5d || text[0] == 0x7d || text[0] == 0x29 {
        Some(0)
    } else {
        str_lit_len(text)
    }
}

/// The length of the argument that the text starts with.
pub fn locate_end(text: &[u8]) -> (r: Option<usize>)
    requires
        text@.len() > 0 ==> !is_space(text@[0]),
    ensures
        match r {
            Some(len) => argument_len(text@) == Some(len as int) && len <= text@.len(),
            None => argument_len(text@) is None,
        },
{
    if text.len() == 0 {
        return None;
    }
    let c = text[0];
    if c == 0x5b || c == 0x28 {
        let close: u8 = if c == 0x5b {
            0x5d
        } else {
            0x29
        };
        let start = 1 + count_spaces(text, 1);
        if start < text.len() && text[start] == close {
            return Some(2);
        }
        let rest = vstd::slice::slice_subrange(text, start, text.len());
        proof {
            assert(rest@ =~= text@.skip(start as int));
        }
        let len = match find_str_lit_len(rest) {
            Some(len) => len,
            None => {
                return None;
            },
        };
        match find_byte(text, close, start + len) {
            Some(at) => Some(at + 1),
            None => None,
        }
    } else if c == 0x5d || c == 0x7d || c == 0x29 {
        Some(0)
    } else {
        find_str_lit_len(text)
    }
}

/// Where a literal stands in a source file, and how far its line is
/// indented.
#[derive(Debug, Clone, Copy, PartialEq, Eq, Structural)]
pub struct Location {
    /// The number of spaces that the line starts with.
    pub line_indent: usize,
    /// Where the literal starts.
    pub literal_start: usize,
    /// Where the literal ends.
    pub literal_end: usize,
}

/// Whether the byte opens a pair of brackets.
pub open spec fn is_opener(b: u8) -> bool {
    b == 0x5b || b == 0x28 || b == 0x7b
}

/// Where a bracket is opened first from `i` on and before `end`.
pub open spec fn opener_at(text: Seq<u8>, i: int, end: int) -> Option<int>
    decreases end - i,
{
    if i < 0 || i >= end || i >= text.len() {
        None
    } else if is_opener(text[i]) {
        Some(i)
    } else {
        opener_at(text, i + 1, end)
    }
}

/// The number of spaces in a row from `i` on.
pub open spec fn blanks_at(text: Seq<u8>, i: int) -> nat
    decreases text.len() - i,
{
    if 0 <= i < text.len() && text[i] == 0x20 {
        1 + blanks_at(text, i + 1)
    } else {
        0
    }
}

/// Where the line that starts at `start` ends: behind its line feed, or at
/// the end of the text.
pub open spec fn line_end_at(text: Seq<u8>, start: int) -> int {
    match first_at(text, 0x0a, start) {
        Some(at) => at + 1,
        None => text.len() as int,
    }
}

/// Where the line with the number `k` starts, the first line having the
/// number zero. `None` where the text has no such line.
pub open spec fn nth_line(text: Seq<u8>, k: nat) -> Option<int>
    decreases k,
{
    if k == 0 {
        if text.len() > 0 {
            Some(0)
        } else {
            None
        }
    } else {
        match nth_line(text, (k - 1) as nat) {
            None => None,
            Some(start) => if line_end_at(text, start) < text.len() {
                Some(line_end_at(text, start))
            } else {
                None
            },
        }
    }
}

/// Where the literal of an expectation stands that was written at the
/// given line and column, both counted from one and the column in bytes:
/// behind the first bracket that is opened at the column or behind it in
/// that line, and behind the white space that follows. `None` where there is
/// no such line, no bracket on it, nothing behind the bracket on the line,
/// or no argument there.
pub open spec fn literal_location(text: Seq<u8>, line: nat, column: nat) -> Option<Location> {
    if line == 0 || column == 0 {
        None
    } else {
        match nth_line(text, (line - 1) as nat) {
            None => None,
            Some(start) => match opener_at(text, start + column - 1, line_end_at(text, start)) {
                None => None,
                Some(open) => if open + 1 >= line_end_at(text, start) {
                    None
                } else {
                    let literal = open + 1 + spaces_at(text, open + 1);
                    match argument_len(text.skip(literal)) {
                        None => None,
                        Some(len) => Some(
                            Location {
                                line_indent: blanks_at(text, start) as usize,
                                literal_start: literal as usize,
                                literal_end: (literal + len) as usize,
                            },
                        ),
                    }
                },
            },
        }
    }
}

/// Where the line that starts at `start` ends.
pub fn end_of_line(text: &[u8], start: usize) -> (r: usize)
    requires
        start <= text@.len(),
    ensures
        r == line_end_at(text@, start as int),
        start <= r <= text@.len(),
        start < text@.len() ==> start < r,
{
    let len = text.len();
    match find_byte(text, 0x0a, start) {
        Some(at) => at + 1,
        None => len,
    }
}

/// Where the line with the number `k` starts.
pub fn start_of_line(text: &[u8], k: usize) -> (r: Option<usize>)
    ensures
        match r {
            Some(start) => nth_line(text@, k as nat) == Some(start as int) && start < text@.len(),
            None => nth_line(text@, k as nat) is None,
        },
{
    if text.len() == 0 {
        proof {
            lemma_no_line(text@, k as nat);
        }
        return None;
    }
    let mut start: usize = 0;
    let mut i: usize = 0;
    while i < k
        invariant
            i <= k,
            start < text@.len(),
            nth_line(text@, i as nat) == Some(start as int),
        decreases k - i,
    {
        let end = end_of_line(text, start);
        if end >= text.len() {
            proof {
                lemma_no_later_line(text@, (i + 1) as nat, k as nat);
            }
            return None;
        }
        start = end;
        i += 1;
    }
    Some(start)
}

/// A text without bytes has no line.
pub proof fn lemma_no_line(text: Seq<u8>, k: nat)
    requires
        text.len() == 0,
    ensures
        nth_line(text, k) is None,
    decreases k,
{
    if k > 0 {
        lemma_no_line(text, (k - 1) as nat);
    }
}

/// Behind a line that the text does not have it has no line.
pub proof fn lemma_no_later_line(text: Seq<u8>, missing: nat, k: nat)
    requires
        nth_line(text, missing) is None,
        missing <= k,
    ensures
        nth_line(text, k) is None,
    decreases k,
{
    if missing < k {
        lemma_no_later_line(text, missing, (k - 1) as nat);
    }
}

/// Where a bracket is opened first from `i` on and before `end`.
pub fn find_opener(text: &[u8], i: usize, end: usize) -> (r: Option<usize>)
    requires
        end <= text@.len(),
    ensures
        match r {
            Some(at) => opener_at(text@, i as int, end as int) == Some(at as int) && i <= at < end,
            None => opener_at(text@, i as int, end as int) is None,
        },
{
    let mut k: usize = i;
    while k < end
        invariant
            i <= k,
            end <= text@.len(),
            opener_at(text@, i as int, end as int) == opener_at(text@, k as int, end as int),
        decreases end - k,
    {
        if text[k] == 0x5b || text[k] == 0x28 || text[k] == 0x7b {
            return Some(k);
        }
        k += 1;
    }
    None
}

/// The number of spaces in a row from `i` on.
pub fn count_blanks(text: &[u8], i: usize) -> (r: usize)
    requires
        i <= text@.len(),
    ensures
        r == blanks_at(text@, i as int),
        i + r <= text@.len(),
{
    let mut k: usize = i;
    while k < text.len() && text[k] == 0x20
        invariant
            i <= k <= text@.len(),
            blanks_at(text@, i as int) == (k - i) + blanks_at(text@, k as int),
        decreases text@.len() - k,
    {
        k += 1;
    }
    k - i
}

/// White space in a row ends before a byte that is none, or with the text.
pub proof fn lemma_spaces_end(text: Seq<u8>, i: int)
    requires
        0 <= i <= text.len(),
    ensures
        i + spaces_at(text, i) <= text.len(),
        i + spaces_at(text, i) < text.len() ==> !is_space(text[i + spaces_at(text, i)]),
    decreases text.len() - i,
{
    if i < text.len() && is_space(text[i]) {
        lemma_spaces_end(text, i + 1);
    }
}

impl Expect {
    /// Where the literal of this expectation stands in the text of its
    /// source file.
    pub fn locate(&self, file: &[u8]) -> (r: Option<Location>)
        ensures
            r == literal_location(file@, self.position.line as nat, self.position.column as nat),
    {
        if self.position.line == 0 || self.position.column == 0 {
            return None;
        }
        let total = file.len();
        let start = match start_of_line(file, (self.position.line - 1) as usize) {
            Some(start) => start,
            None => {
                return None;
            },
        };
        let end = end_of_line(file, start);
        let column = (self.position.column - 1) as usize;
        if column >= end - start {
            return None;
        }
        let open = match find_opener(file, start + column, end) {
            Some(open) => open,
            None => {
                return None;
            },
        };
        if open + 1 >= end {
            return None;
        }
        let literal = open + 1 + count_spaces(file, open + 1);
        let rest = vstd::slice::slice_subrange(file, literal, total);
        proof {
            assert(rest@ =~= file@.skip(literal as int));
            lemma_spaces_end(file@, open + 1);
        }
        match locate_end(rest) {
            None => None,
            Some(len) => {
                let line_indent = count_blanks(file, start);
                Some(
                    Location { line_indent, literal_start: literal, literal_end: literal + len },
                )
            },
        }
    }
}

/// The lesser of two numbers of which either may be missing.
pub open spec fn least(a: Option<nat>, b: Option<nat>) -> Option<nat> {
    match (a, b) {
        (None, _) => b,
        (_, None) => a,
        (Some(x), Some(y)) => if x <= y {
            a
        } else {
            b
        },
    }
}

/// The least indentation of the lines from `from` on, where a line's
/// indentation is the white space that it starts with and lines of white
/// space alone do not count. `None` where no line counts.
pub open spec fn least_indent(text: Seq<u8>, from: int) -> Option<nat>
    decreases text.len() - from,
{
    if from < 0 || from >= text.len() {
        None
    } else if line_end_at(text, from) <= from || line_end_at(text, from) > text.len() {
        None
    } else if spaces_at(text, from) >= line_end_at(text, from) - from {
        least_indent(text, line_end_at(text, from))
    } else {
        least(Some(spaces_at(text, from)), least_indent(text, line_end_at(text, from)))
    }
}

/// The lines from `from` on, each without its first `indent` bytes; a line
/// of no more than `indent` bytes loses the spaces that it starts with
/// instead.
pub open spec fn unindented(text: Seq<u8>, from: int, indent: nat) -> Seq<u8>
    decreases text.len() - from,
{
    if from < 0 || from >= text.len() {
        Seq::empty()
    } else if line_end_at(text, from) <= from || line_end_at(text, from) > text.len() {
        Seq::empty()
    } else if line_end_at(text, from) - from <= indent {
        text.subrange(from + blanks_at(text, from), line_end_at(text, from)) + unindented(
            text,
            line_end_at(text, from),
            indent,
        )
    } else {
        text.subrange(from + indent, line_end_at(text, from)) + unindented(
            text,
            line_end_at(text, from),
            indent,
        )
    }
}

/// A text without the line feed that it starts with, if it starts with one,
/// and without the indentation that its lines share.
pub open spec fn trimmed_text(text: Seq<u8>) -> Seq<u8> {
    let body = if text.len() > 0 && text[0] == 0x0a {
        text.skip(1)
    } else {
        text
    };
    unindented(
        body,
        0,
        match least_indent(body, 0) {
            Some(indent) => indent,
            None => 0,
        },
    )
}

/// Spaces in a row end before the next line feed.
pub proof fn lemma_blanks_in_line(text: Seq<u8>, i: int)
    requires
        0 <= i < text.len(),
    ensures
        i + blanks_at(text, i) <= line_end_at(text, i),
        i < line_end_at(text, i) <= text.len(),
    decreases text.len() - i,
{
    if text[i] == 0x20 {
        assert(first_at(text, 0x0a, i) == first_at(text, 0x0a, i + 1));
        if i + 1 < text.len() {
            lemma_blanks_in_line(text, i + 1);
        }
    }
    lemma_first_at_bound(text, 0x0a, i);
}

/// Where a byte stands first from `i` on is at `i` or behind it, in the text.
pub proof fn lemma_first_at_bound(text: Seq<u8>, byte: u8, i: int)
    requires
        0 <= i,
    ensures
        first_at(text, byte, i) matches Some(at) ==> i <= at < text.len() && text[at] == byte,
    decreases text.len() - i,
{
    if i < text.len() && text[i] != byte {
        lemma_first_at_bound(text, byte, i + 1);
    }
}

/// A text without the line feed that it starts with, if it starts with one,
/// and without the indentation that its lines share.
pub fn trim_indent(text: &[u8]) -> (r: Vec<u8>)
    ensures
        r@ == trimmed_text(text@),
{
    let total = text.len();
    let skip: usize = if total > 0 && text[0] == 0x0a {
        1
    } else {
        0
    };
    let body = vstd::slice::slice_subrange(text, skip, total);
    proof {
        assert(body@ =~= if text@.len() > 0 && text@[0] == 0x0a {
            text@.skip(1)
        } else {
            text@
        });
    }
    let len = body.len();
    let mut indent: Option<usize> = None;
    let mut from: usize = 0;
    while from < len
        invariant
            len == body@.len(),
            from <= len,
            least_indent(body@, 0) == least(
                match indent {
                    Some(n) => Some(n as nat),
                    None => None,
                },
                least_indent(body@, from as int),
            ),
        decreases len - from,
    {
        let end = end_of_line(body, from);
        let spaces = count_spaces(body, from);
        if spaces < end - from {
            indent = match indent {
                Some(n) => if n <= spaces {
                    Some(n)
                } else {
                    Some(spaces)
                },
                None => Some(spaces),
            };
        }
        from = end;
    }
    let indent: usize = match indent {
        Some(n) => n,
        None => 0,
    };
    let mut out: Vec<u8> = Vec::new();
    let mut from: usize = 0;
    while from < len
        invariant
            len == body@.len(),
            from <= len,
            unindented(body@, 0, indent as nat) == out@ + unindented(body@, from as int, indent as nat),
        decreases len - from,
    {
        let end = end_of_line(body, from);
        let ghost before = out@;
        proof {
            lemma_blanks_in_line(body@, from as int);
        }
        if end - from <= indent {
            let blanks = count_blanks(body, from);
            out.extend_from_slice(vstd::slice::slice_subrange(body, from + blanks, end));
        } else {
            out.extend_from_slice(vstd::slice::slice_subrange(body, from + indent, end));
        }
        proof {
            let piece = if end - from <= indent {
                body@.subrange(from + blanks_at(body@, from as int), end as int)
            } else {
                body@.subrange(from + indent, end as int)
            };
            assert(out@ == before + piece);
            assert(before + (piece + unindented(body@, end as int, indent as nat)) =~= (before
                + piece) + unindented(body@, end as int, indent as nat));
        }
        from = end;
    }
    proof {
        assert(out@ + unindented(body@, len as int, indent as nat) =~= out@);
    }
    out
}

impl Expect {
    /// The expected text as it is meant: as it was written where it is one
    /// line, else without the indentation that its lines share.
    pub open spec fn trimmed_spec(data: Seq<u8>) -> Seq<u8> {
        if occurs(data, 0x0a) {
            trimmed_text(data)
        } else {
            data
        }
    }

    /// The expected text as it is meant.
    pub fn trimmed(&self) -> (r: Vec<u8>)
        ensures
            r@ == Self::trimmed_spec(self.data.spec_bytes()),
    {
        let data = self.data.as_bytes();
        if !contains_byte(data, 0x0a) {
            return vstd::slice::slice_to_vec(data);
        }
        trim_indent(data)
    }

    /// Whether `actual` is the expected text as it is meant.
    pub fn matches(&self, actual: &str) -> (r: bool)
        ensures
            r == (Self::trimmed_spec(self.data.spec_bytes()) == actual.spec_bytes()),
    {
        let expected = self.trimmed();
        let given = actual.as_bytes();
        if expected.len() != given.len() {
            return false;
        }
        let mut i: usize = 0;
        while i < expected.len()
            invariant
                expected@ == Self::trimmed_spec(self.data.spec_bytes()),
                given@ == actual.spec_bytes(),
                i <= expected@.len() == given@.len(),
                forall|j: int| 0 <= j < i ==> expected@[j] == given@[j],
            decreases expected@.len() - i,
        {
            if expected[i] != given[i] {
                assert(expected@[i as int] != given@[i as int]);
                return false;
            }
            i += 1;
        }
        assert(expected@ =~= given@);
        true
    }
}

/// The indentation that is wanted, as a number.
pub open spec fn wanted_indent(desired: Option<usize>) -> Option<nat> {
    match desired {
        Some(n) => Some(n as nat),
        None => None,
    }
}

/// `n` spaces.
pub open spec fn blanks(n: nat) -> Seq<u8> {
    Seq::new(n, |i: int| 0x20u8)
}

/// Whether the kind of literal is the one that can hold `patch`.
pub open spec fn kind_fits(patch: Seq<u8>, kind: StrLitKind) -> bool {
    &&& !occurs(patch, 0x22) && !occurs(patch, 0x5c) && !occurs(patch, 0x0a) ==> kind
        == StrLitKind::Normal
    &&& !occurs(patch, 0x22) && (occurs(patch, 0x5c) || occurs(patch, 0x0a)) ==> kind
        == StrLitKind::Raw(1)
    &&& occurs(patch, 0x22) ==> (kind matches StrLitKind::Raw(n) && n >= 1 && most_hashes(
        patch,
        (n - 1) as nat,
    ))
}

/// The lines from `from` on, each behind its indentation if `indented` is
/// set: four spaces more than `indent`, but none for a line of white space
/// alone, and none at all where no indentation is wanted.
pub open spec fn indented_lines(text: Seq<u8>, from: int, indent: Option<nat>, indented: bool) -> Seq<
    u8,
>
    decreases text.len() - from,
{
    if from < 0 || from >= text.len() {
        Seq::empty()
    } else if line_end_at(text, from) <= from || line_end_at(text, from) > text.len() {
        Seq::empty()
    } else {
        (if indented && indent is Some && spaces_at(text, from) < line_end_at(text, from) - from {
            blanks(indent.unwrap() + 4)
        } else {
            Seq::empty()
        }) + text.subrange(from, line_end_at(text, from)) + indented_lines(
            text,
            line_end_at(text, from),
            indent,
            indented,
        )
    }
}

/// A patch as a literal of the given kind, in square brackets if the kind
/// is raw. A patch of more than one line starts on a line of its own, has
/// its lines indented, and has the end of the literal indented if it ends
/// with a line feed.
pub open spec fn patch_text(kind: StrLitKind, indent: Option<nat>, patch: Seq<u8>) -> Seq<u8> {
    (if kind is Raw {
        seq![0x5bu8]
    } else {
        Seq::empty()
    }) + kind.start_text() + (if occurs(patch, 0x0a) {
        seq![0x0au8]
    } else {
        Seq::empty()
    }) + indented_lines(patch, 0, indent, occurs(patch, 0x0a)) + (if patch.len() > 0 && patch.last()
        == 0x0a && indent is Some {
        blanks(indent.unwrap())
    } else {
        Seq::empty()
    }) + kind.end_text() + (if kind is Raw {
        seq![0x5du8]
    } else {
        Seq::empty()
    })
}

/// Writes `n` spaces.
pub fn write_blanks(w: &mut Vec<u8>, n: usize)
    ensures
        final(w)@ == old(w)@ + blanks(n as nat),
{
    let mut i: usize = 0;
    proof {
        assert(w@ =~= old(w)@ + blanks(0));
    }
    while i < n
        invariant
            i <= n,
            w@ == old(w)@ + blanks(i as nat),
        decreases n - i,
    {
        w.push(0x20);
        i += 1;
        proof {
            assert(w@ =~= old(w)@ + blanks(i as nat));
        }
    }
}

/// A patch as a literal of the given kind.
pub fn format_patch_as(kind: StrLitKind, desired_indent: Option<usize>, patch: &[u8]) -> (r: Vec<
    u8,
>)
    requires
        desired_indent matches Some(n) ==> n + 4 <= usize::MAX,
    ensures
        r@ == patch_text(
            kind,
            wanted_indent(desired_indent),
            patch@,
        ),
{
    let ghost indent: Option<nat> = wanted_indent(desired_indent);
    let is_raw = match kind {
        StrLitKind::Raw(_) => true,
        StrLitKind::Normal => false,
    };
    let is_multiline = contains_byte(patch, 0x0a);
    let mut buf: Vec<u8> = Vec::new();
    if is_raw {
        buf.push(0x5b);
    }
    kind.write_start(&mut buf);
    if is_multiline {
        buf.push(0x0a);
    }
    let ghost head = buf@;
    let len = patch.len();
    let mut from: usize = 0;
    proof {
        assert(buf@ =~= head + Seq::<u8>::empty());
    }
    while from < len
        invariant
            len == patch@.len(),
            from <= len,
            is_multiline == occurs(patch@, 0x0a),
            indent == (wanted_indent(desired_indent)),
            desired_indent matches Some(n) ==> n + 4 <= usize::MAX,
            head + indented_lines(patch@, 0, indent, is_multiline) == buf@ + indented_lines(
                patch@,
                from as int,
                indent,
                is_multiline,
            ),
        decreases len - from,
    {
        let end = end_of_line(patch, from);
        let ghost before = buf@;
        let mut pad: usize = 0;
        if is_multiline && count_spaces(patch, from) < end - from {
            match desired_indent {
                Some(n) => {
                    pad = n + 4;
                    write_blanks(&mut buf, n + 4);
                },
                None => {},
            }
        }
        let ghost padded = buf@;
        buf.extend_from_slice(vstd::slice::slice_subrange(patch, from, end));
        proof {
            let lead = if is_multiline && indent is Some && spaces_at(patch@, from as int) < end
                - from {
                blanks(indent.unwrap() + 4)
            } else {
                Seq::<u8>::empty()
            };
            assert(padded =~= before + lead);
            let line = patch@.subrange(from as int, end as int);
            let rest = indented_lines(patch@, end as int, indent, is_multiline);
            assert(before + (lead + line + rest) =~= (before + lead + line) + rest);
            assert(buf@ =~= before + lead + line);
        }
        from = end;
    }
    proof {
        assert(buf@ + indented_lines(patch@, len as int, indent, is_multiline) =~= buf@);
    }
    let ghost body = buf@;
    if len > 0 && patch[len - 1] == 0x0a {
        match desired_indent {
            Some(n) => {
                write_blanks(&mut buf, n);
            },
            None => {},
        }
    }
    kind.write_end(&mut buf);
    if is_raw {
        buf.push(0x5d);
    }
    proof {
        assert(buf@ =~= patch_text(kind, indent, patch@));
    }
    buf
}

/// A patch as a literal of the kind that can hold it.
pub fn format_patch(desired_indent: Option<usize>, patch: &[u8]) -> (r: Vec<u8>)
    requires
        desired_indent matches Some(n) ==> n + 4 <= usize::MAX,
    ensures
        exists|kind: StrLitKind|
            kind_fits(patch@, kind) && r@ == #[trigger] patch_text(
                kind,
                wanted_indent(desired_indent),
                patch@,
            ),
{
    let kind = lit_kind_for_patch(patch);
    format_patch_as(kind, desired_indent, patch)
}

} // verus!
