use save::commit::{BruteForcedCommit, Commit, Draft};
use save::digest::{hash_commit, Oid};
use save::hex::{decode_hex_nibbles, MaskedBytes};
use save::search::{score, Candidate, Search};
use save::zigzag::ZugZug;
use sha1::{Digest, Sha1};

const IDEAL: i64 = 1641915519;

fn draft_text() -> Vec<u8> {
    [
        "tree f39e8a9993875251359f11f3deb43241f7c3ce61\n",
        "parent 2148874f7bbe0aa96041b885e6622af1f9651381\n",
        "author Dev <dev@example.com> 1641915519 +0000\n",
        "committer Dev <dev@example.com> 1641915519 +0000\n",
        "\n",
        "fix(dog): no more puppies\n",
        "\n",
        "Co-Authored-By: Vet <vet@example.com>\n",
    ]
    .join("")
    .into_bytes()
}

fn text_with(author: i64, committer: i64) -> Vec<u8> {
    String::from_utf8(draft_text())
        .unwrap()
        .replacen("1641915519", &author.to_string(), 1)
        .replacen(
            "committer Dev <dev@example.com> 1641915519",
            &format!("committer Dev <dev@example.com> {committer}"),
            1,
        )
        .into_bytes()
}

fn search_for(target: MaskedBytes, min_author: i64) -> Search {
    Search {
        draft: Draft::parse(draft_text()).unwrap(),
        target,
        ideal_author_timestamp: IDEAL,
        ideal_committer_timestamp: IDEAL,
        min_author_timestamp: min_author,
    }
}

/// The candidate that ranks first below `limit`, by trying every index.
fn best_by_trial(search: &Search, limit: u64) -> Option<Candidate> {
    let mut best: Option<Candidate> = None;
    for index in 0..limit {
        if let Some(c) = search.candidate(index) {
            let better = match &best {
                None => true,
                Some(b) => c.matched_bits > b.matched_bits,
            };
            if better {
                best = Some(c);
            }
        }
    }
    best
}

#[test]
fn draft_parse_marks_the_two_timestamps() {
    let draft = Draft::parse(draft_text()).unwrap();
    assert_eq!(&draft.raw[draft.author_start..draft.author_end], b"1641915519");
    assert_eq!(&draft.raw[draft.committer_start..draft.committer_end], b"1641915519");
    assert!(draft.author_end < draft.committer_start);
    assert_eq!(draft.raw, draft_text());
}

#[test]
fn draft_parse_needs_both_lines() {
    assert!(Draft::parse(b"tree abc\nauthor A <a@b> 1 +0000\n\nmessage\n".to_vec()).is_none());
    assert!(Draft::parse(b"tree abc\ncommitter A <a@b> 1 +0000\n\nmessage\n".to_vec()).is_none());
    assert!(Draft::parse(b"".to_vec()).is_none());
    assert!(Draft::parse(
        b"committer A <a@b> 1 +0000\nauthor A <a@b> 1 +0000\n".to_vec()
    )
    .is_none());
    assert!(Draft::parse(b"xauthor A 1 +0\nauthor B 2 +0\ncommitter C 3 +0".to_vec()).is_some());
}

#[test]
fn draft_parse_takes_the_piece_before_the_last() {
    let draft = Draft::parse(b"author 12 +0\ncommitter x".to_vec()).unwrap();
    assert_eq!((draft.author_start, draft.author_end), (7, 9));
    assert_eq!((draft.committer_start, draft.committer_end), (13, 22));
    assert_eq!(draft.render(5, -6), b"author 5 +0\n-6 x".to_vec());
}

#[test]
fn render_writes_only_the_timestamps() {
    let draft = Draft::parse(draft_text()).unwrap();
    assert_eq!(draft.render(IDEAL, IDEAL), draft_text());
    assert_eq!(draft.render(1600000000, 1600000240), text_with(1600000000, 1600000240));
    assert_eq!(draft.render(-1, 0), text_with(-1, 0));
}

#[test]
fn commit_from_parts_joins_header_and_message() {
    let commit = Commit::from_parts(b"tree abc\nauthor A", b"message\n");
    assert_eq!(commit.body, b"tree abc\nauthor A\nmessage\n".to_vec());
    assert_eq!(commit.id, hash_commit(&commit.body));
    assert_eq!(commit.to_bytes(), commit.body);
    assert_eq!(Commit::new(commit.to_bytes()).id, commit.id);
}

#[test]
fn brute_forced_commit_hands_out_its_commit() {
    let commit = Commit::new(b"abc".to_vec());
    let complete = BruteForcedCommit::Complete { commit: commit.clone() };
    let incomplete = BruteForcedCommit::Incomplete { commit: commit.clone(), matched_bits: 3 };
    assert_eq!(complete.commit().id, commit.id);
    assert_eq!(incomplete.commit().body, commit.body);
    assert!(complete.incomplete().is_none());
    assert_eq!(incomplete.incomplete().unwrap().id, commit.id);
    assert_eq!(complete.clone().complete().unwrap().id, commit.id);
    assert!(incomplete.clone().complete().is_none());
    assert_eq!(incomplete.into_commit().body, b"abc".to_vec());
    assert_eq!(complete.into_commit().id, commit.id);
}

#[test]
fn score_counts_leading_bits() {
    let mut bytes = [0_u8; 20];
    bytes[0] = 0xf0;
    bytes[1] = 0x0c;
    let id = Oid::from_array(bytes);
    assert_eq!(score(&id, &decode_hex_nibbles("F00D")), (15, 16));
    assert_eq!(score(&id, &decode_hex_nibbles("F00C")), (16, 16));
    assert_eq!(score(&id, &decode_hex_nibbles("F0_C")), (16, 16));
    assert_eq!(score(&id, &decode_hex_nibbles("F0_D")), (15, 16));
    assert_eq!(score(&id, &decode_hex_nibbles("70")), (0, 8));
    assert_eq!(score(&id, &decode_hex_nibbles("E")), (3, 8));
    assert_eq!(score(&id, &decode_hex_nibbles("")), (0, 0));
    assert_eq!(score(&id, &decode_hex_nibbles("F00C00")), (24, 24));
    assert_eq!(score(&id, &decode_hex_nibbles("F00C01")), (23, 24));
}

#[test]
fn score_compares_twenty_bytes_at_most() {
    let id = Oid::from_array([0xab; 20]);
    let exact = MaskedBytes::from(vec![0xab_u8; 25]);
    assert_eq!(score(&id, &exact), (160, 160));
    let mut last = vec![0xab_u8; 20];
    last[19] = 0xaa;
    assert_eq!(score(&id, &MaskedBytes::from(last)), (159, 160));
}

#[test]
fn candidate_adds_the_offsets_to_the_ideal_timestamps() {
    let search = search_for(decode_hex_nibbles("F00D"), i64::MIN);
    for index in 0..200_u64 {
        let (lo, hi) = index.zugzug();
        let c = search.candidate(index).unwrap();
        assert_eq!(c.index, index);
        assert_eq!(c.author_timestamp, IDEAL + lo);
        assert_eq!(c.committer_timestamp, IDEAL + hi);
        assert!(c.author_timestamp <= c.committer_timestamp);
        assert_eq!(c.commit.body, text_with(IDEAL + lo, IDEAL + hi));
        assert_eq!(c.commit.id, hash_commit(&c.commit.body));
        assert_eq!(c.matched_bits, score(&c.commit.id, &search.target).0);
    }
}

#[test]
fn candidate_skips_an_author_before_the_minimum() {
    let search = search_for(decode_hex_nibbles("F00D"), IDEAL);
    assert!(search.candidate(0).is_some());
    assert!(search.candidate(1).is_some());
    assert!(search.candidate(2).is_some());
    assert!(search.candidate(3).is_none());
    assert!(search.candidate(4).is_none());
    assert!(search.candidate(5).is_none());
    assert!(search.candidate(6).is_some());
}

#[test]
fn candidate_skips_timestamps_out_of_range() {
    let mut search = search_for(decode_hex_nibbles("F00D"), i64::MIN);
    search.ideal_committer_timestamp = i64::MAX;
    assert!(search.candidate(0).is_some());
    assert!(search.candidate(1).is_none());
    assert!(search.candidate(3).is_some());
    search.ideal_author_timestamp = i64::MIN;
    assert!(search.candidate(3).is_none());
}

#[test]
fn search_with_empty_target_returns_the_draft() {
    let search = search_for(decode_hex_nibbles(""), IDEAL);
    for workers in [1, 2, 8] {
        match search.brute_force_timestamps(1000, workers) {
            BruteForcedCommit::Complete { commit } => {
                assert_eq!(commit.body, draft_text());
                assert_eq!(commit.id, hash_commit(&draft_text()));
            },
            BruteForcedCommit::Incomplete { .. } => panic!("an empty target is always matched"),
        }
    }
}

#[test]
fn search_for_the_drafts_own_address_stops_at_index_zero() {
    let own = hash_commit(&draft_text());
    let search = search_for(MaskedBytes::from(vec![own.bytes[0]]), IDEAL);
    for workers in [1, 2, 8] {
        let found = search.search(u64::MAX, workers).unwrap();
        assert_eq!(found.index, 0);
        assert_eq!(found.matched_bits, 8);
        assert_eq!(found.commit.body, draft_text());
        assert_eq!(found.commit.id, own);
        assert!(search.brute_force_timestamps(u64::MAX, workers).complete().is_some());
    }
}

#[test]
fn search_finds_the_same_whatever_the_number_of_workers() {
    for pattern in ["F0", "0D", "A_5", "__7"] {
        let search = search_for(decode_hex_nibbles(pattern), IDEAL - 100);
        let one = search.search(1 << 20, 1).unwrap();
        assert_eq!(one.matched_bits, score(&one.commit.id, &search.target).1);
        for index in 0..one.index {
            if let Some(c) = search.candidate(index) {
                assert!(c.matched_bits < one.matched_bits);
            }
        }
        for workers in [2, 3, 8, 64] {
            let other = search.search(1 << 20, workers).unwrap();
            assert_eq!(other.index, one.index);
            assert_eq!(other.author_timestamp, one.author_timestamp);
            assert_eq!(other.committer_timestamp, one.committer_timestamp);
            assert_eq!(other.commit.body, one.commit.body);
            assert_eq!(other.commit.id, one.commit.id);
        }
    }
}

#[test]
fn search_below_a_limit_returns_the_best_partial_match() {
    let search = search_for(decode_hex_nibbles("F00DF00DF00D"), IDEAL);
    let expected = best_by_trial(&search, 300).unwrap();
    for workers in [1, 2, 8] {
        let found = search.search(300, workers).unwrap();
        assert_eq!(found.index, expected.index);
        assert_eq!(found.matched_bits, expected.matched_bits);
        assert!(found.matched_bits < 48);
        match search.brute_force_timestamps(300, workers) {
            BruteForcedCommit::Incomplete { commit, matched_bits } => {
                assert_eq!(matched_bits, expected.matched_bits);
                assert_eq!(commit.id, expected.commit.id);
                assert_eq!(commit.body, expected.commit.body);
            },
            BruteForcedCommit::Complete { .. } => panic!("48 bits are not matched in 300 trials"),
        }
    }
}

#[test]
fn search_without_any_candidate_returns_the_draft() {
    let search = search_for(decode_hex_nibbles("F00D"), IDEAL + 1);
    assert!(search.search(1, 4).is_none());
    match search.brute_force_timestamps(1, 4) {
        BruteForcedCommit::Incomplete { commit, matched_bits } => {
            assert_eq!(commit.body, draft_text());
            assert_eq!(matched_bits, score(&commit.id, &search.target).0);
        },
        BruteForcedCommit::Complete { .. } => panic!("no candidate was tried"),
    }
    assert!(search.search(0, 1).is_none());
}

#[test]
fn scan_visits_one_residue_class() {
    let search = search_for(decode_hex_nibbles("F00DF00D"), IDEAL - 50);
    let mut expected: Option<Candidate> = None;
    for index in (3..200_u64).step_by(7) {
        if let Some(c) = search.candidate(index) {
            if expected.as_ref().map_or(true, |b| c.matched_bits > b.matched_bits) {
                expected = Some(c);
            }
        }
    }
    let found = search.scan(None, 3, 7, 200).unwrap();
    assert_eq!(found.index, expected.unwrap().index);
    assert_eq!(found.index % 7, 3);
    assert!(search.scan(None, 200, 7, 200).is_none());
}

#[test]
fn leading_keeps_the_leader_unless_the_challenger_ranks_before_it() {
    let search = search_for(decode_hex_nibbles("F00DF00D"), IDEAL - 50);
    let a = search.candidate(10).unwrap();
    let b = search.candidate(20).unwrap();
    let first = search.leading(None, a.clone());
    assert_eq!(first.index, 10);
    let second = search.leading(Some(a.clone()), b.clone());
    let expected = if b.matched_bits > a.matched_bits { 20 } else { 10 };
    assert_eq!(second.index, expected);
    let third = search.leading(Some(b.clone()), a.clone());
    let expected = if a.matched_bits >= b.matched_bits { 10 } else { 20 };
    assert_eq!(third.index, expected);
}

#[test]
fn stored_commit_has_the_address_that_the_search_reported() {
    let search = search_for(decode_hex_nibbles("5"), IDEAL);
    let found = search.brute_force_timestamps(1 << 20, 4).complete().unwrap();
    let mut store: Vec<([u8; 20], Vec<u8>)> = Vec::new();
    let mut object = format!("commit {}\0", found.body.len()).into_bytes();
    object.extend_from_slice(&found.body);
    store.push((Sha1::digest(&object).into(), found.body.clone()));
    let (stored_id, stored_body) = &store[0];
    assert_eq!(*stored_id, found.id.bytes);
    assert_eq!(hash_commit(stored_body), found.id);
    assert_eq!(stored_id[0] >> 4, 5);
    let again = Draft::parse(stored_body.clone()).unwrap();
    assert_eq!(again.raw, found.body);
}

#[test]
fn conclusion_follows_the_candidate() {
    let search = search_for(decode_hex_nibbles("F00DF00D"), IDEAL);
    assert_eq!(search.full_bits(), 32);
    let c = search.candidate(0).unwrap();
    match search.conclude(Some(c.clone())) {
        BruteForcedCommit::Incomplete { commit, matched_bits } => {
            assert_eq!(matched_bits, c.matched_bits);
            assert_eq!(commit.id, c.commit.id);
            assert_eq!(commit.body, c.commit.body);
        },
        BruteForcedCommit::Complete { .. } => panic!("the draft does not match this target"),
    }
    assert!(search.conclude(None).incomplete().is_some());

    let own = hash_commit(&draft_text());
    let exact = search_for(MaskedBytes::from(own.bytes.to_vec()), IDEAL);
    assert_eq!(exact.full_bits(), 160);
    let c = exact.candidate(0).unwrap();
    assert_eq!(c.matched_bits, 160);
    assert_eq!(exact.conclude(Some(c)).complete().unwrap().id, own);

    let empty = search_for(decode_hex_nibbles(""), IDEAL);
    assert_eq!(empty.full_bits(), 0);
    assert_eq!(empty.conclude(None).complete().unwrap().body, draft_text());
}

#[test]
fn a_full_match_with_a_lower_index_settles_the_search() {
    let own = hash_commit(&draft_text());
    let search = search_for(MaskedBytes::from(vec![own.bytes[0], own.bytes[1]]), IDEAL);
    let full = search.candidate(0).unwrap();
    assert_eq!(full.matched_bits, 16);
    assert!(!search.is_settled(&None, 5));
    assert!(search.is_settled(&Some(full.clone()), 1));
    assert!(!search.is_settled(&Some(full.clone()), 0));
    let mut later = 1;
    while search.candidate(later).map_or(true, |c| c.matched_bits == 16) {
        later += 1;
    }
    let partial = search.candidate(later).unwrap();
    assert!(!search.is_settled(&Some(partial), later + 100));
    assert_eq!(search.scan(Some(full.clone()), 1, 1, 1000).unwrap().index, 0);
}
