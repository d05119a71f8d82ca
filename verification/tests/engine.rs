//! Byte-mode engine behaviour: scan semantics, overlap handling, and
//! representation independence.

use ahocorasick_rs::{BytesAhoCorasick, Implementation, MatchKind};

fn bpats(ps: &[&str]) -> Vec<Vec<u8>> {
    ps.iter().map(|p| p.as_bytes().to_vec()).collect()
}

#[test]
fn textbook_overlapping() {
    let ac = BytesAhoCorasick::new(
        &bpats(&["he", "hers", "she"]),
        MatchKind::Standard,
        Implementation::DFA,
    )
    .unwrap();
    let got = ac.find_matches_as_indexes(b"ushers", true).unwrap();
    assert_eq!(got, vec![(2, 1, 4), (0, 2, 4), (1, 2, 6)]);
}

#[test]
fn textbook_standard_nonoverlapping() {
    let ac = BytesAhoCorasick::new(
        &bpats(&["he", "hers", "she"]),
        MatchKind::Standard,
        Implementation::ContiguousNFA,
    )
    .unwrap();
    let got = ac.find_matches_as_indexes(b"ushers", false).unwrap();
    assert_eq!(got, vec![(2, 1, 4)]);
}

#[test]
fn overlapping_is_superset_and_verifiable() {
    let pats = bpats(&["a", "ab", "b", "abab"]);
    let ac = BytesAhoCorasick::new(&pats, MatchKind::Standard, Implementation::NoncontiguousNFA)
        .unwrap();
    let hay = b"abab";
    let over = ac.find_matches_as_indexes(hay, true).unwrap();
    let non = ac.find_matches_as_indexes(hay, false).unwrap();
    for m in &non {
        assert!(over.contains(m));
    }
    for &(pid, s, e) in &over {
        assert_eq!(&hay[s..e], pats[pid].as_slice());
    }
    assert!(over.len() >= non.len());
}

#[test]
fn representations_agree() {
    let pats = bpats(&["he", "hers", "she", "his", "h"]);
    let hay: &[u8] = b"ushers and his heroes share shears";
    for kind in [MatchKind::Standard, MatchKind::LeftmostFirst, MatchKind::LeftmostLongest] {
        let sparse =
            BytesAhoCorasick::new(&pats, kind, Implementation::NoncontiguousNFA).unwrap();
        let contig = BytesAhoCorasick::new(&pats, kind, Implementation::ContiguousNFA).unwrap();
        let dense = BytesAhoCorasick::new(&pats, kind, Implementation::DFA).unwrap();
        let a = sparse.find_matches_as_indexes(hay, false).unwrap();
        let b = contig.find_matches_as_indexes(hay, false).unwrap();
        let c = dense.find_matches_as_indexes(hay, false).unwrap();
        assert_eq!(a, b);
        assert_eq!(b, c);
        if kind == MatchKind::Standard {
            let ao = sparse.find_matches_as_indexes(hay, true).unwrap();
            let bo = contig.find_matches_as_indexes(hay, true).unwrap();
            let co = dense.find_matches_as_indexes(hay, true).unwrap();
            assert_eq!(ao, bo);
            assert_eq!(bo, co);
        }
    }
}

#[test]
fn duplicate_patterns_both_reported() {
    let ac = BytesAhoCorasick::new(
        &bpats(&["ab", "ab"]),
        MatchKind::Standard,
        Implementation::DFA,
    )
    .unwrap();
    let got = ac.find_matches_as_indexes(b"ab", true).unwrap();
    assert_eq!(got, vec![(0, 0, 2), (1, 0, 2)]);
}

#[test]
fn arbitrary_bytes_match() {
    let pats = vec![vec![0xffu8, 0x00u8]];
    let ac =
        BytesAhoCorasick::new(&pats, MatchKind::Standard, Implementation::DFA).unwrap();
    let hay = [0xffu8, 0x00, 0x17, 0xff, 0x00];
    let got = ac.find_matches_as_indexes(&hay, false).unwrap();
    assert_eq!(got, vec![(0, 0, 2), (0, 3, 5)]);
}

#[test]
fn empty_haystack_no_matches() {
    let ac = BytesAhoCorasick::new(
        &bpats(&["he"]),
        MatchKind::Standard,
        Implementation::DFA,
    )
    .unwrap();
    assert_eq!(ac.find_matches_as_indexes(b"", false).unwrap(), vec![]);
    assert_eq!(ac.find_matches_as_indexes(b"", true).unwrap(), vec![]);
}

#[test]
fn absent_pattern_no_matches() {
    let ac = BytesAhoCorasick::new(
        &bpats(&["xyz"]),
        MatchKind::Standard,
        Implementation::ContiguousNFA,
    )
    .unwrap();
    assert_eq!(ac.find_matches_as_indexes(b"abcabc", false).unwrap(), vec![]);
}

#[test]
fn standard_matches_are_disjoint_and_greedy() {
    let ac = BytesAhoCorasick::new(
        &bpats(&["aa", "b"]),
        MatchKind::Standard,
        Implementation::DFA,
    )
    .unwrap();
    let got = ac.find_matches_as_indexes(b"aaaab", false).unwrap();
    assert_eq!(got, vec![(0, 0, 2), (0, 2, 4), (1, 4, 5)]);
    for w in got.windows(2) {
        assert!(w[0].2 <= w[1].1);
    }
}

#[test]
fn leftmost_prefers_earlier_start() {
    let ac = BytesAhoCorasick::new(
        &bpats(&["bcd", "abcde"]),
        MatchKind::LeftmostFirst,
        Implementation::DFA,
    )
    .unwrap();
    let got = ac.find_matches_as_indexes(b"abcde", false).unwrap();
    assert_eq!(got, vec![(1, 0, 5)]);
}
