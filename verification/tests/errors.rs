//! Error behaviour: empty patterns, unsupported overlapping enumeration,
//! and representation size limits.

use ahocorasick_rs::{
    AcError, AhoCorasick, BytesAhoCorasick, Implementation, MatchKind, RetentionPolicy,
};

#[test]
fn empty_pattern_among_thousand_fails() {
    let mut pats: Vec<String> = Vec::new();
    for i in 0..1000 {
        pats.push(format!("pat{}", i));
    }
    pats.push(String::new());
    let r = AhoCorasick::new(
        &pats,
        MatchKind::Standard,
        Implementation::DFA,
        RetentionPolicy::Heuristic,
    );
    assert!(matches!(r, Err(AcError::EmptyPattern)));
}

#[test]
fn empty_byte_pattern_fails() {
    let pats = vec![b"ok".to_vec(), Vec::new(), b"fine".to_vec()];
    let r = BytesAhoCorasick::new(&pats, MatchKind::Standard, Implementation::NoncontiguousNFA);
    assert!(matches!(r, Err(AcError::EmptyPattern)));
}

#[test]
fn overlapping_unsupported_for_leftmost_first() {
    let pats = vec![b"a".to_vec()];
    let ac =
        BytesAhoCorasick::new(&pats, MatchKind::LeftmostFirst, Implementation::DFA).unwrap();
    let r = ac.find_matches_as_indexes(b"aaa", true);
    assert!(matches!(r, Err(AcError::UnsupportedOperation)));
}

#[test]
fn overlapping_unsupported_for_leftmost_longest() {
    let pats = vec!["a".to_string()];
    let ac = AhoCorasick::new(
        &pats,
        MatchKind::LeftmostLongest,
        Implementation::ContiguousNFA,
        RetentionPolicy::Always,
    )
    .unwrap();
    assert!(matches!(ac.find_matches_as_indexes("aaa", true), Err(AcError::UnsupportedOperation)));
    assert!(matches!(ac.find_matches_as_strings("aaa", true), Err(AcError::UnsupportedOperation)));
}

#[test]
fn dfa_state_limit_exceeded() {
    // One pattern of 70,000 distinct prefixes needs more states than the
    // dense table allows; the sparse representation still builds.
    let pats = vec![vec![0x61u8; 70_000]];
    let r = BytesAhoCorasick::new(&pats, MatchKind::Standard, Implementation::DFA);
    assert!(matches!(r, Err(AcError::Build)));
    let ok = BytesAhoCorasick::new(&pats, MatchKind::Standard, Implementation::NoncontiguousNFA);
    assert!(ok.is_ok());
}

#[test]
fn error_messages_distinct() {
    assert_ne!(AcError::EmptyPattern.message(), AcError::Build.message());
    assert_ne!(AcError::Build.message(), AcError::UnsupportedOperation.message());
}
