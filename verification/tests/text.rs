//! Text-mode behaviour: codepoint offset translation, string extraction, and
//! the leftmost match-kind scenarios.

use ahocorasick_rs::{
    get_byte_to_code_point, AhoCorasick, Implementation, MatchKind, RetentionPolicy,
};

fn spats(ps: &[&str]) -> Vec<String> {
    ps.iter().map(|p| p.to_string()).collect()
}

#[test]
fn codepoint_translation_round_trip() {
    // 1-byte (ascii), 2-byte and 3-byte codepoints mixed.
    let ac = AhoCorasick::new(
        &spats(&["★bar"]),
        MatchKind::Standard,
        Implementation::DFA,
        RetentionPolicy::Heuristic,
    )
    .unwrap();
    let got = ac.find_matches_as_indexes("café★bar", false).unwrap();
    // "★bar" starts at the 5th codepoint (index 4) and ends before index 8,
    // even though its byte range is [5, 11).
    assert_eq!(got, vec![(0, 4, 8)]);
}

#[test]
fn multibyte_pattern_offsets_in_codepoints() {
    let ac = AhoCorasick::new(
        &spats(&["é"]),
        MatchKind::Standard,
        Implementation::NoncontiguousNFA,
        RetentionPolicy::Always,
    )
    .unwrap();
    let got = ac.find_matches_as_indexes("café★bar café", false).unwrap();
    assert_eq!(got, vec![(0, 3, 4), (0, 12, 13)]);
}

#[test]
fn byte_to_code_point_table() {
    let map = get_byte_to_code_point("aé★");
    // bytes: 'a' (1), 'é' (2), '★' (3); interior bytes get the sentinel.
    assert_eq!(
        map,
        vec![0, 1, usize::MAX, 2, usize::MAX, usize::MAX, 3]
    );
    assert_eq!(get_byte_to_code_point(""), vec![usize::MAX]);
}

#[test]
fn strings_same_under_all_retention_policies() {
    for policy in [RetentionPolicy::Always, RetentionPolicy::Never, RetentionPolicy::Heuristic] {
        let ac = AhoCorasick::new(
            &spats(&["foo", "bar"]),
            MatchKind::Standard,
            Implementation::DFA,
            policy,
        )
        .unwrap();
        let got = ac.find_matches_as_strings("afoobar", false).unwrap();
        assert_eq!(got, vec!["foo".to_string(), "bar".to_string()]);
    }
}

#[test]
fn heuristic_stops_retaining_after_budget() {
    // The first pattern blows the 4096-byte retention budget, so the second
    // is not retained and its text is sliced back out of the haystack.
    let big = "x".repeat(5000);
    let ac = AhoCorasick::new(
        &vec![big.clone(), "foo".to_string()],
        MatchKind::Standard,
        Implementation::ContiguousNFA,
        RetentionPolicy::Heuristic,
    )
    .unwrap();
    let got = ac.find_matches_as_strings("zfooz", false).unwrap();
    assert_eq!(got, vec!["foo".to_string()]);
}

#[test]
fn multibyte_strings_extracted() {
    let ac = AhoCorasick::new(
        &spats(&["é★", "ba"]),
        MatchKind::Standard,
        Implementation::DFA,
        RetentionPolicy::Never,
    )
    .unwrap();
    let got = ac.find_matches_as_strings("caé★bar", false).unwrap();
    assert_eq!(got, vec!["é★".to_string(), "ba".to_string()]);
}

#[test]
fn leftmost_longest_takes_longest_at_leftmost_start() {
    let ac = AhoCorasick::new(
        &spats(&["a", "ab", "abc"]),
        MatchKind::LeftmostLongest,
        Implementation::DFA,
        RetentionPolicy::Heuristic,
    )
    .unwrap();
    let got = ac.find_matches_as_indexes("abcd", false).unwrap();
    assert_eq!(got, vec![(2, 0, 3)]);
}

#[test]
fn leftmost_first_takes_earliest_registered() {
    let ac = AhoCorasick::new(
        &spats(&["a", "ab", "abc"]),
        MatchKind::LeftmostFirst,
        Implementation::DFA,
        RetentionPolicy::Heuristic,
    )
    .unwrap();
    let got = ac.find_matches_as_indexes("abcd", false).unwrap();
    assert_eq!(got, vec![(0, 0, 1)]);
}

#[test]
fn pattern_lookup_respects_retention() {
    let ac = AhoCorasick::new(
        &spats(&["foo", "bar"]),
        MatchKind::Standard,
        Implementation::DFA,
        RetentionPolicy::Always,
    )
    .unwrap();
    assert_eq!(ac.get_pattern(0), Some("foo".to_string()));
    assert_eq!(ac.get_pattern(1), Some("bar".to_string()));
    assert_eq!(ac.get_pattern(2), None);
    let none = AhoCorasick::new(
        &spats(&["foo"]),
        MatchKind::Standard,
        Implementation::DFA,
        RetentionPolicy::Never,
    )
    .unwrap();
    assert_eq!(none.get_pattern(0), None);
}

#[test]
fn overlapping_text_matches() {
    let ac = AhoCorasick::new(
        &spats(&["he", "hers", "she"]),
        MatchKind::Standard,
        Implementation::DFA,
        RetentionPolicy::Always,
    )
    .unwrap();
    let got = ac.find_matches_as_indexes("ushers", true).unwrap();
    assert_eq!(got, vec![(2, 1, 4), (0, 2, 4), (1, 2, 6)]);
    let strs = ac.find_matches_as_strings("ushers", true).unwrap();
    assert_eq!(strs, vec!["she".to_string(), "he".to_string(), "hers".to_string()]);
}
