use rs_gigatoken::{MatcherError, SubstringMatcher};

#[test]
fn matcher_is_leftmost_longest() {
    let matcher = SubstringMatcher::new(&[b"<a>".as_slice(), b"<ab>".as_slice()]).unwrap();
    assert_eq!(matcher.find(b"x<ab>y"), Some((1, 1, 5)));
}

#[test]
fn substring_matcher_exposes_zero_overhead_helpers() {
    let matcher =
        rs_gigatoken::SubstringMatcher::new(&[b"<tool>".as_slice(), b"<tool_result>".as_slice()])
            .expect("matcher should compile");

    assert!(matcher.contains(b"a <tool_result> b"));
    assert_eq!(matcher.find(b"a <tool_result> b"), Some((1, 2, 15)));
    assert_eq!(
        matcher.find_all(b"<tool> <tool>"),
        vec![(0, 0, 6), (0, 7, 13)]
    );
}

#[test]
fn empty_pattern_is_rejected() {
    let result = SubstringMatcher::new(&[b"x".as_slice(), b"".as_slice()]);
    assert!(matches!(result, Err(MatcherError::EmptyPattern)));
}

#[test]
fn no_match_is_reported() {
    let matcher = SubstringMatcher::new(&[b"abc".as_slice()]).unwrap();
    assert!(!matcher.contains(b"ab ab bc"));
    assert_eq!(matcher.find(b"ab ab bc"), None);
    assert!(matcher.find_all(b"ab ab bc").is_empty());
}

#[test]
fn matches_do_not_overlap() {
    let matcher = SubstringMatcher::new(&[b"aa".as_slice()]).unwrap();
    assert_eq!(matcher.find_all(b"aaaaa"), vec![(0, 0, 2), (0, 2, 4)]);
    assert_eq!(matcher.find_iter(b"aaaaa"), matcher.find_all(b"aaaaa"));
}

#[test]
fn leftmost_match_wins_over_longer_later_match() {
    let matcher = SubstringMatcher::new(&[b"bcde".as_slice(), b"ab".as_slice()]).unwrap();
    assert_eq!(matcher.find(b"abcde"), Some((1, 0, 2)));
    assert_eq!(matcher.find_all(b"abcde"), vec![(1, 0, 2)]);
}

#[test]
fn duplicate_patterns_search_consistently() {
    let matcher = SubstringMatcher::new(&[b"ab".as_slice(), b"ab".as_slice(), b"b".as_slice()]).unwrap();
    let all = matcher.find_all(b"xabyab");
    assert_eq!(all.len(), 2);
    assert_eq!(matcher.find(b"xabyab"), Some(all[0]));
    assert_eq!(matcher.find_iter(b"xabyab"), all);
    assert_eq!(matcher.find_all(b"xabyab"), all);
    assert_eq!((all[0].1, all[0].2, all[1].1, all[1].2), (1, 3, 4, 6));
    assert!(all[0].0 < 2 && all[1].0 < 2);
}

#[test]
fn small_pattern_sets_always_build() {
    let patterns: Vec<Vec<u8>> = (0..100u8).map(|i| vec![i + 1; 100]).collect();
    let slices: Vec<&[u8]> = patterns.iter().map(|p| p.as_slice()).collect();
    let matcher = SubstringMatcher::new(&slices).unwrap();
    let mut haystack = vec![0u8];
    haystack.extend_from_slice(&[42u8; 100]);
    assert_eq!(matcher.find(&haystack), Some((41, 1, 101)));
}

#[test]
fn empty_pattern_error_describes_itself() {
    let error = SubstringMatcher::new(&[b"".as_slice()]).err().unwrap();
    assert_eq!(error.message(), "empty matcher patterns are not supported");
}
