use rust_solver::range_parse::expand_ppt_range;

#[test]
fn expand_suited_range() {
    let s = expand_ppt_range("A5s-A4s");
    assert_eq!(s, "A5s,A4s");
}

#[test]
fn expand_pairs_run_down() {
    assert_eq!(expand_ppt_range("QQ-99"), "QQ,JJ,TT,99");
    let s = expand_ppt_range("QQ-22");
    assert!(s.contains("QQ") && s.contains("22") && s.contains("JJ"));
    assert_eq!(s.split(',').count(), 11);
}

#[test]
fn expand_offsuit_and_lower_case() {
    assert_eq!(expand_ppt_range("k9o-k7o"), "K9o,K8o,K7o");
}

#[test]
fn tokens_without_hyphen_are_trimmed_and_kept() {
    assert_eq!(expand_ppt_range(" 66+ , A8s+ ,,AJo+"), "66+,A8s+,AJo+");
    assert_eq!(expand_ppt_range(""), "");
}

#[test]
fn mixed_range_keeps_order() {
    assert_eq!(expand_ppt_range("66+,A8s+,A5s-A4s,AJo+"), "66+,A8s+,A5s,A4s,AJo+");
}

#[test]
fn malformed_runs_are_kept() {
    // low end above high end, mismatched suffixes, unknown ranks
    assert_eq!(expand_ppt_range("22-QQ"), "22-QQ");
    assert_eq!(expand_ppt_range("A5s-A4o"), "A5s-A4o");
    assert_eq!(expand_ppt_range("XX-YY"), "XX-YY");
    assert_eq!(expand_ppt_range("A-K"), "A-K");
}

#[test]
fn expand_pair_range() {
    let s = expand_ppt_range("QQ-22");
    assert!(s.contains("QQ") && s.contains("22") && s.contains("JJ"));
}

#[test]
fn expand_mixed_range_string() {
    let s = expand_ppt_range("A5s-A4s");
    assert_eq!(s, "A5s,A4s");
    let full = expand_ppt_range("66+,A8s+,A5s-A4s,AJo+");
    assert!(full.contains("A5s") && full.contains("A4s"));
}

#[test]
fn expansion_leaves_no_empty_token() {
    for input in [",,KK-QQ, ,A3s-A2s,", " , ", "QQ-JJ,,AKo", "AA"] {
        let s = expand_ppt_range(input);
        assert!(!s.starts_with(','), "{s}");
        assert!(!s.ends_with(','), "{s}");
        assert!(!s.contains(",,"), "{s}");
        assert!(s.split(',').all(|t| !s.is_empty() == !t.is_empty()));
    }
    assert_eq!(expand_ppt_range(",,KK-QQ, ,A3s-A2s,"), "KK,QQ,A3s,A2s");
}

#[test]
fn expanding_twice_changes_nothing() {
    for input in ["66+,A8s+,A5s-A4s,AJo+", "QQ-TT", "22-QQ", " 55 ,, K9s-K7s"] {
        let once = expand_ppt_range(input);
        assert_eq!(expand_ppt_range(&once), once);
    }
}
