use mechanism_design::social_choice::{
    borda_rule, dictatorial_rule, is_dictatorial, ArrowProperties, Preference, PreferenceProfile,
};

fn strs(v: &[&str]) -> Vec<String> {
    v.iter().map(|s| s.to_string()).collect()
}

fn profile(ballots: &[&[&str]], alts: &[&str]) -> PreferenceProfile {
    let prefs = ballots
        .iter()
        .enumerate()
        .map(|(i, b)| Preference::new(&i.to_string(), strs(b)))
        .collect();
    PreferenceProfile::new(prefs, strs(alts))
}

#[test]
fn preference_new_keeps_fields() {
    let p = Preference::new("alice", strs(&["x", "y"]));
    assert_eq!(p.agent, "alice");
    assert_eq!(p.rankings, vec!["x", "y"]);
}

#[test]
fn rank_of_is_first_position() {
    let p = Preference::new("a", strs(&["x", "y", "x"]));
    assert_eq!(p.rank_of("x"), Some(0));
    assert_eq!(p.rank_of("y"), Some(1));
}

#[test]
fn prefers_is_irreflexive_and_asymmetric() {
    let p = Preference::new("a", strs(&["x", "y", "z"]));
    assert!(!p.prefers("x", "x"));
    assert!(p.prefers("y", "z"));
    assert!(!p.prefers("z", "y"));
}

#[test]
fn prefers_is_transitive() {
    let p = Preference::new("a", strs(&["x", "y", "z"]));
    assert!(p.prefers("x", "y") && p.prefers("y", "z"));
    assert!(p.prefers("x", "z"));
}

#[test]
fn prefers_needs_both_ranked() {
    let p = Preference::new("a", strs(&["x", "y"]));
    assert!(!p.prefers("x", "w"));
    assert!(!p.prefers("w", "x"));
}

#[test]
fn pairwise_counts_add_up_to_agents_when_all_rank_both() {
    let prof = profile(&[&["a", "b"], &["b", "a"], &["a", "b"], &["b", "a"]], &["a", "b"]);
    assert_eq!(prof.pairwise_count("a", "b") + prof.pairwise_count("b", "a"), 4);
}

#[test]
fn pairwise_counts_never_exceed_agents() {
    let prof = profile(&[&["a"], &["b", "a"], &["a", "b"]], &["a", "b"]);
    assert_eq!(prof.pairwise_count("a", "b"), 1);
    assert_eq!(prof.pairwise_count("b", "a"), 1);
    assert!(prof.pairwise_count("a", "b") + prof.pairwise_count("b", "a") <= 3);
}

#[test]
fn condorcet_needs_strict_majority() {
    // Two agents split: neither alternative wins more than half.
    let prof = profile(&[&["a", "b"], &["b", "a"]], &["a", "b"]);
    assert!(!prof.is_condorcet_winner("a"));
    assert!(!prof.is_condorcet_winner("b"));
    assert_eq!(prof.condorcet_winner(), None);
}

#[test]
fn condorcet_winner_is_unique() {
    let prof = profile(&[&["b", "a", "c"], &["b", "c", "a"], &["a", "b", "c"]], &["a", "b", "c"]);
    assert!(prof.is_condorcet_winner("b"));
    assert!(!prof.is_condorcet_winner("a"));
    assert!(!prof.is_condorcet_winner("c"));
    assert_eq!(prof.condorcet_winner(), Some("b".to_string()));
}

#[test]
fn unanimous_top_is_condorcet_winner() {
    let prof = profile(&[&["c", "a", "b"], &["c", "b", "a"], &["c", "a", "b"]], &["a", "b", "c"]);
    assert_eq!(prof.condorcet_winner(), Some("c".to_string()));
}

#[test]
fn condorcet_with_no_agents() {
    let prof = profile(&[], &["a", "b"]);
    // 0 > 0 / 2 fails against every other alternative, so no one wins;
    // a lone alternative has no one to beat.
    assert!(!prof.is_condorcet_winner("a"));
    let single = profile(&[], &["a"]);
    assert_eq!(single.condorcet_winner(), Some("a".to_string()));
}

#[test]
fn borda_scores_exact() {
    let prof = profile(&[&["a", "b", "c"], &["b", "a", "c"]], &["a", "b", "c"]);
    let scores = prof.borda_count();
    assert_eq!(scores.len(), 3);
    assert_eq!(scores.get("a"), Some(3));
    assert_eq!(scores.get("b"), Some(3));
    assert_eq!(scores.get("c"), Some(0));
    assert_eq!(scores.get("d"), None);
}

#[test]
fn borda_count_ignores_unknown_names_and_merges_duplicate_alternatives() {
    let prof = profile(&[&["zz", "a", "b"]], &["a", "b", "a"]);
    let scores = prof.borda_count();
    assert_eq!(scores.len(), 2);
    // m = 3: position 1 gives 1 point, position 2 gives 0.
    assert_eq!(scores.get("a"), Some(1));
    assert_eq!(scores.get("b"), Some(0));
    assert_eq!(scores.get("zz"), None);
}

#[test]
fn borda_count_empty_profile() {
    let prof = profile(&[], &[]);
    let scores = prof.borda_count();
    assert!(scores.is_empty());
    assert_eq!(prof.borda_winner(), None);
}

#[test]
fn borda_winner_has_top_score() {
    let prof = profile(&[&["b", "c", "a"], &["c", "b", "a"], &["b", "a", "c"]], &["a", "b", "c"]);
    // a = 0 + 0 + 1, b = 2 + 1 + 2, c = 1 + 2 + 0
    assert_eq!(prof.borda_winner(), Some("b".to_string()));
}

#[test]
fn borda_rule_orders_by_descending_score() {
    let prof = profile(&[&["b", "c", "a"], &["c", "b", "a"], &["b", "a", "c"]], &["a", "b", "c"]);
    assert_eq!(borda_rule(&prof), vec!["b", "c", "a"]);
}

#[test]
fn borda_rule_keeps_ties_in_alternative_order() {
    let prof = profile(
        &[&["a", "b", "c"], &["b", "c", "a"], &["c", "a", "b"]],
        &["c", "a", "b"],
    );
    // All three score 3: the order of `alternatives` is kept.
    assert_eq!(borda_rule(&prof), vec!["c", "a", "b"]);
}

#[test]
fn borda_rule_first_is_borda_winner() {
    let prof = profile(&[&["a", "c", "b"], &["c", "a", "b"], &["c", "b", "a"]], &["a", "b", "c"]);
    let ranking = borda_rule(&prof);
    assert_eq!(Some(ranking[0].clone()), prof.borda_winner());
    assert_eq!(ranking.len(), 3);
}

#[test]
fn approval_counts_every_listing() {
    let approvals: Vec<(String, Vec<String>)> = vec![
        ("1".into(), strs(&["a", "a", "x"])),
        ("2".into(), strs(&["b"])),
    ];
    let counts = PreferenceProfile::approval_vote(&approvals, &strs(&["a", "b", "c"]));
    assert_eq!(counts.len(), 3);
    assert_eq!(counts.get("a"), Some(2));
    assert_eq!(counts.get("b"), Some(1));
    assert_eq!(counts.get("c"), Some(0));
    assert_eq!(counts.get("x"), None);
}

#[test]
fn approval_with_no_voters() {
    let approvals: Vec<(String, Vec<String>)> = Vec::new();
    let counts = PreferenceProfile::approval_vote(&approvals, &strs(&["a"]));
    assert_eq!(counts.get("a"), Some(0));
}

#[test]
fn dictatorial_rule_without_agents_is_empty() {
    let prof = profile(&[], &["a"]);
    assert!(dictatorial_rule(&prof).is_empty());
}

#[test]
fn is_dictatorial_needs_profiles_and_agents() {
    assert!(!is_dictatorial(dictatorial_rule, &[]));
    let empty = profile(&[], &["a"]);
    assert!(!is_dictatorial(dictatorial_rule, &[empty]));
}

#[test]
fn dictatorial_rule_is_dictatorial_on_every_profile() {
    let p1 = profile(&[&["b", "a"], &["a", "b"]], &["a", "b"]);
    let p2 = make_three();
    assert!(is_dictatorial(dictatorial_rule, &[p1, p2]));
}

fn make_three() -> PreferenceProfile {
    profile(&[&["c", "b", "a"], &["a", "b", "c"]], &["a", "b", "c"])
}

#[test]
fn arrow_theorem_holds_is_negation() {
    for bits in 0..8u8 {
        let props = ArrowProperties {
            unanimity: bits & 1 != 0,
            iia: bits & 2 != 0,
            non_dictatorial: bits & 4 != 0,
        };
        assert_eq!(props.theorem_holds(), !props.all_satisfied());
        assert_eq!(props.all_satisfied(), bits == 7);
    }
}
