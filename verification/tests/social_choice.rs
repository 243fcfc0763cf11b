use mechanism_design::social_choice::{
    borda_rule, dictatorial_rule, is_dictatorial, ArrowProperties, Preference, PreferenceProfile,
};

fn make_classic_condorcet_profile() -> PreferenceProfile {
    // Condorcet paradox: a>b>c, b>c>a, c>a>b
    PreferenceProfile::new(
        vec![
            Preference::new("1", vec!["a".into(), "b".into(), "c".into()]),
            Preference::new("2", vec!["b".into(), "c".into(), "a".into()]),
            Preference::new("3", vec!["c".into(), "a".into(), "b".into()]),
        ],
        vec!["a".into(), "b".into(), "c".into()],
    )
}

#[test]
fn test_condorcet_paradox() {
    let profile = make_classic_condorcet_profile();
    // No Condorcet winner in the classic paradox
    assert!(profile.condorcet_winner().is_none());
}

#[test]
fn test_condorcet_winner_exists() {
    let profile = PreferenceProfile::new(
        vec![
            Preference::new("1", vec!["a".into(), "b".into(), "c".into()]),
            Preference::new("2", vec!["a".into(), "c".into(), "b".into()]),
            Preference::new("3", vec!["b".into(), "a".into(), "c".into()]),
        ],
        vec!["a".into(), "b".into(), "c".into()],
    );
    assert_eq!(profile.condorcet_winner(), Some("a".into()));
}

#[test]
fn test_borda_count() {
    let profile = make_classic_condorcet_profile();
    let scores = profile.borda_count();
    // m=3, points = m-1-rank = 2-rank
    // agent1: a→2, b→1, c→0
    // agent2: b→2, c→1, a→0
    // agent3: c→2, a→1, b→0
    // totals: a=3, b=3, c=3 — all tied (symmetric!)
    assert_eq!(scores.get("a"), Some(3));
    assert_eq!(scores.get("b"), Some(3));
    assert_eq!(scores.get("c"), Some(3));
}

#[test]
fn test_borda_winner_clear() {
    let profile = PreferenceProfile::new(
        vec![
            Preference::new("1", vec!["a".into(), "b".into(), "c".into()]),
            Preference::new("2", vec!["a".into(), "c".into(), "b".into()]),
        ],
        vec!["a".into(), "b".into(), "c".into()],
    );
    assert_eq!(profile.borda_winner(), Some("a".into()));
}

#[test]
fn test_approval_voting() {
    let approvals: Vec<(String, Vec<String>)> = vec![
        ("1".into(), vec!["a".into(), "b".into()]),
        ("2".into(), vec!["a".into(), "c".into()]),
        ("3".into(), vec!["b".into()]),
    ];
    let alts: Vec<String> = vec!["a".into(), "b".into(), "c".into()];
    let counts = PreferenceProfile::approval_vote(&approvals, &alts);
    assert_eq!(counts.get("a"), Some(2));
    assert_eq!(counts.get("b"), Some(2));
    assert_eq!(counts.get("c"), Some(1));
}

#[test]
fn test_arrow_impossibility() {
    // Dictatorial rule: unanimity + IIA but NOT non-dictatorial
    let props = ArrowProperties {
        unanimity: true,
        iia: true,
        non_dictatorial: false,
    };
    assert!(props.theorem_holds());
    assert!(!props.all_satisfied());
}

#[test]
fn test_arrow_all_three_impossible() {
    let props = ArrowProperties {
        unanimity: true,
        iia: true,
        non_dictatorial: true,
    };
    // Arrow says this shouldn't happen with ≥3 alternatives
    assert!(props.all_satisfied());
    assert!(!props.theorem_holds());
}

#[test]
fn test_preference_prefers() {
    let p = Preference::new("agent", vec!["x".into(), "y".into(), "z".into()]);
    assert!(p.prefers("x", "y"));
    assert!(!p.prefers("y", "x"));
    assert!(p.prefers("x", "z"));
}

#[test]
fn test_pairwise_count() {
    let profile = PreferenceProfile::new(
        vec![
            Preference::new("1", vec!["a".into(), "b".into()]),
            Preference::new("2", vec!["a".into(), "b".into()]),
            Preference::new("3", vec!["b".into(), "a".into()]),
        ],
        vec!["a".into(), "b".into()],
    );
    assert_eq!(profile.pairwise_count("a", "b"), 2);
    assert_eq!(profile.pairwise_count("b", "a"), 1);
}

#[test]
fn test_dictatorial_rule() {
    let profile = PreferenceProfile::new(
        vec![
            Preference::new("1", vec!["a".into(), "b".into()]),
            Preference::new("2", vec!["b".into(), "a".into()]),
        ],
        vec!["a".into(), "b".into()],
    );
    let result = dictatorial_rule(&profile);
    assert_eq!(result, vec!["a", "b"]);
}

#[test]
fn test_borda_rule_produces_ranking() {
    let profile = PreferenceProfile::new(
        vec![
            Preference::new("1", vec!["a".into(), "b".into(), "c".into()]),
            Preference::new("2", vec!["a".into(), "b".into(), "c".into()]),
            Preference::new("3", vec!["c".into(), "a".into(), "b".into()]),
        ],
        vec!["a".into(), "b".into(), "c".into()],
    );
    let ranking = borda_rule(&profile);
    assert_eq!(ranking[0], "a"); // a has highest Borda score
}

#[test]
fn test_is_dictatorial_true() {
    let profile = PreferenceProfile::new(
        vec![
            Preference::new("1", vec!["a".into(), "b".into()]),
            Preference::new("2", vec!["b".into(), "a".into()]),
        ],
        vec!["a".into(), "b".into()],
    );
    assert!(is_dictatorial(dictatorial_rule, &[profile]));
}

#[test]
fn test_is_dictatorial_false() {
    // Borda rule with a profile where agent 0 doesn't determine the outcome
    let profile = PreferenceProfile::new(
        vec![
            Preference::new("1", vec!["c".into(), "a".into(), "b".into()]),
            Preference::new("2", vec!["a".into(), "b".into(), "c".into()]),
            Preference::new("3", vec!["a".into(), "b".into(), "c".into()]),
        ],
        vec!["a".into(), "b".into(), "c".into()],
    );
    // Agent 0 prefers c, but Borda gives a the highest score
    assert!(!is_dictatorial(borda_rule, &[profile]));
}

#[test]
fn test_preference_rank_of() {
    let p = Preference::new(
        "agent",
        vec!["first".into(), "second".into(), "third".into()],
    );
    assert_eq!(p.rank_of("first"), Some(0));
    assert_eq!(p.rank_of("second"), Some(1));
    assert_eq!(p.rank_of("third"), Some(2));
    assert_eq!(p.rank_of("nonexistent"), None);
}

#[test]
fn test_num_agents_and_alternatives() {
    let profile = PreferenceProfile::new(
        vec![
            Preference::new("1", vec!["a".into(), "b".into()]),
            Preference::new("2", vec!["b".into(), "a".into()]),
            Preference::new("3", vec!["a".into(), "b".into()]),
        ],
        vec!["a".into(), "b".into()],
    );
    assert_eq!(profile.num_agents(), 3);
    assert_eq!(profile.num_alternatives(), 2);
}

#[test]
fn test_unanimous_preference() {
    let profile = PreferenceProfile::new(
        vec![
            Preference::new("1", vec!["a".into(), "b".into(), "c".into()]),
            Preference::new("2", vec!["a".into(), "b".into(), "c".into()]),
        ],
        vec!["a".into(), "b".into(), "c".into()],
    );
    assert_eq!(profile.condorcet_winner(), Some("a".into()));
    assert_eq!(profile.borda_winner(), Some("a".into()));
}
