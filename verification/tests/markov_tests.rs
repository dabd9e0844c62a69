use lyrian::markov::MarkovModel;
use lyrian::morphological_analysis::LyrianToken;

fn tok(word: &str, mora: &str, syllable: &str) -> LyrianToken {
    LyrianToken::new(word.to_string(), mora.to_string(), syllable.to_string())
}

fn sumomo_tokens() -> Vec<LyrianToken> {
    vec![
        tok("すもも", "スモモ", "スモモ"),
        tok("も", "モ", "モ"),
        tok("もも", "モモ", "モモ"),
        tok("も", "モ", "モ"),
        tok("もも", "モモ", "モモ"),
        tok("の", "ノ", "ノ"),
        tok("うち", "ウチ", "ウチ"),
    ]
}

#[test]
fn make_markov_model() {
    let model = MarkovModel::from(sumomo_tokens());

    // The distinct tokens, in order of first appearance.
    assert_eq!(model.size_exec(), 5);
    let words: Vec<String> = (0..5).map(|i| model.token_at(i).word.clone()).collect();
    assert_eq!(
        words,
        vec![
            "すもも".to_string(),
            "も".to_string(),
            "もも".to_string(),
            "の".to_string(),
            "うち".to_string()
        ]
    );

    // The pair counts: each count is the number of adjacent occurrences.
    let expected = [
        [0, 1, 0, 0, 0], // すもも -> も
        [0, 0, 2, 0, 0], // も -> もも, twice
        [0, 1, 0, 1, 0], // もも -> も and もも -> の
        [0, 0, 0, 0, 1], // の -> うち
        [0, 0, 0, 0, 0], // うち ends the sequence
    ];
    for i in 0..5 {
        for j in 0..5 {
            assert_eq!(model.count_at(i, j), expected[i][j], "count at ({}, {})", i, j);
        }
    }
}

#[test]
fn state_distribution_matches_manual_fractions() {
    let model = MarkovModel::from(sumomo_tokens());
    // State "も" transitioned to "もも" both observed times: 2 of 2.
    let row_total: u32 = (0..5).map(|j| model.count_at(1, j)).sum();
    assert_eq!(row_total, 2);
    assert_eq!(model.count_at(1, 2) as f64 / row_total as f64, 1.0);
    // State "もも" split its two observations between "も" and "の".
    let row_total: u32 = (0..5).map(|j| model.count_at(2, j)).sum();
    assert_eq!(row_total, 2);
    assert_eq!(model.count_at(2, 1) as f64 / row_total as f64, 0.5);
    assert_eq!(model.count_at(2, 3) as f64 / row_total as f64, 0.5);
}

#[test]
fn next_follows_a_certain_transition() {
    let model = MarkovModel::from(sumomo_tokens());
    // From state "も" every observed successor is "もも".
    for _ in 0..50 {
        let (j, token) = model.next(Some(1)).expect("the model has successors");
        assert_eq!(j, 2);
        assert_eq!(token.word, "もも".to_string());
    }
}

#[test]
fn next_reseeds_from_a_blocked_state() {
    let model = MarkovModel::from(sumomo_tokens());
    // State "うち" has no successor; the walk reseeds and still draws.
    for _ in 0..50 {
        assert!(model.next(Some(4)).is_some());
    }
}

#[test]
fn next_on_a_model_without_pairs_is_none() {
    let single = MarkovModel::from(vec![tok("ア", "ア", "ア")]);
    assert!(single.next(None).is_none());
    let empty = MarkovModel::from(Vec::new());
    assert!(empty.next(None).is_none());
}

#[test]
fn duplicate_tokens_share_one_state() {
    let model = MarkovModel::from(vec![
        tok("も", "モ", "モ"),
        tok("も", "モ", "モ"),
        tok("も", "モ", "モ"),
    ]);
    assert_eq!(model.size_exec(), 1);
    assert_eq!(model.count_at(0, 0), 2);
}
