use lyrian::morphological_analysis::{token_from_analysis, LyrianToken};

#[test]
fn get_word_length_on_mora() {
    let token = LyrianToken::new(
        "大空".to_string(),
        "オオゾラ".to_string(),
        "オーゾラ".to_string(),
    );
    assert_eq!(token.length(false), 4)
}

#[test]
fn get_word_length_on_syllable() {
    let token = LyrianToken::new(
        "大空".to_string(),
        "オオゾラ".to_string(),
        "オーゾラ".to_string(),
    );
    assert_eq!(token.length(true), 3)
}

#[test]
fn get_length_of_word_that_has_lower_case() {
    let token = LyrianToken::new(
        "ラミィ".to_string(),
        "ラミィ".to_string(),
        "ラミィ".to_string(),
    );
    assert_eq!(token.length(false), 2)
}

#[test]
fn get_symbol_length() {
    let token = LyrianToken::new("。".to_string(), "。".to_string(), "。".to_string());
    assert_eq!(token.length(false), 0)
}

#[test]
fn unknown_reading_counts_zero() {
    let token = LyrianToken::new(
        "謎".to_string(),
        "unknown".to_string(),
        "unknown".to_string(),
    );
    assert_eq!(token.length(false), 0);
    assert_eq!(token.length(true), 0);
}

#[test]
fn sentinel_token_is_empty_and_weightless() {
    let token = LyrianToken::empty();
    assert_eq!(token.word, "".to_string());
    assert_eq!(token.length(false), 0);
    assert_eq!(token.length(true), 0);
}

#[test]
fn token_from_analysis_reads_detail_fields() {
    let detail: Vec<String> = vec![
        "名詞".to_string(),
        "一般".to_string(),
        "*".to_string(),
        "*".to_string(),
        "*".to_string(),
        "*".to_string(),
        "大空".to_string(),
        "オオゾラ".to_string(),
        "オーゾラ".to_string(),
    ];
    let token = token_from_analysis("大空".to_string(), &detail);
    assert_eq!(token.word, "大空".to_string());
    assert_eq!(token.mora, "オオゾラ".to_string());
    assert_eq!(token.syllable, "オーゾラ".to_string());
}

#[test]
fn token_from_analysis_unknown_for_bare_detail() {
    let detail: Vec<String> = vec!["記号".to_string()];
    let token = token_from_analysis("?".to_string(), &detail);
    assert_eq!(token.word, "?".to_string());
    assert_eq!(token.mora, "unknown".to_string());
    assert_eq!(token.syllable, "unknown".to_string());
}

#[test]
fn syllables_at_most_morae_for_shared_reading() {
    // With one and the same reading free of combining kana and symbols,
    // the syllable count can only drop below the mora count.
    let token = LyrianToken::new(
        "大空".to_string(),
        "オーゾラ".to_string(),
        "オーゾラ".to_string(),
    );
    assert!(token.length(true) <= token.length(false));
    assert_eq!(token.length(false), 4);
    assert_eq!(token.length(true), 3);
}
