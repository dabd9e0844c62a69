use lyrian::model::{LyrianError, LyrianModel};
use lyrian::morphological_analysis::LyrianToken;

fn tok(word: &str, mora: &str, syllable: &str) -> LyrianToken {
    LyrianToken::new(word.to_string(), mora.to_string(), syllable.to_string())
}

#[test]
fn generated_lyric_hits_the_exact_length() {
    // "ア" is always followed by "イ", so every walk emits "イ" tokens of
    // mora length one: a target of 2 must be hit exactly.
    let model = LyrianModel::from_tokens(vec![tok("ア", "ア", "ア"), tok("イ", "イ", "イ")])
        .expect("two tokens fit");
    let lyric = model.generate_lyric(2, false).expect("the chain is certain");
    assert_eq!(lyric.length(false), 2);
    assert_eq!(lyric.join(), "イイ".to_string());
}

#[test]
fn generated_lyric_hits_length_under_syllable_metric() {
    let model = LyrianModel::from_tokens(vec![
        tok("大空", "オオゾラ", "オーゾラ"),
        tok("大空", "オオゾラ", "オーゾラ"),
    ])
    .expect("two tokens fit");
    // Each drawn token counts 3 syllables; a target of 6 takes two tokens.
    let lyric = model.generate_lyric(6, true).expect("the chain is certain");
    assert_eq!(lyric.length(true), 6);
    assert_eq!(lyric.length(false), 8);
}

#[test]
fn zero_length_is_an_invalid_query() {
    let model = LyrianModel::from_tokens(vec![tok("ア", "ア", "ア"), tok("イ", "イ", "イ")])
        .expect("two tokens fit");
    let err = model.generate_lyric(0, false).unwrap_err();
    assert!(matches!(err, LyrianError::InvalidQuery));
}

#[test]
fn generation_on_a_model_without_pairs_is_exhausted() {
    let model = LyrianModel::from_tokens(vec![tok("ア", "ア", "ア")]).expect("one token fits");
    let err = model.generate_lyric(3, false).unwrap_err();
    assert!(matches!(err, LyrianError::GenerationExhausted));
}

#[test]
fn unreachable_length_exhausts_the_budget() {
    // Every token counts two units, so an odd target can never be hit and
    // the bounded retry budget must run out rather than loop forever.
    let model = LyrianModel::from_tokens(vec![
        tok("もも", "モモ", "モモ"),
        tok("もも", "モモ", "モモ"),
    ])
    .expect("two tokens fit");
    let err = model.generate_lyric(3, false).unwrap_err();
    assert!(matches!(err, LyrianError::GenerationExhausted));
}

#[test]
fn error_messages_name_the_failure() {
    let model = LyrianModel::from_tokens(vec![tok("ア", "ア", "ア")]).expect("one token fits");
    let err = model.generate_lyric(0, false).unwrap_err();
    assert_eq!(err.message(), "the requested length must be positive".to_string());
    let err = model.generate_lyric(5, false).unwrap_err();
    assert_eq!(
        err.message(),
        "could not generate a lyric in given arguments".to_string()
    );
}
