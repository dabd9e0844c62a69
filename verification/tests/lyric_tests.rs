use lyrian::lyric::Lyric;
use lyrian::morphological_analysis::LyrianToken;

#[test]
fn join_words_of_tokens() {
    let tokens = vec![
        LyrianToken::new(
            "大きな".to_string(),
            "オオキナ".to_string(),
            "オーキナ".to_string(),
        ),
        LyrianToken::new("、".to_string(), "、".to_string(), "、".to_string()),
        LyrianToken::new("空".to_string(), "ソラ".to_string(), "ソラ".to_string()),
    ];
    let lyric = Lyric::new(tokens);
    assert_eq!(lyric.join(), "大きな空".to_string())
}

#[test]
fn lyric_length_sums_token_lengths() {
    let tokens = vec![
        LyrianToken::new(
            "大きな".to_string(),
            "オオキナ".to_string(),
            "オーキナ".to_string(),
        ),
        LyrianToken::new("空".to_string(), "ソラ".to_string(), "ソラ".to_string()),
    ];
    let lyric = Lyric::new(tokens);
    assert_eq!(lyric.length(false), 6);
    assert_eq!(lyric.length(true), 5);
}

#[test]
fn add_token_extends_the_lyric() {
    let mut lyric = Lyric::new(Vec::new());
    assert_eq!(lyric.length(false), 0);
    assert_eq!(lyric.join(), "".to_string());
    lyric.add_token(LyrianToken::new(
        "空".to_string(),
        "ソラ".to_string(),
        "ソラ".to_string(),
    ));
    assert_eq!(lyric.length(false), 2);
    assert_eq!(lyric.join(), "空".to_string());
}
