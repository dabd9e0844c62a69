use lyrian::model::{LyrianError, LyrianModel};
use lyrian::morphological_analysis::LyrianToken;

fn tok(word: &str, mora: &str, syllable: &str) -> LyrianToken {
    LyrianToken::new(word.to_string(), mora.to_string(), syllable.to_string())
}

fn sumomo_model() -> LyrianModel {
    LyrianModel::from_tokens(vec![
        tok("すもも", "スモモ", "スモモ"),
        tok("も", "モ", "モ"),
        tok("もも", "モモ", "モモ"),
        tok("も", "モ", "モ"),
        tok("もも", "モモ", "モモ"),
        tok("の", "ノ", "ノ"),
        tok("うち", "ウチ", "ウチ"),
    ])
    .expect("the training sequence fits")
}

#[test]
fn round_trip_reproduces_the_model_structure() {
    let model = sumomo_model();
    let text = model.to_json_str();
    let reread = LyrianModel::from_json(&text).expect("own output must decode");

    let n = model.markov.size_exec();
    assert_eq!(reread.markov.size_exec(), n);
    for i in 0..n {
        assert_eq!(reread.markov.token_at(i), model.markov.token_at(i));
        for j in 0..n {
            assert_eq!(reread.markov.count_at(i, j), model.markov.count_at(i, j));
        }
    }
    // One structure has one canonical text.
    assert_eq!(reread.to_json_str(), text);
}

#[test]
fn round_trip_keeps_escaped_characters() {
    let model = LyrianModel::from_tokens(vec![
        tok("a\"b", "\\", "\u{1f}"),
        tok("\n", "\t", "c"),
    ])
    .expect("two tokens fit");
    let text = model.to_json_str();
    let reread = LyrianModel::from_json(&text).expect("own output must decode");
    assert_eq!(reread.markov.token_at(0), model.markov.token_at(0));
    assert_eq!(reread.markov.token_at(1), model.markov.token_at(1));
    assert_eq!(reread.to_json_str(), text);
}

#[test]
fn written_model_is_valid_json() {
    let model = sumomo_model();
    let text = model.to_json_str();
    let value: serde_json::Value = serde_json::from_str(&text).expect("the text is JSON");
    assert_eq!(value["elements"][0]["word"], "すもも");
    assert_eq!(value["elements"][1]["mora"], "モ");
    assert_eq!(value["rows"][1][2], 2);
    assert_eq!(value["elements"].as_array().unwrap().len(), 5);
    assert_eq!(value["rows"].as_array().unwrap().len(), 5);
}

#[test]
fn empty_model_round_trips() {
    let model = LyrianModel::from_tokens(Vec::new()).expect("no tokens fit trivially");
    let text = model.to_json_str();
    assert_eq!(text, "{\"elements\":[],\"rows\":[]}".to_string());
    let reread = LyrianModel::from_json(&text).expect("own output must decode");
    assert_eq!(reread.markov.size_exec(), 0);
}

#[test]
fn malformed_text_is_a_decode_failure() {
    for text in [
        "",
        "garbage",
        "{\"elements\":[",
        "{\"elements\":[],\"rows\":[]",
        "{\"elements\":[],\"rows\":[]} trailing",
        "{ \"elements\":[],\"rows\":[] }",
        "{\"elements\": [],\"rows\":[]}",
        "{\"elements\":[],\"rows\":[[18446744073709551616]]}",
    ] {
        let err = LyrianModel::from_json(text).unwrap_err();
        assert!(matches!(err, LyrianError::ModelDecodeFailed(_)), "{}", text);
    }
}

#[test]
fn mismatched_parts_are_a_decode_failure() {
    // One token but a row of two counts: not a square matrix.
    let text = "{\"elements\":[{\"word\":\"a\",\"mora\":\"a\",\"syllable\":\"a\"}],\"rows\":[[1,2]]}";
    let err = LyrianModel::from_json(text).unwrap_err();
    assert!(matches!(err, LyrianError::ModelDecodeFailed(_)));
    // The same token twice: duplicate states.
    let text = "{\"elements\":[{\"word\":\"a\",\"mora\":\"a\",\"syllable\":\"a\"},{\"word\":\"a\",\"mora\":\"a\",\"syllable\":\"a\"}],\"rows\":[[0,0],[0,0]]}";
    let err = LyrianModel::from_json(text).unwrap_err();
    assert!(matches!(err, LyrianError::ModelDecodeFailed(_)));
}

#[test]
fn decoded_model_generates() {
    let text = sumomo_model().to_json_str();
    let model = LyrianModel::from_json(&text).expect("own output must decode");
    // A lyric of exactly one mora can only be the token "も" or "の".
    if let Ok(lyric) = model.generate_lyric(1, false) {
        assert_eq!(lyric.length(false), 1);
        let word = lyric.join();
        assert!(word == "も" || word == "の", "{}", word);
    }
}
