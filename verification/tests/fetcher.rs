use base64::{engine::general_purpose, Engine as _};
use squaredle_cli::fetcher::extract_grid_and_words_from_js;

const CHAR_MAP: &str = "5pyf0gcrl1a9oe3ui8d2htn67sqjkxbmw4vzPYFGCRLAOEUIDHTNSQJKXBMWVZ";

fn encode_mock(plain: &str) -> String {
    let chars: Vec<u8> = CHAR_MAP.bytes().collect();
    let len = chars.len();
    let mut table = [0u8; 128];
    for i in 0..128u8 {
        table[i as usize] = i;
    }
    for (idx, &ch) in chars.iter().enumerate() {
        table[ch as usize] = chars[(idx + 12) % len];
    }
    let b64 = general_purpose::STANDARD.encode(plain);
    b64.chars()
        .map(|c| if c.is_ascii() { table[c as usize] as char } else { c })
        .collect()
}

#[test]
fn test_extract_grid_no_words() {
    let js = r#"
        const gTodayDateStr = '2026/02/25';
        const config = {
            "2026\/02\/25": { "board": ["yes", "yes"] }
        }
    "#;
    let result = extract_grid_and_words_from_js(js).unwrap();
    assert_eq!(result.grid, "yes-yes");
    assert!(result.words.is_empty());
}

#[test]
fn test_extract_fallback() {
    let js = r#"
        "board": ["a", "b"]
    "#;
    let result = extract_grid_and_words_from_js(js).unwrap();
    assert_eq!(result.grid, "a-b");
}

#[test]
fn test_missing_puzzle_key() {
    let js = "const something_else = true;";
    let err = extract_grid_and_words_from_js(js).unwrap_err();
    assert_eq!(err.message(), "Could not locate puzzle key in response");
}

#[test]
fn test_missing_board_array() {
    let js = r#"
        const gTodayDateStr = '2026/02/25';
        const config = {
            "2026\/02\/25": { "not_board": ["yes", "yes"] }
        }
    "#;
    let err = extract_grid_and_words_from_js(js).unwrap_err();
    assert_eq!(err.message(), "Could not locate board array in response");
}

#[test]
fn test_empty_rows_extracted() {
    let js = r#"
        "board": ["board"]
    "#;
    let err = extract_grid_and_words_from_js(js).unwrap_err();
    assert_eq!(err.message(), "Board array found but no rows extracted");
}

#[test]
fn test_optional_word_scores() {
    let enc1 = encode_mock("rust");
    let enc2 = encode_mock("cli");
    let js = format!(
        r#"
        "board": ["abcd", "efgh"],
        "wordScores": "{}",
        "optionalWordScores": "{}"
    "#,
        enc1, enc2
    );

    let result = extract_grid_and_words_from_js(&js).unwrap();
    assert_eq!(result.grid, "abcd-efgh");
    assert_eq!(result.words.len(), 2);
    assert!(result.words.contains(&"rust".to_string()));
    assert!(result.words.contains(&"cli".to_string()));
}

#[test]
fn test_multi_date_selects_correct() {
    let enc_today = encode_mock("today_word");
    let enc_other = encode_mock("other_word");
    let js = format!(
        r#"
        const gTodayDateStr = '2026/02/25';
        const config = {{
            "2026\/02\/24": {{
                "board": ["xx", "yy"],
                "wordScores": "{}"
            }},
            "2026\/02\/25": {{
                "board": ["ab", "cd"],
                "wordScores": "{}"
            }},
            "2026\/02\/26": {{
                "board": ["mm", "nn"],
                "wordScores": "{}"
            }}
        }};
        "#,
        enc_other, enc_today, enc_other
    );
    let data = extract_grid_and_words_from_js(&js).unwrap();
    assert_eq!(data.grid, "ab-cd");
    assert!(data.words.contains(&"today_word".to_string()));
    assert!(!data.words.contains(&"other_word".to_string()));
}

#[test]
fn test_date_formatting_in_output() {
    let js = r#"
        const gTodayDateStr = '2026/02/25';
        const config = {
            "2026\/02\/25": { "board": ["ab", "cd"] }
        }
    "#;
    let data = extract_grid_and_words_from_js(js).unwrap();
    assert_eq!(data.date, "2026-02-25");
}

#[test]
fn test_non_square_grid() {
    let js = r#"
        "board": ["abc", "de", "fghi"]
    "#;
    let data = extract_grid_and_words_from_js(js).unwrap();
    assert_eq!(data.grid, "abc-de-fghi");
}

#[test]
fn test_whitespace_variations() {
    let js = "\"board\":  \n  [  \"abc\"  ,  \n  \"def\"  ]  ";
    let data = extract_grid_and_words_from_js(js).unwrap();
    assert_eq!(data.grid, "abc-def");
}

#[test]
fn test_word_scores_only() {
    let enc = encode_mock("alpha,bravo");
    let js = format!(
        r#"
        "board": ["ab", "cd"],
        "wordScores": "{}"
    "#,
        enc
    );
    let data = extract_grid_and_words_from_js(&js).unwrap();
    assert_eq!(data.words, vec!["alpha", "bravo"]);
}

#[test]
fn test_optional_scores_only() {
    let enc = encode_mock("gamma,delta");
    let js = format!(
        r#"
        "board": ["ab", "cd"],
        "optionalWordScores": "{}"
    "#,
        enc
    );
    let data = extract_grid_and_words_from_js(&js).unwrap();
    assert_eq!(data.words, vec!["gamma", "delta"]);
}

#[test]
fn date_slashes_become_dashes_even_after_backslashes() {
    let js = r#"gTodayDateStr = 'a\/b/c'; "a\\/b\/c": { "board": ["x"] }"#;
    let data = extract_grid_and_words_from_js(js).unwrap();
    assert_eq!(data.date, r"a\-b-c");
    assert_eq!(data.grid, "x");
}

#[test]
fn unknown_date_without_today_marker() {
    let data = extract_grid_and_words_from_js(r#""board": ["ab"]"#).unwrap();
    assert_eq!(data.date, "unknown");
}

#[test]
fn rows_skip_board_and_pair_quotes_left_to_right() {
    let data = extract_grid_and_words_from_js(r#""board": ["ab", "board", "c"]"#).unwrap();
    assert_eq!(data.grid, "ab-c");
    // An empty pair of quotes is no row: the scan goes on from its second quote.
    let data = extract_grid_and_words_from_js(r#""board": ["", "ab"]"#).unwrap();
    assert_eq!(data.grid, ", ");
}

#[test]
fn undecodable_words_are_reported() {
    let js = r#""board": ["ab"], "wordScores": "////""#;
    let err = extract_grid_and_words_from_js(js).unwrap_err();
    assert_eq!(err.message(), "invalid utf-8 sequence of 1 bytes from index 0");
}
