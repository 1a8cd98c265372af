// The scanners of the library against the regular expressions that describe the
// configuration script, on inputs that probe each part of the patterns.
use regex::Regex;
use squaredle_cli::cipher::decode_words;
use squaredle_cli::fetcher::extract_grid_and_words_from_js;

fn by_regex(js_content: &str) -> Result<(String, String, Vec<String>), String> {
    let date_re = Regex::new(r"gTodayDateStr\s*=\s*'([^']+)'").unwrap();
    let next_date_re = Regex::new(r#","20\d{2}\\/\d{2}\\/\d{2}"#).unwrap();
    let board_re = Regex::new(r#"(?s)"board"\s*:\s*\[(.*?)\]"#).unwrap();
    let row_re = Regex::new(r#""([^"]+)""#).unwrap();
    let words_re = Regex::new(r#""wordScores"\s*:\s*"([^"]+)""#).unwrap();
    let optional_re = Regex::new(r#""optionalWordScores"\s*:\s*"([^"]+)""#).unwrap();

    let today_date = date_re
        .captures(js_content)
        .map(|caps| caps[1].replace('/', "\\/"));
    let key_string = if let Some(ref date) = today_date {
        format!("\"{}\":", date)
    } else {
        "\"board\":".to_string()
    };
    let parts: Vec<&str> = js_content.split(&key_string).collect();
    if parts.len() < 2 {
        return Err("Could not locate puzzle key in response".to_string());
    }
    let rest = parts[1];
    let puzzle_block = match next_date_re.find(rest) {
        Some(m) => &rest[..m.start()],
        None => rest,
    };
    let board_inner_str = if let Some(caps) = board_re.captures(puzzle_block) {
        caps.get(1).unwrap().as_str()
    } else if let Some(caps) = board_re.captures(js_content) {
        caps.get(1).unwrap().as_str()
    } else {
        return Err("Could not locate board array in response".to_string());
    };
    let rows: Vec<String> = row_re
        .captures_iter(board_inner_str)
        .map(|caps| caps[1].to_string())
        .filter(|row| row != "board")
        .collect();
    if rows.is_empty() {
        return Err("Board array found but no rows extracted".to_string());
    }
    let mut all_words = Vec::new();
    if let Some(caps) = words_re.captures(puzzle_block) {
        all_words.extend(decode_words(&caps[1]).map_err(|e| e.message())?);
    }
    if let Some(caps) = optional_re.captures(puzzle_block) {
        all_words.extend(decode_words(&caps[1]).map_err(|e| e.message())?);
    }
    Ok((
        today_date.unwrap_or_else(|| "unknown".to_string()).replace("\\/", "-"),
        rows.join("-"),
        all_words,
    ))
}

fn agree(js: &str) {
    let ours = extract_grid_and_words_from_js(js)
        .map(|d| (d.date, d.grid, d.words))
        .map_err(|e| e.message());
    assert_eq!(ours, by_regex(js), "on input {:?}", js);
}

#[test]
fn scanners_agree_with_the_patterns() {
    let cases = [
        "",
        "\"board\":",
        "\"board\": []",
        "\"board\": [\"\"]",
        "\"board\":[\"a\"\"b\"]",
        "\"board\" \t:\u{3000}[\"ab\",\"c\"]",
        "\"board\"\u{a0}:\u{2028}[\"x\"]",
        "\"board\": [\"ab\", \"cd\"",
        "\"board\": [\"a]b\", \"cd\"]",
        "\"board\":\n[\n\"abc\",\n\"de\"\n]",
        "\"board\": [\"board\", \"zz\"]",
        "x \"board\": [\"a\"] \"board\": [\"b\"]",
        "gTodayDateStr = '2026/02/25'; \"2026\\/02\\/25\": { \"board\": [\"ab\", \"cd\"] }",
        "gTodayDateStr='2026/02/25' \"2026\\/02\\/25\":{\"board\":[\"ab\"]},\"2026\\/02\\/26\":{\"board\":[\"zz\"]}",
        "gTodayDateStr = '' \"board\": [\"a\"]",
        "gTodayDateStr = 'x' gTodayDateStr = 'y' \"y\": \"board\": [\"q\"]",
        "gTodayDateStr\u{2003}=\u{2003}'d/e'; \"d\\/e\": { \"board\": [\"r\"] }",
        "gTodayDateStr = 'a\\/b'; \"a\\\\/b\": { \"board\": [\"r\"] }",
        "\"2026\\/01\\/01\": 1, \"board\": [\"k\"],\"20\u{663}\u{664}\\/01\\/02\" \"board\": [\"m\"]",
        "\"board\": [\"k\"],\"2026\\/0x\\/02\" \"board\": [\"m\"]",
        "gTodayDateStr = 'day'; \"day\": {\"board\": [\"ab\"], \"wordScores\" :\t\"\"}",
        "\"board\": [\"é\", \"日本\"]",
        "\"board\": [\"ab\"], \"optionalWordScores\": \"\", \"wordScores\": \"x\"",
    ];
    for js in cases {
        agree(js);
    }
}
