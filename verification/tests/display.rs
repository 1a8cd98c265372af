use squaredle_cli::display::{
    display_groups, format_puzzle, group_header, json_report, render_puzzle, summary_lines,
    summary_part, table_rows, words_heading,
};
use squaredle_cli::scan::split_text;
use squaredle_cli::fetcher::PuzzleData;

fn strings(v: &[&str]) -> Vec<String> {
    v.iter().map(|s| s.to_string()).collect()
}

#[test]
fn test_format_puzzle() {
    colored::control::set_override(false);
    let data = PuzzleData {
        date: "2026-02-28".to_string(),
        grid: "abcd-efgh".to_string(),
        words: vec!["hello".to_string(), "world".to_string(), "rust".to_string()],
    };
    let formatted = format_puzzle(&data);
    assert!(formatted.contains("Daily Squaredle"));
    assert!(formatted.contains("2026-02-28"));
    assert!(formatted.contains("A ┆ B ┆ C ┆ D") || formatted.contains("A │ B │ C │ D"));
    assert!(formatted.contains("5-letter (2)"));
    assert!(formatted.contains("HELLO  WORLD"));
    assert!(formatted.contains("4-letter (1)"));
    assert!(formatted.contains("RUST"));
    assert!(formatted.contains("Total words: 3"));
    assert!(formatted.contains("5-letter: 2 │ 4-letter: 1"));
}

#[test]
fn test_format_puzzle_empty_words() {
    colored::control::set_override(false);
    let data = PuzzleData {
        date: "2026-01-01".to_string(),
        grid: "ab-cd".to_string(),
        words: vec![],
    };
    let formatted = format_puzzle(&data);
    assert!(formatted.contains("Words (0 total):"));
    assert!(formatted.contains("Total words: 0"));
}

#[test]
fn test_format_puzzle_single_word() {
    colored::control::set_override(false);
    let data = PuzzleData {
        date: "2026-01-01".to_string(),
        grid: "ab-cd".to_string(),
        words: vec!["test".to_string()],
    };
    let formatted = format_puzzle(&data);
    assert!(formatted.contains("4-letter (1)"));
    assert!(formatted.contains("TEST"));
    assert!(formatted.contains("Total words: 1"));
}

#[test]
fn test_format_puzzle_many_lengths() {
    colored::control::set_override(false);
    let data = PuzzleData {
        date: "2026-01-01".to_string(),
        grid: "ab-cd".to_string(),
        words: vec![
            "abcd".to_string(),
            "abcde".to_string(),
            "abcdef".to_string(),
            "abcdefg".to_string(),
            "abcdefgh".to_string(),
            "abcdefghi".to_string(),
            "abcdefghij".to_string(),
        ],
    };
    let formatted = format_puzzle(&data);
    assert!(formatted.contains("4-letter (1)"));
    assert!(formatted.contains("10-letter (1)"));
    assert!(formatted.contains("Total words: 7"));
}

#[test]
fn format_puzzle_frames_and_orders_everything() {
    colored::control::set_override(false);
    let data = PuzzleData {
        date: "2026-02-25".to_string(),
        grid: "ab-cd".to_string(),
        words: strings(&["zeta", "alpha", "beta", "omega"]),
    };
    let text = format_puzzle(&data);
    assert!(text.starts_with("\n┌─────────────────────────────┐\n│     Daily Squaredle         │\n│     2026-02-25              │\n└─────────────────────────────┘\n\n  Grid:\n"));
    assert!(text.contains("  Words (4 total):\n"));
    assert!(text.contains("ALPHA  OMEGA"));
    assert!(text.contains("BETA  ZETA"));
    assert!(text.find("5-letter (2)").unwrap() < text.find("4-letter (2)").unwrap());
    assert!(text.ends_with("  Summary:\n  ─────────────────────────────\n  Total words: 4\n  5-letter: 2 │ 4-letter: 2\n\n"));
}

#[test]
fn display_groups_longest_first_sorted_in_capitals() {
    let groups = display_groups(&strings(&["pear", "fig", "apple", "kiwi", "date"]));
    let lens: Vec<usize> = groups.iter().map(|g| g.length).collect();
    assert_eq!(lens, vec![5, 4, 3]);
    assert_eq!(groups[1].words, strings(&["DATE", "KIWI", "PEAR"]));
    assert_eq!(groups[0].words, strings(&["APPLE"]));
}

#[test]
fn display_groups_measure_characters() {
    let groups = display_groups(&strings(&["é", "ab", "ça"]));
    assert_eq!(groups.len(), 2);
    assert_eq!(groups[0].length, 2);
    assert_eq!(groups[0].words, strings(&["AB", "ÇA"]));
    assert_eq!(groups[1].length, 1);
    assert_eq!(groups[1].words, strings(&["É"]));
}

#[test]
fn json_groups_measure_bytes() {
    let data = PuzzleData {
        date: String::new(),
        grid: String::new(),
        words: strings(&["né", "ab", "é"]),
    };
    let r = json_report(&data);
    assert_eq!(r.by_length.len(), 2);
    assert_eq!(r.by_length[0].length, 2);
    assert_eq!(r.by_length[0].words, strings(&["ab", "é"]));
    assert_eq!(r.by_length[1].length, 3);
    assert_eq!(r.by_length[1].words, strings(&["né"]));
}

#[test]
fn render_puzzle_without_colors_is_plain() {
    colored::control::set_override(true);
    let data = PuzzleData {
        date: "2026-02-28".to_string(),
        grid: "abcd-efgh".to_string(),
        words: strings(&["hello", "world", "rust"]),
    };
    let text = render_puzzle(&data, false);
    colored::control::unset_override();
    assert!(!text.contains('\u{1b}'));
    assert!(text.starts_with("\n┌─────────────────────────────┐\n│     Daily Squaredle         │\n│     2026-02-28              │\n└─────────────────────────────┘\n\n  Grid:\n"));
    assert!(text.contains("A ┆ B ┆ C ┆ D"));
    assert!(text.contains("E ┆ F ┆ G ┆ H"));
    assert!(text.contains("  Words (3 total):\n"));
    assert!(text.contains("5-letter (2)"));
    assert!(text.contains("HELLO  WORLD"));
    assert!(!text.contains("WORLD  HELLO"));
    assert!(text.find("5-letter (2)").unwrap() < text.find("4-letter (1)").unwrap());
    assert!(text.ends_with("  Summary:\n  ─────────────────────────────\n  Total words: 3\n  5-letter: 2 │ 4-letter: 1\n\n"));
}

#[test]
fn render_puzzle_with_colors_styles_the_title() {
    colored::control::set_override(true);
    let data = PuzzleData {
        date: "2026-02-28".to_string(),
        grid: "ab-cd".to_string(),
        words: strings(&["test"]),
    };
    let text = render_puzzle(&data, true);
    colored::control::unset_override();
    assert!(text.contains("│     \u{1b}[1;36mDaily Squaredle        \u{1b}[0m │\n"));
    assert!(text.contains("│     \u{1b}[33m2026-02-28             \u{1b}[0m │\n"));
    assert!(text.contains("  \u{1b}[1mGrid:\u{1b}[0m\n"));
    assert!(text.contains("  \u{1b}[1mWords (1 total):\u{1b}[0m\n"));
    assert!(text.contains("  \u{1b}[1mSummary:\u{1b}[0m\n"));
    assert!(text.contains("Total words: 1"));
}

#[test]
fn table_rows_hold_four_words() {
    let rows = table_rows(&strings(&["A", "B", "C", "D", "E", "F"]));
    assert_eq!(rows, strings(&["A  B  C  D", "E  F"]));
    assert!(table_rows(&Vec::new()).is_empty());
}

#[test]
fn headers_and_parts() {
    assert_eq!(group_header(5, 12), "5-letter (12)");
    assert_eq!(summary_part(10, 1), "10-letter: 1");
    assert_eq!(words_heading(0), "Words (0 total):");
}

#[test]
fn summary_lines_wrap_at_sixty_bytes() {
    let parts: Vec<String> = (4..16).rev().map(|n| summary_part(n, 100)).collect();
    let lines = summary_lines(&parts);
    assert_eq!(
        lines,
        strings(&[
            "  15-letter: 100 │ 14-letter: 100 │ 13-letter: 100",
            "  12-letter: 100 │ 11-letter: 100 │ 10-letter: 100",
            "  9-letter: 100 │ 8-letter: 100 │ 7-letter: 100",
            "  6-letter: 100 │ 5-letter: 100 │ 4-letter: 100",
        ])
    );
    for line in &lines {
        assert!(line.chars().count() <= 60);
    }
    assert!(summary_lines(&Vec::new()).is_empty());
}

#[test]
fn summary_lines_count_bytes() {
    // 29 + 3 + 28 = 60 bytes when the separator counts as three: the entry joins
    // the line, which then holds 62 bytes but 60 characters.
    let a = "a".repeat(27);
    let b = "b".repeat(28);
    let lines = summary_lines(&strings(&[&a, &b]));
    assert_eq!(lines.len(), 1);
    assert_eq!(lines[0].chars().count(), 60);
    assert_eq!(lines[0].len(), 62);
    let c = "c".repeat(29);
    let lines = summary_lines(&strings(&[&a, &c]));
    assert_eq!(lines.len(), 2);
}

#[test]
fn split_text_keeps_empty_pieces() {
    assert_eq!(split_text("abc-def-ghi", '-'), strings(&["abc", "def", "ghi"]));
    assert_eq!(split_text("", '-'), strings(&[""]));
    assert_eq!(split_text("-a-", '-'), strings(&["", "a", ""]));
}

#[test]
fn json_report_of_a_puzzle() {
    let data = PuzzleData {
        date: "2026-01-01".to_string(),
        grid: "abc-def-ghi".to_string(),
        words: strings(&["rust", "code", "hello"]),
    };
    let r = json_report(&data);
    assert_eq!(r.date, "2026-01-01");
    assert_eq!(r.grid_rows, strings(&["abc", "def", "ghi"]));
    assert_eq!(r.word_count, 3);
    assert_eq!(r.words, data.words);
    assert_eq!(r.by_length.len(), 2);
    assert_eq!(r.by_length[0].length, 4);
    assert_eq!(r.by_length[0].words, strings(&["rust", "code"]));
    assert_eq!(r.by_length[1].length, 5);
    assert_eq!(r.by_length[1].words, strings(&["hello"]));
}

#[test]
fn groups_hold_every_word_once() {
    let words = strings(&["a", "bb", "cc", "ddd", "e", "ffff", "gg"]);
    let groups = display_groups(&words);
    let total: usize = groups.iter().map(|g| g.words.len()).sum();
    assert_eq!(total, words.len());
    let json = json_report(&PuzzleData { date: String::new(), grid: String::new(), words: words.clone() });
    let total: usize = json.by_length.iter().map(|g| g.words.len()).sum();
    assert_eq!(total, words.len());
}
