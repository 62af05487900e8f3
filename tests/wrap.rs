use gtext::chars::is_blank;
use gtext::gtext::{GTextBlock, GTextEntry, GTextLineBreak};
use gtext::text::{split_line, wrap_line, wrap_lines, Font, FontConfig, LineBudget, TextError};

fn strings(lines: &[&str]) -> Vec<String> {
    lines.iter().map(|s| s.to_string()).collect()
}

fn small_font() -> Font {
    Font::new(20, vec![(' ', 2), ('a', 3), ('b', 4)]).unwrap()
}

/// Every lower-case letter and the space are one pixel wide.
fn unit_font(max: usize) -> Font {
    let mut widths: Vec<(char, usize)> = ('a'..='z').map(|c| (c, 1)).collect();
    widths.push((' ', 1));
    Font::new(max, widths).unwrap()
}

#[test]
fn short_line_wraps_at_ten_characters() {
    let lines = wrap_line("short line", LineBudget::MaxChars(10)).unwrap();
    assert_eq!(lines, strings(&["short", "line"]));
    let block = GTextBlock::from_plain_text(&lines, "test_block");
    assert_eq!(
        block.entries,
        vec![
            GTextEntry {
                text: "short".to_string(),
                line_break: GTextLineBreak::NewLine,
            },
            GTextEntry {
                text: "line".to_string(),
                line_break: GTextLineBreak::End,
            },
        ]
    );
}

#[test]
fn words_that_fit_share_a_line() {
    let lines = wrap_line("a bb ccc", LineBudget::MaxChars(10)).unwrap();
    assert_eq!(lines, strings(&["a bb ccc"]));
}

#[test]
fn overlong_word_stands_alone() {
    let lines = wrap_line("abcdef gh", LineBudget::MaxChars(3)).unwrap();
    assert_eq!(lines, strings(&["abcdef", "gh"]));
    let lines = wrap_line("gh abcdef ij", LineBudget::MaxChars(3)).unwrap();
    assert_eq!(lines, strings(&["gh", "abcdef", "ij"]));
}

#[test]
fn blank_input_gives_one_empty_line() {
    assert_eq!(wrap_line("", LineBudget::MaxChars(10)).unwrap(), strings(&[""]));
    assert_eq!(wrap_line("  \t ", LineBudget::MaxChars(10)).unwrap(), strings(&[""]));
}

#[test]
fn whitespace_runs_separate_words() {
    let lines = wrap_line("  a\t\tb   c  ", LineBudget::MaxChars(10)).unwrap();
    assert_eq!(lines, strings(&["a b c"]));
}

#[test]
fn non_ascii_text_counts_characters() {
    let lines = wrap_line("héé wörld", LineBudget::MaxChars(10)).unwrap();
    assert_eq!(lines, strings(&["héé wörld"]));
    let lines = wrap_line("héé wörld", LineBudget::MaxChars(9)).unwrap();
    assert_eq!(lines, strings(&["héé", "wörld"]));
}

#[test]
fn font_widths_decide_the_break() {
    // "aa" is 6 wide, "bb" 8: 6 + 2 + 8 < 20 joins them (width 16 with the space);
    // then 16 + 2 + 6 reaches 20, so the last word starts a new line.
    let font = small_font();
    let lines = split_line("aa bb aa", &font).unwrap();
    assert_eq!(lines, strings(&["aa bb", "aa"]));
}

#[test]
fn font_word_reaching_the_limit_starts_a_line() {
    // 5 + 1 + 5 reaches 11, not 12.
    let font = Font::new(11, vec![(' ', 1), ('a', 5)]).unwrap();
    let lines = split_line("a a", &font).unwrap();
    assert_eq!(lines, strings(&["a", "a"]));
    let font = Font::new(12, vec![(' ', 1), ('a', 5)]).unwrap();
    let lines = split_line("a a", &font).unwrap();
    assert_eq!(lines, strings(&["a a"]));
}

#[test]
fn unit_font_short_line_wraps_at_ten() {
    let font = unit_font(10);
    let lines = split_line("short line", &font).unwrap();
    assert_eq!(lines, strings(&["short", "line"]));
}

#[test]
fn unit_font_counts_the_space_after_a_break() {
    let font = unit_font(10);
    let lines = split_line("aaaaaaaaa bbbb ccccc", &font).unwrap();
    assert_eq!(lines, strings(&["aaaaaaaaa", "bbbb", "ccccc"]));
    let lines = split_line("aa bb cc dd ee", &font).unwrap();
    assert_eq!(lines, strings(&["aa bb cc", "dd ee"]));
}

#[test]
fn font_table_lookup() {
    let font = Font::new(10, vec![(' ', 1), ('a', 9), ('b', 2)]).unwrap();
    assert_eq!(font.width_of('a'), Some(9));
    assert_eq!(font.width_of('b'), Some(2));
    assert_eq!(font.width_of('z'), None);
    assert_eq!(font.max_line_length(), 10);
}

#[test]
fn font_with_two_widths_for_one_character_is_refused() {
    assert!(Font::new(10, vec![(' ', 1), ('a', 9), ('a', 2)]).is_none());
    assert!(Font::new(10, vec![(' ', 1), (' ', 1)]).is_none());
    assert!(Font::new(10, vec![]).is_some());
}

#[test]
fn missing_glyph_is_an_error() {
    let font = small_font();
    assert_eq!(
        split_line("ab bc", &font),
        Err(TextError::MissingGlyphWidth('c'))
    );
    assert_eq!(
        split_line("ax ay", &font),
        Err(TextError::MissingGlyphWidth('x'))
    );
}

#[test]
fn missing_space_width_is_an_error() {
    let font = Font::new(20, vec![('a', 3)]).unwrap();
    assert_eq!(split_line("a", &font), Err(TextError::MissingGlyphWidth(' ')));
    assert_eq!(split_line("", &font), Err(TextError::MissingGlyphWidth(' ')));
}

#[test]
fn tabs_need_no_width() {
    let font = small_font();
    assert_eq!(split_line("a\tb", &font).unwrap(), strings(&["a b"]));
}

#[test]
fn rewrapping_gives_the_same_lines() {
    let text = "the quick brown fox jumps over the lazy dog and keeps running far away";
    for budget in [LineBudget::MaxChars(12), LineBudget::MaxChars(4)] {
        let lines = wrap_line(text, budget).unwrap();
        let again = wrap_lines(&lines, budget).unwrap();
        assert_eq!(again, lines);
    }
    let font = small_font();
    let lines = split_line("aa bb a b ab ba aaaa bbbbbbb a", &font).unwrap();
    for line in &lines {
        assert_eq!(split_line(line, &font).unwrap(), vec![line.clone()]);
    }
}

#[test]
fn lines_of_several_words_stay_under_the_limit() {
    let text = "the quick brown fox jumps over the lazy dog and keeps running far away";
    let lines = wrap_line(text, LineBudget::MaxChars(12)).unwrap();
    assert!(lines.len() > 1);
    for line in &lines {
        if line.contains(' ') {
            assert!(line.chars().count() < 12);
        }
    }
    let font = small_font();
    let lines = split_line("aa bb a b ab ba aaaa bb a", &font).unwrap();
    assert!(lines.len() > 1);
    for line in &lines {
        if line.contains(' ') {
            let width: usize = line
                .chars()
                .map(|c| match c {
                    'a' => 3,
                    'b' => 4,
                    _ => 2,
                })
                .sum();
            assert!(width < 20);
        }
    }
    let font = unit_font(10);
    let lines = split_line("aaaaaaaaa bbbb ccccc dd e ff ggg h", &font).unwrap();
    for line in &lines {
        if line.contains(' ') {
            assert!(line.chars().count() < 10);
        }
    }
}

#[test]
fn wrap_lines_concatenates_in_order() {
    let input = strings(&["short line", "", "a b"]);
    let lines = wrap_lines(&input, LineBudget::MaxChars(10)).unwrap();
    assert_eq!(lines, strings(&["short", "line", "", "a b"]));
}

#[test]
fn wrap_lines_stops_at_a_missing_glyph() {
    let font = small_font();
    let input = strings(&["aa", "ba q", "z"]);
    assert_eq!(
        wrap_lines(&input, LineBudget::Glyphs(&font)),
        Err(TextError::MissingGlyphWidth('q'))
    );
}

#[test]
fn whole_pipeline_renders_a_block() {
    let input = strings(&["short line", "", "end"]);
    let lines = wrap_lines(&input, LineBudget::MaxChars(10)).unwrap();
    let block = GTextBlock::from_plain_text(&lines, "demo");
    assert_eq!(
        block.to_string(),
        "gText_demo::\n\t.string \"short\\n\"\n\t.string \"line\\p\"\n\t.string \"end$\"\n"
    );
}

#[test]
fn font_lookup_by_id() {
    let config = FontConfig {
        default_font_id: "small".to_string(),
        fonts: vec![
            ("small".to_string(), Font::new(100, vec![(' ', 1)]).unwrap()),
            ("big".to_string(), Font::new(200, vec![(' ', 2)]).unwrap()),
        ],
    };
    assert_eq!(config.get_font(None).unwrap().max_line_length(), 100);
    assert_eq!(config.get_font(Some("big")).unwrap().max_line_length(), 200);
    match config.get_font(Some("huge")) {
        Err(e) => assert_eq!(e, TextError::FontNotFound("huge".to_string())),
        Ok(_) => panic!("no font is called huge"),
    }
}

#[test]
fn missing_default_font() {
    let config = FontConfig {
        default_font_id: "none".to_string(),
        fonts: vec![],
    };
    match config.get_font(None) {
        Err(e) => assert_eq!(e, TextError::FontNotFound("none".to_string())),
        Ok(_) => panic!("the configuration holds no font"),
    }
}

#[test]
fn blank_detection() {
    assert!(is_blank(""));
    assert!(is_blank(" \t\u{3000}"));
    assert!(!is_blank(" a "));
}
