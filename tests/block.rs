use gtext::gtext::{GTextBlock, GTextEntry, GTextLineBreak};

fn strings(lines: &[&str]) -> Vec<String> {
    lines.iter().map(|s| s.to_string()).collect()
}

fn entry(text: &str, line_break: GTextLineBreak) -> GTextEntry {
    GTextEntry {
        text: text.to_string(),
        line_break,
    }
}

#[test]
fn empty_slice() {
    let block = GTextBlock::from_plain_text(&[String::new()], "test_block");
    assert_eq!(block.entries.len(), 1);
    assert_eq!(block.entries, vec![entry("", GTextLineBreak::End)]);
}

#[test]
fn no_lines_at_all() {
    let block = GTextBlock::from_plain_text(&[], "test_block");
    assert_eq!(block.entries, vec![entry("", GTextLineBreak::End)]);
}

#[test]
fn one_empty_string() {
    let block = GTextBlock::from_plain_text(&strings(&[""]), "test_block");
    assert_eq!(block.entries, vec![entry("", GTextLineBreak::End)]);
}

#[test]
fn one_non_empty_string() {
    let block = GTextBlock::from_plain_text(&strings(&["test"]), "test_block");
    assert_eq!(block.entries, vec![entry("test", GTextLineBreak::End)]);
}

#[test]
fn empty_string_at_the_end() {
    let block = GTextBlock::from_plain_text(&strings(&["test", ""]), "test_block");
    assert_eq!(block.entries, vec![entry("test", GTextLineBreak::End)]);
}

#[test]
fn empty_string_at_the_start() {
    let block = GTextBlock::from_plain_text(&strings(&["", "test"]), "test_block");
    assert_eq!(block.entries, vec![entry("test", GTextLineBreak::End)]);
}

#[test]
fn blank_lines_on_both_sides() {
    let block = GTextBlock::from_plain_text(&strings(&["", "test", ""]), "test_block");
    assert_eq!(block.entries, vec![entry("test", GTextLineBreak::End)]);
}

#[test]
fn two_lines_with_empty_line_between() {
    let block = GTextBlock::from_plain_text(&strings(&["test", "", "test2"]), "test_block");
    assert_eq!(block.entries.len(), 2);
    assert_eq!(
        block.entries,
        vec![
            entry("test", GTextLineBreak::NewParagraph),
            entry("test2", GTextLineBreak::End),
        ]
    );
}

#[test]
fn three_non_empty_lines() {
    let block = GTextBlock::from_plain_text(&strings(&["test1", "test2", "test3"]), "test_block");
    assert_eq!(
        block.entries,
        vec![
            entry("test1", GTextLineBreak::NewLine),
            entry("test2", GTextLineBreak::NewLineWithScroll),
            entry("test3", GTextLineBreak::End),
        ]
    );
}

#[test]
fn three_single_letter_lines() {
    let block = GTextBlock::from_plain_text(&strings(&["a", "b", "c"]), "test_block");
    assert_eq!(
        block.entries,
        vec![
            entry("a", GTextLineBreak::NewLine),
            entry("b", GTextLineBreak::NewLineWithScroll),
            entry("c", GTextLineBreak::End),
        ]
    );
}

#[test]
fn three_non_empty_lines_with_empty_lines_between() {
    let block = GTextBlock::from_plain_text(
        &strings(&["test1", "", "test2", "", "test3"]),
        "test_block",
    );
    assert_eq!(
        block.entries,
        vec![
            entry("test1", GTextLineBreak::NewParagraph),
            entry("test2", GTextLineBreak::NewParagraph),
            entry("test3", GTextLineBreak::End),
        ]
    );
}

#[test]
fn single_letters_with_blank_lines_between() {
    let block = GTextBlock::from_plain_text(&strings(&["a", "", "b", "", "c"]), "test_block");
    assert_eq!(
        block.entries,
        vec![
            entry("a", GTextLineBreak::NewParagraph),
            entry("b", GTextLineBreak::NewParagraph),
            entry("c", GTextLineBreak::End),
        ]
    );
}

#[test]
fn several_blank_lines_only() {
    let block = GTextBlock::from_plain_text(&strings(&["", "   ", "\t", ""]), "test_block");
    assert_eq!(block.entries, vec![entry("", GTextLineBreak::End)]);
}

#[test]
fn whitespace_line_separates_paragraphs() {
    let block = GTextBlock::from_plain_text(&strings(&["a", "  ", "b", "c"]), "test_block");
    assert_eq!(
        block.entries,
        vec![
            entry("a", GTextLineBreak::NewParagraph),
            entry("b", GTextLineBreak::NewLine),
            entry("c", GTextLineBreak::End),
        ]
    );
}

#[test]
fn paragraph_in_the_middle_scrolls_then_breaks() {
    let block = GTextBlock::from_plain_text(&strings(&["a", "b", "c", "", "d"]), "test_block");
    assert_eq!(
        block.entries,
        vec![
            entry("a", GTextLineBreak::NewLine),
            entry("b", GTextLineBreak::NewLineWithScroll),
            entry("c", GTextLineBreak::NewParagraph),
            entry("d", GTextLineBreak::End),
        ]
    );
}

#[test]
fn boundary_blank_runs_are_trimmed() {
    let block =
        GTextBlock::from_plain_text(&strings(&["", " ", "a", "", "b", "", "  "]), "test_block");
    assert_eq!(
        block.entries,
        vec![
            entry("a", GTextLineBreak::NewParagraph),
            entry("b", GTextLineBreak::End),
        ]
    );
}

#[test]
fn block_keeps_its_name() {
    let block = GTextBlock::from_plain_text(&strings(&["a"]), "intro");
    assert_eq!(block.name, "intro");
}

#[test]
fn exactly_one_end_and_it_is_last() {
    let inputs: Vec<Vec<String>> = vec![
        strings(&[]),
        strings(&[""]),
        strings(&["a", "b"]),
        strings(&["a", "", "", "b", "c", "", "d", ""]),
        strings(&["", "x", "", "y", "z"]),
    ];
    for lines in inputs {
        let block = GTextBlock::from_plain_text(&lines, "n");
        assert!(!block.entries.is_empty());
        let ends = block
            .entries
            .iter()
            .filter(|e| e.line_break == GTextLineBreak::End)
            .count();
        assert_eq!(ends, 1);
        assert_eq!(block.entries.last().unwrap().line_break, GTextLineBreak::End);
    }
}

#[test]
fn every_blank_pattern_up_to_four_lines() {
    for len in 0..=4usize {
        for mask in 0..(1u32 << len) {
            let lines: Vec<String> = (0..len)
                .map(|i| {
                    if mask & (1 << i) != 0 {
                        format!("w{i}")
                    } else {
                        String::new()
                    }
                })
                .collect();
            let block = GTextBlock::from_plain_text(&lines, "n");
            assert!(!block.entries.is_empty());
            let last = block.entries.len() - 1;
            for (k, e) in block.entries.iter().enumerate() {
                assert_eq!(e.line_break == GTextLineBreak::End, k == last);
            }
            let words = lines.iter().filter(|l| !l.is_empty()).count();
            assert_eq!(block.entries.len(), words.max(1));
        }
    }
}

#[test]
fn marker_codes() {
    assert_eq!(GTextLineBreak::NewLine.code(), "\\n");
    assert_eq!(GTextLineBreak::NewLineWithScroll.code(), "\\l");
    assert_eq!(GTextLineBreak::NewParagraph.code(), "\\p");
    assert_eq!(GTextLineBreak::End.code(), "$");
}

#[test]
fn entry_line_format() {
    let e = entry("Hello", GTextLineBreak::NewLineWithScroll);
    assert_eq!(e.to_line(), "\t.string \"Hello\\l\"");
}

#[test]
fn block_text_format() {
    let block = GTextBlock::from_plain_text(&strings(&["Hello", "", "World"]), "intro");
    assert_eq!(
        block.to_string(),
        "gText_intro::\n\t.string \"Hello\\p\"\n\t.string \"World$\"\n"
    );
}

#[test]
fn empty_block_text_format() {
    let block = GTextBlock::from_plain_text(&[], "<NAME>");
    assert_eq!(block.to_string(), "gText_<NAME>::\n\t.string \"$\"\n");
}
