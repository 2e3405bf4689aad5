use abcom_ui::markdown::{
    blockquote_text, bullet_text, fenced_code_language, heading_text, is_code_fence,
    is_delimiter_cell, is_table_delimiter, is_text_emoji_only, is_thematic_break,
    ordered_bullet_text, parse_code_span, parse_inline, parse_link, push_text, parse_markdown, parse_message, parse_table_alignments,
    parse_table_row, split_table_cells, starts_special_block, task_item_text,
    trim_trailing_blank_lines, ColumnAlignment, MarkdownBlock, MarkdownSpan,
};
use abcom_ui::text_map::TextMap;

fn chars(s: &str) -> Vec<char> {
    s.chars().collect()
}

fn text(s: &str) -> MarkdownSpan {
    MarkdownSpan::Text(s.to_string())
}

#[test]
fn empty_message_is_one_empty_paragraph() {
    assert_eq!(parse_markdown(""), vec![MarkdownBlock::Paragraph(Vec::new())]);
}

#[test]
fn plain_line_is_a_paragraph() {
    assert_eq!(parse_markdown("hello"), vec![MarkdownBlock::Paragraph(vec![text("hello")])]);
}

#[test]
fn consecutive_lines_keep_their_line_breaks() {
    assert_eq!(
        parse_markdown("one\n  two  \nthree"),
        vec![MarkdownBlock::Paragraph(vec![text("one\ntwo\nthree")])]
    );
}

#[test]
fn blank_line_splits_paragraphs() {
    assert_eq!(
        parse_markdown("a\n\nb"),
        vec![
            MarkdownBlock::Paragraph(vec![text("a")]),
            MarkdownBlock::Blank,
            MarkdownBlock::Paragraph(vec![text("b")]),
        ]
    );
}

#[test]
fn headings_of_each_level() {
    assert_eq!(
        parse_markdown("# Title\n### Sub"),
        vec![
            MarkdownBlock::Heading { level: 1, spans: vec![text("Title")] },
            MarkdownBlock::Heading { level: 3, spans: vec![text("Sub")] },
        ]
    );
    // Seven hashes is no heading.
    assert_eq!(heading_text(&chars("####### x")), None);
    assert_eq!(heading_text(&chars("#nospace")), None);
    assert_eq!(heading_text(&chars("## ok")), Some((2, chars("ok"))));
}

#[test]
fn bullets_tasks_and_numbered_items() {
    assert_eq!(
        parse_markdown("- one\n* [x] done\n+ [ ] todo\n12. twelve"),
        vec![
            MarkdownBlock::Bullet(vec![text("one")]),
            MarkdownBlock::TaskItem { checked: true, spans: vec![text("done")] },
            MarkdownBlock::TaskItem { checked: false, spans: vec![text("todo")] },
            MarkdownBlock::OrderedBullet { number: 12, spans: vec![text("twelve")] },
        ]
    );
    assert_eq!(bullet_text(&chars("   - indented")), Some(chars("indented")));
    assert_eq!(bullet_text(&chars("-nospace")), None);
    assert_eq!(task_item_text(&chars("- [X] big")), Some((true, chars("big"))));
    assert_eq!(task_item_text(&chars("- [y] no")), None);
    assert_eq!(ordered_bullet_text(&chars("3. x")), Some((3, chars("x"))));
    assert_eq!(ordered_bullet_text(&chars("3.x")), None);
    assert_eq!(ordered_bullet_text(&chars(". x")), None);
}

#[test]
fn blockquote_and_thematic_break() {
    assert_eq!(
        parse_markdown("> quoted\n---"),
        vec![MarkdownBlock::Blockquote(vec![text("quoted")]), MarkdownBlock::ThematicBreak]
    );
    assert_eq!(blockquote_text(&chars("  >   hi")), Some(chars("hi")));
    assert!(is_thematic_break(&chars("* * *")));
    assert!(is_thematic_break(&chars("___")));
    assert!(!is_thematic_break(&chars("-*-")));
    assert!(!is_thematic_break(&chars("--")));
}

#[test]
fn fenced_code_block_keeps_its_lines() {
    assert_eq!(
        parse_markdown("```rust\nfn main() {}\n  indented\n```"),
        vec![MarkdownBlock::CodeBlock {
            language: Some("rust".to_string()),
            code: "fn main() {}\n  indented".to_string(),
        }]
    );
}

#[test]
fn code_block_drops_a_preceding_blank_and_trailing_blank_lines() {
    assert_eq!(
        parse_markdown("text\n\n```\ncode\n\n   \n```"),
        vec![
            MarkdownBlock::Paragraph(vec![text("text")]),
            MarkdownBlock::CodeBlock { language: None, code: "code".to_string() },
        ]
    );
}

#[test]
fn unterminated_fence_takes_the_rest() {
    assert_eq!(
        parse_markdown("```\na\nb"),
        vec![MarkdownBlock::CodeBlock { language: None, code: "a\nb".to_string() }]
    );
}

#[test]
fn fence_language_rules() {
    assert_eq!(fenced_code_language(&chars("```")), Some(None));
    assert_eq!(fenced_code_language(&chars("  ``` py ")), Some(Some("py".to_string())));
    assert_eq!(fenced_code_language(&chars("```a`b")), None);
    assert_eq!(fenced_code_language(&chars("text")), None);
    assert!(is_code_fence(&chars("   ```x")));
    assert!(!is_code_fence(&chars("``")));
}

#[test]
fn trailing_blank_lines_are_trimmed() {
    let mut code = chars("a\n  \n\n");
    trim_trailing_blank_lines(&mut code);
    assert_eq!(code, chars("a"));
    let mut blank = chars("   \n \n");
    trim_trailing_blank_lines(&mut blank);
    assert_eq!(blank, chars(""));
    let mut kept = chars("a\nb");
    trim_trailing_blank_lines(&mut kept);
    assert_eq!(kept, chars("a\nb"));
}

#[test]
fn table_with_alignments() {
    let blocks = parse_markdown("| a | b | c |\n| :--- | :-: | --: |\n| 1 | **2** |\nafter");
    assert_eq!(
        blocks,
        vec![
            MarkdownBlock::Table {
                alignments: vec![
                    ColumnAlignment::Left,
                    ColumnAlignment::Center,
                    ColumnAlignment::Right,
                ],
                header: vec![vec![text("a")], vec![text("b")], vec![text("c")]],
                rows: vec![vec![
                    vec![text("1")],
                    vec![MarkdownSpan::Strong("2".to_string())],
                    vec![],
                ]],
            },
            MarkdownBlock::Paragraph(vec![text("after")]),
        ]
    );
}

#[test]
fn table_law_rows_have_the_column_count() {
    let blocks = parse_markdown("a | b\n--- | ---\n1 | 2 | 3 | 4\nx\n");
    for block in &blocks {
        if let MarkdownBlock::Table { alignments, header, rows } = block {
            assert_eq!(header.len(), alignments.len());
            for row in rows {
                assert_eq!(row.len(), alignments.len());
            }
        }
    }
    assert_eq!(parse_table_row(&chars("| x |"), 3).len(), 3);
    assert_eq!(parse_table_row(&chars("1|2|3|4"), 2).len(), 2);
}

#[test]
fn pipes_without_a_delimiter_line_are_a_paragraph() {
    assert_eq!(parse_markdown("a | b"), vec![MarkdownBlock::Paragraph(vec![text("a | b")])]);
}

#[test]
fn table_cells_and_escaped_pipes() {
    assert_eq!(split_table_cells(&chars("| a | b\\|c |")), vec![chars(" a "), chars(" b|c ")]);
    assert_eq!(split_table_cells(&chars("a|b")), vec![chars("a"), chars("b")]);
    assert_eq!(split_table_cells(&chars("| x \\|")), vec![chars(" x |")]);
    assert!(is_delimiter_cell(&chars(" :--: ")));
    assert!(!is_delimiter_cell(&chars("::")));
    assert!(is_table_delimiter(&chars("|---|:--|")));
    assert!(!is_table_delimiter(&chars("| a | b |")));
    assert_eq!(
        parse_table_alignments(&chars("--- | :-- | --: | :-:")),
        vec![
            ColumnAlignment::Unaligned,
            ColumnAlignment::Left,
            ColumnAlignment::Right,
            ColumnAlignment::Center,
        ]
    );
}

#[test]
fn special_lines_end_a_paragraph() {
    assert!(starts_special_block(&chars("- item")));
    assert!(starts_special_block(&chars("   ")));
    assert!(starts_special_block(&chars("```")));
    assert!(!starts_special_block(&chars("plain")));
    assert_eq!(
        parse_markdown("para\n- item"),
        vec![
            MarkdownBlock::Paragraph(vec![text("para")]),
            MarkdownBlock::Bullet(vec![text("item")]),
        ]
    );
}

#[test]
fn inline_spans_of_every_kind() {
    assert_eq!(
        parse_inline(&chars("a **b** _c_ `d` ~~e~~ [f](g) h")),
        vec![
            text("a "),
            MarkdownSpan::Strong("b".to_string()),
            text(" "),
            MarkdownSpan::Emphasis("c".to_string()),
            text(" "),
            MarkdownSpan::Code("d".to_string()),
            text(" "),
            MarkdownSpan::Strikethrough("e".to_string()),
            text(" "),
            MarkdownSpan::Link { label: "f".to_string(), url: "g".to_string() },
            text(" h"),
        ]
    );
}

#[test]
fn unclosed_markers_stay_text() {
    assert_eq!(parse_inline(&chars("a *b")), vec![text("a *b")]);
    assert_eq!(parse_inline(&chars("**x")), vec![text("**x")]);
    assert_eq!(parse_inline(&chars("~~x")), vec![text("~~x")]);
    assert_eq!(parse_inline(&chars("[a](b")), vec![text("[a](b")]);
}

#[test]
fn double_backquotes_hold_a_backquote() {
    assert_eq!(parse_inline(&chars("``a`b``")), vec![MarkdownSpan::Code("a`b".to_string())]);
}

#[test]
fn emoji_only_messages() {
    let mut emoji: TextMap<usize> = TextMap::new();
    emoji.insert("😀".to_string(), 0);
    emoji.insert("❤".to_string(), 1);
    assert!(is_text_emoji_only("😀 😀", &emoji));
    assert!(is_text_emoji_only("❤\u{fe0f}", &emoji));
    assert!(is_text_emoji_only("", &emoji));
    assert!(!is_text_emoji_only("😀 hi", &emoji));
    let parsed = parse_message("😀", &emoji);
    assert!(parsed.emoji_only);
    assert_eq!(parsed.blocks, vec![MarkdownBlock::Paragraph(vec![text("😀")])]);
}

#[test]
fn links_code_spans_and_text_pieces() {
    let v = chars("see [doc](http://x) now");
    assert_eq!(parse_link(&v, 4), Some((8, 10, 18)));
    assert_eq!(parse_link(&v, 0), None);
    let c = chars("a ``b`c`` d");
    assert_eq!(parse_code_span(&c, 2), Some((4, 7, 9)));
    assert_eq!(parse_code_span(&chars("`open"), 0), None);
    let mut spans = vec![MarkdownSpan::Code("x".to_string())];
    push_text(&mut spans, &chars("ab"));
    push_text(&mut spans, &chars("cd"));
    push_text(&mut spans, &chars(""));
    assert_eq!(spans, vec![MarkdownSpan::Code("x".to_string()), text("abcd")]);
}

#[test]
fn plain_inline_text_is_one_text_span() {
    assert_eq!(parse_inline(&chars("just words, no marks")), vec![MarkdownSpan::Text("just words, no marks".to_string())]);
    assert!(parse_inline(&chars("")).is_empty());
    let spans = parse_inline(&chars("a *b* c ~ d `e` f"));
    for pair in spans.windows(2) {
        assert!(!matches!((&pair[0], &pair[1]), (MarkdownSpan::Text(_), MarkdownSpan::Text(_))));
    }
    assert!(spans.iter().all(|s| !matches!(s, MarkdownSpan::Text(t) if t.is_empty())));
}

#[test]
fn trimmed_code_stops_at_its_last_written_line() {
    let original = chars("let x = 1;\n  \n\t\n\n");
    let mut code = original.clone();
    trim_trailing_blank_lines(&mut code);
    assert_eq!(code, chars("let x = 1;"));
    assert_eq!(original[code.len()], '\n');
    assert!(original[code.len()..].iter().all(|c| c.is_whitespace()));
}
