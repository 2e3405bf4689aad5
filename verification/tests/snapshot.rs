use abcom_ui::markdown::{MarkdownBlock, MarkdownSpan};
use abcom_ui::snapshot::{
    collapse_info, image_media_ids, thread_refresh, unique_authors, ThreadKey, COLLAPSE_CHARS,
    COLLAPSE_LINES, PREVIEW_CHARS, PREVIEW_LINES,
};
use abcom_ui::dates::{CalendarDate, UiLanguage};
use abcom_ui::text_map::TextMap;

#[test]
fn short_messages_are_not_folded() {
    let map: TextMap<usize> = TextMap::new();
    assert!(collapse_info("hello", &map).is_none());
    let exactly = "a".repeat(COLLAPSE_CHARS);
    assert!(collapse_info(&exactly, &map).is_none());
    let lines = vec!["l"; COLLAPSE_LINES].join("\n");
    assert!(collapse_info(&lines, &map).is_none());
}

#[test]
fn many_lines_are_folded_to_a_preview() {
    let map: TextMap<usize> = TextMap::new();
    let content: Vec<String> = (0..61).map(|i| format!("line{i}")).collect();
    let content = content.join("\n");
    let info = collapse_info(&content, &map).unwrap();
    assert_eq!(info.total_lines, 61);
    assert_eq!(info.total_chars, content.chars().count());
    let kept: Vec<String> = (0..PREVIEW_LINES).map(|i| format!("line{i}")).collect();
    let expected = format!("{} ...", kept.join("\n"));
    assert_eq!(
        info.preview.blocks,
        vec![MarkdownBlock::Paragraph(vec![MarkdownSpan::Text(expected)])]
    );
    assert!(!info.preview.emoji_only);
}

#[test]
fn long_text_is_cut_to_the_preview_length() {
    let map: TextMap<usize> = TextMap::new();
    let content = "é".repeat(COLLAPSE_CHARS + 1);
    let info = collapse_info(&content, &map).unwrap();
    assert_eq!(info.total_chars, COLLAPSE_CHARS + 1);
    assert_eq!(info.total_lines, 1);
    let expected = format!("{} ...", "é".repeat(PREVIEW_CHARS));
    assert_eq!(
        info.preview.blocks,
        vec![MarkdownBlock::Paragraph(vec![MarkdownSpan::Text(expected)])]
    );
}

fn key(conversation: Option<&str>, generation: u64) -> ThreadKey {
    ThreadKey {
        conversation: conversation.map(str::to_string),
        generation,
        language: UiLanguage::English,
        today: CalendarDate { year: 2025, month: 6, day: 3 },
        dark_mode: false,
    }
}

#[test]
fn the_thread_is_rebuilt_only_when_its_key_changes() {
    let mut built: Option<ThreadKey> = None;
    assert_eq!(thread_refresh(&mut built, key(Some("bob"), 1)), Some(true));
    assert_eq!(thread_refresh(&mut built, key(Some("bob"), 1)), None);
    assert_eq!(thread_refresh(&mut built, key(Some("bob"), 2)), Some(false));
    let mut dark = key(Some("bob"), 2);
    dark.dark_mode = true;
    assert_eq!(thread_refresh(&mut built, dark), Some(false));
    assert_eq!(thread_refresh(&mut built, key(None, 2)), Some(true));
    let mut tomorrow = key(None, 2);
    tomorrow.today = CalendarDate { year: 2025, month: 6, day: 4 };
    assert_eq!(thread_refresh(&mut built, tomorrow), Some(false));
}

#[test]
fn authors_are_sorted_and_distinct() {
    let froms: Vec<String> = ["carol", "alice", "carol", "bob", "alice"].iter().map(|s| s.to_string()).collect();
    assert_eq!(unique_authors(&froms), vec!["alice", "bob", "carol"]);
    assert!(unique_authors(&[]).is_empty());
}

#[test]
fn image_ids_are_kept_once_in_order() {
    let media = vec![
        ("b".to_string(), true),
        ("gif".to_string(), false),
        ("a".to_string(), true),
        ("b".to_string(), true),
    ];
    assert_eq!(image_media_ids(&media), vec!["b", "a"]);
}
