use abcom_ui::shortcode::{emoji_shortcode_trigger, shortcode_suggestions, suggestions_for_query};
use abcom_ui::text_map::TextMap;

// ── emoji_shortcode_trigger ─────────────────────────────────────

#[test]
fn trigger_no_colon() {
    assert!(emoji_shortcode_trigger("hello world", 11).is_none());
}

#[test]
fn trigger_colon_with_query() {
    let r = emoji_shortcode_trigger(":smi", 4);
    assert_eq!(r, Some((0, "smi".to_string())));
}

#[test]
fn trigger_colon_with_space_after() {
    // Space after colon → not a shortcode
    assert!(emoji_shortcode_trigger(": hello", 7).is_none());
}

#[test]
fn trigger_double_colon_completes() {
    // The last colon starts a new trigger with an empty query.
    let r = emoji_shortcode_trigger(":smile:", 7);
    assert!(r.is_some());
}

#[test]
fn trigger_cursor_at_start() {
    // cursor=0 → nothing before the cursor, no colon
    assert!(emoji_shortcode_trigger(":hello", 0).is_none());
}

#[test]
fn trigger_colon_start_position() {
    // "hi :smi" → colon at char 3
    let r = emoji_shortcode_trigger("hi :smi", 7);
    assert_eq!(r, Some((3, "smi".to_string())));
}

#[test]
fn trigger_empty_query_at_colon() {
    // Cursor right after colon → empty query
    let r = emoji_shortcode_trigger("hi :", 4);
    assert_eq!(r, Some((3, "".to_string())));
}

#[test]
fn trigger_counts_characters_not_bytes() {
    // "é" takes two bytes but is one character.
    let r = emoji_shortcode_trigger("é :ok", 5);
    assert_eq!(r, Some((2, "ok".to_string())));
}

#[test]
fn trigger_cursor_past_the_end_is_clamped() {
    let r = emoji_shortcode_trigger(":tada", 100);
    assert_eq!(r, Some((0, "tada".to_string())));
}

#[test]
fn trigger_stops_at_the_cursor() {
    // Only the text before the cursor counts: ":ab cd" with the cursor after "ab".
    let r = emoji_shortcode_trigger(":ab cd", 3);
    assert_eq!(r, Some((0, "ab".to_string())));
}

// ── shortcode_suggestions ───────────────────────────────────────

fn make_index() -> (TextMap<String>, Vec<String>) {
    let mut m = TextMap::new();
    m.insert("smile".to_string(), "😊".to_string());
    m.insert("smirk".to_string(), "😏".to_string());
    m.insert("heart".to_string(), "❤️".to_string());
    m.insert("sob".to_string(), "😭".to_string());
    let mut aliases: Vec<String> = m.keys();
    aliases.sort();
    (m, aliases)
}

#[test]
fn suggestions_no_trigger_returns_empty() {
    let (m, aliases) = make_index();
    let result = shortcode_suggestions("no colon here", 13, &m, &aliases, 10);
    assert!(result.is_empty());
}

#[test]
fn suggestions_empty_query_returns_empty() {
    let (m, aliases) = make_index();
    // cursor right after colon → empty query → no suggestions
    let result = shortcode_suggestions(":", 1, &m, &aliases, 10);
    assert!(result.is_empty());
}

#[test]
fn suggestions_prefix_match() {
    let (m, aliases) = make_index();
    let result = shortcode_suggestions(":smi", 4, &m, &aliases, 10);
    assert_eq!(result.len(), 2); // smile + smirk
    let names: Vec<&str> = result.iter().map(|(a, _)| a.as_str()).collect();
    assert!(names.contains(&"smile"));
    assert!(names.contains(&"smirk"));
}

#[test]
fn suggestions_exact_match() {
    let (m, aliases) = make_index();
    let result = shortcode_suggestions(":heart", 6, &m, &aliases, 10);
    assert_eq!(result.len(), 1);
    assert_eq!(result[0].0, "heart");
    assert_eq!(result[0].1, "❤️");
}

#[test]
fn suggestions_respects_limit() {
    let (m, aliases) = make_index();
    // "s" matches smile, smirk, sob → 3 matches, limit to 2
    let result = shortcode_suggestions(":s", 2, &m, &aliases, 2);
    assert_eq!(result.len(), 2);
}

#[test]
fn suggestions_no_match_returns_empty() {
    let (m, aliases) = make_index();
    let result = shortcode_suggestions(":xyz", 4, &m, &aliases, 10);
    assert!(result.is_empty());
}

#[test]
fn suggestions_come_in_alias_order_with_their_emoji() {
    let (m, aliases) = make_index();
    let result = shortcode_suggestions(":s", 2, &m, &aliases, 10);
    assert_eq!(
        result,
        vec![
            ("smile".to_string(), "😊".to_string()),
            ("smirk".to_string(), "😏".to_string()),
            ("sob".to_string(), "😭".to_string()),
        ]
    );
}

#[test]
fn suggestions_skip_aliases_missing_from_the_index() {
    let (m, mut aliases) = make_index();
    // An alias listed without an emoji counts toward the limit but gives nothing.
    aliases.insert(0, "sad".to_string());
    let result = suggestions_for_query("s", &m, &aliases, 2);
    assert_eq!(result, vec![("smile".to_string(), "😊".to_string())]);
}

#[test]
fn suggestions_law_every_result_starts_with_the_query() {
    let (m, aliases) = make_index();
    let result = shortcode_suggestions(":sm", 3, &m, &aliases, 5);
    assert!(result.len() <= 5);
    for (alias, emoji) in &result {
        assert!(alias.starts_with("sm"));
        assert_eq!(m.get(alias.as_str()), Some(emoji));
    }
}
