use abcom_ui::emoji_picker::{
    build_emoji_shortcode_index, github_key_to_emoji, index_from_table, match_emoji_at,
    shortcode_suggestions, TableAliases,
};
use abcom_ui::text_map::TextMap;

#[test]
fn github_keys_become_emoji() {
    assert_eq!(github_key_to_emoji("1f600"), Some("😀".to_string()));
    assert_eq!(github_key_to_emoji("1f1eb-1f1f7"), Some("🇫🇷".to_string()));
    assert_eq!(github_key_to_emoji("2764-fe0f"), Some("❤\u{fe0f}".to_string()));
    assert_eq!(github_key_to_emoji("zz"), None);
    assert_eq!(github_key_to_emoji("d800"), None);
    assert_eq!(github_key_to_emoji(""), None);
    assert_eq!(github_key_to_emoji("1f600-"), None);
}

#[test]
fn index_from_the_json_table() {
    let available = vec!["😀".to_string(), "❤\u{fe0f}".to_string()];
    let json = r#"{"1f600": ["grinning", "smiley_face", 3], "2764-fe0f": "heart", "1f4a9": ["poop"], "xyz": ["bad"]}"#;
    let (index, aliases) = build_emoji_shortcode_index(&available, json);
    assert_eq!(aliases, vec!["grinning", "heart", "smiley_face"]);
    assert_eq!(index.get("grinning"), Some(&"😀".to_string()));
    assert_eq!(index.get("heart"), Some(&"❤\u{fe0f}".to_string()));
    assert_eq!(index.get("poop"), None);
}

#[test]
fn unreadable_table_gives_an_empty_index() {
    let (index, aliases) = build_emoji_shortcode_index(&["😀".to_string()], "not json");
    assert!(aliases.is_empty());
    assert!(index.keys().is_empty());
    let (_, aliases) = build_emoji_shortcode_index(&["😀".to_string()], "[1, 2]");
    assert!(aliases.is_empty());
}

#[test]
fn later_entries_win_and_aliases_are_sorted() {
    let available = vec!["😀".to_string(), "😃".to_string()];
    let table = vec![
        ("1f600".to_string(), TableAliases::List(vec![Some("smile".to_string()), None])),
        ("1f603".to_string(), TableAliases::One("smile".to_string())),
        ("1f603".to_string(), TableAliases::Other),
        ("1f600".to_string(), TableAliases::One("a_first".to_string())),
    ];
    let (index, aliases) = index_from_table(&table, &available);
    assert_eq!(index.get("smile"), Some(&"😃".to_string()));
    assert_eq!(aliases, vec!["a_first", "smile"]);
}

#[test]
fn emoji_are_matched_two_characters_first() {
    let mut map: TextMap<usize> = TextMap::new();
    map.insert("❤".to_string(), 1);
    map.insert("❤\u{fe0f}".to_string(), 2);
    let chars: Vec<char> = "a❤\u{fe0f}❤".chars().collect();
    assert_eq!(match_emoji_at(&chars, 0, &map), None);
    assert_eq!(match_emoji_at(&chars, 1, &map), Some((2, 2)));
    assert_eq!(match_emoji_at(&chars, 3, &map), Some((1, 1)));
    assert_eq!(match_emoji_at(&chars, 9, &map), None);
}

#[test]
fn picker_suggestions_accept_an_empty_query() {
    let mut map = TextMap::new();
    map.insert("smile".to_string(), "😊".to_string());
    map.insert("heart".to_string(), "❤".to_string());
    let aliases = vec!["heart".to_string(), "smile".to_string()];
    let all = shortcode_suggestions("say :", 5, &map, &aliases, 10);
    assert_eq!(all.len(), 2);
    let one = shortcode_suggestions("say :sm", 7, &map, &aliases, 10);
    assert_eq!(one, vec![("smile".to_string(), "😊".to_string())]);
    assert!(shortcode_suggestions("say", 3, &map, &aliases, 10).is_empty());
}
