use abcom_ui::render::{inline_pieces, InlinePiece};
use abcom_ui::text_map::TextMap;

fn index() -> TextMap<usize> {
    let mut m = TextMap::new();
    m.insert("😀".to_string(), 0);
    m.insert("❤\u{fe0f}".to_string(), 1);
    m.insert("❤".to_string(), 2);
    m
}

#[test]
fn text_and_emoji_pieces() {
    assert_eq!(
        inline_pieces("hi 😀 you", &index()),
        vec![
            InlinePiece::Text("hi ".to_string()),
            InlinePiece::Emoji(0),
            InlinePiece::Text(" you".to_string()),
        ]
    );
}

#[test]
fn two_character_emoji_win_and_fillers_are_dropped() {
    assert_eq!(inline_pieces("❤\u{fe0f}❤", &index()), vec![InlinePiece::Emoji(1), InlinePiece::Emoji(2)]);
    assert_eq!(
        inline_pieces("a\u{200d}b\u{fe0f}", &index()),
        vec![InlinePiece::Text("ab".to_string())]
    );
    assert_eq!(inline_pieces("", &index()), vec![]);
}
