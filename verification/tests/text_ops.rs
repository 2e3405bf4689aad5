use abcom_ui::text_ops::{
    char_prefix, char_range_string, char_to_byte_idx, insert_emoji_at_cursor,
    insert_text_at_cursor, line_end, line_start, next_word_end, prev_word_start,
    replace_char_range,
};

#[test]
fn byte_index_of_ascii_characters() {
    assert_eq!(char_to_byte_idx("hello", 0), 0);
    assert_eq!(char_to_byte_idx("hello", 3), 3);
}

#[test]
fn byte_index_counts_multibyte_characters() {
    // "é" is two bytes, "😀" four.
    assert_eq!(char_to_byte_idx("é😀a", 1), 2);
    assert_eq!(char_to_byte_idx("é😀a", 2), 6);
    assert_eq!(char_to_byte_idx("é😀a", 3), 7);
}

#[test]
fn byte_index_past_the_end_is_the_byte_length() {
    assert_eq!(char_to_byte_idx("é😀a", 99), "é😀a".len());
    assert_eq!(char_to_byte_idx("", 5), 0);
}

#[test]
fn byte_offsets_increase_with_the_character_index() {
    let text = "aé😀b";
    let mut last = 0;
    for i in 1..=4 {
        let b = char_to_byte_idx(text, i);
        assert!(b > last);
        last = b;
    }
    assert_eq!(last, text.len());
}

#[test]
fn insert_in_the_middle_moves_the_cursor() {
    let mut text = "hello world".to_string();
    let mut cursor = 5;
    insert_text_at_cursor(&mut text, &mut cursor, ",");
    assert_eq!(text, "hello, world");
    assert_eq!(cursor, 6);
}

#[test]
fn insert_after_multibyte_text() {
    let mut text = "ça va".to_string();
    let mut cursor = 2;
    insert_text_at_cursor(&mut text, &mut cursor, "é");
    assert_eq!(text, "çaé va");
    assert_eq!(cursor, 3);
}

#[test]
fn insert_past_the_end_appends() {
    let mut text = "abc".to_string();
    let mut cursor = 10;
    insert_text_at_cursor(&mut text, &mut cursor, "de");
    assert_eq!(text, "abcde");
    assert_eq!(cursor, 12);
}

#[test]
fn insert_emoji_counts_one_character() {
    let mut text = "hi ".to_string();
    let mut cursor = 3;
    insert_emoji_at_cursor(&mut text, &mut cursor, "😀");
    assert_eq!(text, "hi 😀");
    assert_eq!(cursor, 4);
}

#[test]
fn insert_then_remove_gives_the_text_back() {
    let mut text = "abc".to_string();
    let mut cursor = 1;
    insert_text_at_cursor(&mut text, &mut cursor, "XY");
    assert_eq!(char_range_string(&text, 1, 3), "XY");
    replace_char_range(&mut text, &mut cursor, 1, 3, "");
    assert_eq!(text, "abc");
    assert_eq!(cursor, 1);
}

#[test]
fn replace_a_range_puts_the_cursor_after_the_replacement() {
    let mut text = "hi :smile: there".to_string();
    let mut cursor = 10;
    replace_char_range(&mut text, &mut cursor, 3, 10, "😊");
    assert_eq!(text, "hi 😊 there");
    assert_eq!(cursor, 4);
}

#[test]
fn replace_clamps_the_end_to_the_text() {
    let mut text = "abcdef".to_string();
    let mut cursor = 0;
    replace_char_range(&mut text, &mut cursor, 4, 50, "!");
    assert_eq!(text, "abcd!");
    assert_eq!(cursor, 5);
}

#[test]
fn char_range_of_unicode_text() {
    assert_eq!(char_range_string("aé😀bc", 1, 3), "é😀");
    assert_eq!(char_range_string("abc", 2, 1), "");
    assert_eq!(char_range_string("abc", 1, 99), "bc");
    assert_eq!(char_range_string("abc", 7, 9), "");
}

#[test]
fn char_prefix_never_cuts_a_character() {
    assert_eq!(char_prefix("é😀abc", 2), "é😀");
    assert_eq!(char_prefix("abc", 10), "abc");
    assert_eq!(char_prefix("abc", 0), "");
}

#[test]
fn previous_word_start_skips_blanks_then_the_word() {
    assert_eq!(prev_word_start("hello big world", 15), 10);
    assert_eq!(prev_word_start("hello big world  ", 17), 10);
    assert_eq!(prev_word_start("hello big world", 8), 6);
    assert_eq!(prev_word_start("hello", 0), 0);
    assert_eq!(prev_word_start("hello", 99), 0);
}

#[test]
fn next_word_end_skips_blanks_then_the_word() {
    assert_eq!(next_word_end("hello big world", 0), 5);
    assert_eq!(next_word_end("hello big world", 5), 9);
    assert_eq!(next_word_end("hello   ", 5), 8);
    assert_eq!(next_word_end("hello", 99), 5);
}

#[test]
fn word_bounds_law_land_on_white_space_or_the_ends() {
    let text = "one two\tthree";
    let chars: Vec<char> = text.chars().collect();
    for cursor in 0..=chars.len() {
        let start = prev_word_start(text, cursor);
        assert!(start <= cursor);
        assert!(start == 0 || chars[start - 1].is_whitespace());
        let end = next_word_end(text, cursor);
        assert!(cursor <= end && end <= chars.len());
        assert!(end == chars.len() || chars[end].is_whitespace());
    }
}

#[test]
fn line_bounds_of_the_middle_line() {
    let text = "first\nsecond line\nthird";
    assert_eq!(line_start(text, 9), 6);
    assert_eq!(line_end(text, 9), 17);
}

#[test]
fn line_bounds_at_the_ends() {
    let text = "ab\ncd";
    assert_eq!(line_start(text, 0), 0);
    assert_eq!(line_end(text, 0), 2);
    assert_eq!(line_start(text, 5), 3);
    assert_eq!(line_end(text, 5), 5);
    assert_eq!(line_end(text, 99), 5);
    // Just after a newline the line starts there.
    assert_eq!(line_start(text, 3), 3);
}

#[test]
fn line_bounds_law_enclose_the_cursor_and_are_stable() {
    let text = "a\n\nbc\nd";
    let chars: Vec<char> = text.chars().collect();
    for cursor in 0..=chars.len() {
        let s = line_start(text, cursor);
        let e = line_end(text, cursor);
        assert!(s <= cursor && cursor <= e);
        assert!(chars[s..e].iter().all(|c| *c != '\n'));
        assert_eq!(line_start(text, s), s);
        assert_eq!(line_end(text, e), e);
    }
}
