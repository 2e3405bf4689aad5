use abcom_ui::composer::{
    accept_selected_shortcode, apply_composer_event, clear_selection, composer_frame, enter_key_action,
    normalize_paste, replace_selection, selection_range, settle_composer, ComposerEvent,
    ComposerKey, ComposerOutcome, EnterKeyAction, KeyModifiers, MAX_INPUT_CHARS,
};
use abcom_ui::text_map::TextMap;

fn none() -> KeyModifiers {
    KeyModifiers { alt: false, ctrl: false, shift: false, mac_cmd: false, command: false }
}

fn shift() -> KeyModifiers {
    KeyModifiers { shift: true, ..none() }
}

fn ctrl() -> KeyModifiers {
    KeyModifiers { ctrl: true, ..none() }
}

struct Composer {
    text: String,
    cursor: usize,
    anchor: Option<usize>,
    index: TextMap<String>,
    aliases: Vec<String>,
}

impl Composer {
    fn new(text: &str, cursor: usize) -> Composer {
        let mut index = TextMap::new();
        index.insert("smile".to_string(), "😊".to_string());
        index.insert("smirk".to_string(), "😏".to_string());
        let aliases = vec!["smile".to_string(), "smirk".to_string()];
        Composer { text: text.to_string(), cursor, anchor: None, index, aliases }
    }

    fn apply(&mut self, event: ComposerEvent, menu_open: bool, selected: usize) -> ComposerOutcome {
        apply_composer_event(
            &mut self.text,
            &mut self.cursor,
            &mut self.anchor,
            event,
            menu_open,
            &self.index,
            &self.aliases,
            selected,
        )
    }

    fn key(&mut self, key: ComposerKey, modifiers: KeyModifiers) -> ComposerOutcome {
        self.apply(ComposerEvent::Key { key, modifiers }, false, 0)
    }
}

#[test]
fn enter_actions() {
    assert_eq!(enter_key_action(false, none()), EnterKeyAction::InsertNewline);
    assert_eq!(enter_key_action(true, none()), EnterKeyAction::AcceptShortcode);
    assert_eq!(enter_key_action(true, shift()), EnterKeyAction::InsertNewline);
    assert_eq!(enter_key_action(true, ctrl()), EnterKeyAction::Submit);
    assert_eq!(enter_key_action(false, KeyModifiers { command: true, ..none() }), EnterKeyAction::Submit);
}

#[test]
fn pasted_line_endings_become_newlines() {
    assert_eq!(normalize_paste("a\r\nb\rc\n"), "a\nb\nc\n");
    assert_eq!(normalize_paste("\r\r\n"), "\n\n");
}

#[test]
fn selection_is_ordered_and_never_empty() {
    assert_eq!(selection_range(Some(5), 2), Some((2, 5)));
    assert_eq!(selection_range(Some(1), 4), Some((1, 4)));
    assert_eq!(selection_range(Some(3), 3), None);
    assert_eq!(selection_range(None, 3), None);
    let mut anchor = Some(4);
    clear_selection(&mut anchor);
    assert_eq!(anchor, None);
}

#[test]
fn replacing_the_selection() {
    let mut text = "hello world".to_string();
    let mut cursor = 11;
    let mut anchor = Some(6);
    assert!(replace_selection(&mut text, &mut cursor, &mut anchor, "there"));
    assert_eq!(text, "hello there");
    assert_eq!(cursor, 11);
    assert_eq!(anchor, None);
    assert!(!replace_selection(&mut text, &mut cursor, &mut anchor, "x"));
    assert_eq!(text, "hello there");
}

#[test]
fn accepting_the_selected_shortcode() {
    let c = Composer::new("hi :smi", 7);
    let mut text = c.text.clone();
    let mut cursor = c.cursor;
    assert!(accept_selected_shortcode(&mut text, &mut cursor, &c.index, &c.aliases, 1));
    assert_eq!(text, "hi 😏");
    assert_eq!(cursor, 4);
    let mut text = "hi :zz".to_string();
    let mut cursor = 6;
    assert!(!accept_selected_shortcode(&mut text, &mut cursor, &c.index, &c.aliases, 0));
    assert_eq!(text, "hi :zz");
}

#[test]
fn typing_inserts_at_the_cursor_and_drops_newlines() {
    let mut c = Composer::new("helo", 3);
    let r = c.apply(ComposerEvent::Text("l".to_string()), false, 0);
    assert!(r.changed);
    assert_eq!(c.text, "hello");
    assert_eq!(c.cursor, 4);
    let r = c.apply(ComposerEvent::Text("x\ny".to_string()), false, 0);
    assert!(!r.changed);
    assert_eq!(c.text, "hello");
}

#[test]
fn typing_replaces_the_selection() {
    let mut c = Composer::new("hello world", 0);
    c.anchor = Some(5);
    c.apply(ComposerEvent::Text("HEY".to_string()), false, 0);
    assert_eq!(c.text, "HEY world");
    assert_eq!(c.cursor, 3);
    assert_eq!(c.anchor, None);
}

#[test]
fn typing_stops_at_the_input_cap() {
    let mut c = Composer::new(&"a".repeat(MAX_INPUT_CHARS - 1), MAX_INPUT_CHARS - 1);
    c.apply(ComposerEvent::Text("xyz".to_string()), false, 0);
    assert_eq!(c.text.chars().count(), MAX_INPUT_CHARS);
    assert!(c.text.ends_with('x'));
}

#[test]
fn paste_normalizes_and_overflow_is_handed_back() {
    let mut c = Composer::new("ab", 1);
    let r = c.apply(ComposerEvent::Paste("1\r\n2".to_string()), false, 0);
    assert!(r.changed);
    assert_eq!(c.text, "a1\n2b");
    assert_eq!(c.cursor, 4);
    let big = "z".repeat(MAX_INPUT_CHARS);
    let r = c.apply(ComposerEvent::Paste(big.clone()), false, 0);
    assert!(!r.changed);
    assert_eq!(r.overflow_paste, Some(big));
    assert_eq!(c.text, "a1\n2b");
}

#[test]
fn enter_inserts_a_newline_or_submits() {
    let mut c = Composer::new("ab", 1);
    let r = c.key(ComposerKey::Enter, none());
    assert!(r.changed && !r.submit);
    assert_eq!(c.text, "a\nb");
    let r = c.key(ComposerKey::Enter, ctrl());
    assert!(r.submit && !r.changed);
    assert_eq!(c.text, "a\nb");
}

#[test]
fn enter_with_the_menu_open_accepts_a_suggestion() {
    let mut c = Composer::new("hi :smi", 7);
    let r = c.apply(ComposerEvent::Key { key: ComposerKey::Enter, modifiers: none() }, true, 5);
    assert!(r.changed);
    // A selection past the end takes the last suggestion.
    assert_eq!(c.text, "hi 😏");
    assert_eq!(c.cursor, 4);
}

#[test]
fn tab_completes_the_first_suggestion() {
    let mut c = Composer::new(":sm and", 3);
    let r = c.key(ComposerKey::Tab, none());
    assert!(r.changed);
    assert_eq!(c.text, "😊 and");
    assert_eq!(c.cursor, 1);
    let r = c.key(ComposerKey::Tab, none());
    assert!(!r.changed);
}

#[test]
fn backspace_and_delete() {
    let mut c = Composer::new("hello big world", 9);
    c.key(ComposerKey::Backspace, none());
    assert_eq!(c.text, "hello bi world");
    assert_eq!(c.cursor, 8);
    c.key(ComposerKey::Backspace, ctrl());
    assert_eq!(c.text, "hello  world");
    assert_eq!(c.cursor, 6);
    c.key(ComposerKey::Delete, none());
    assert_eq!(c.text, "hello world");
    c.key(ComposerKey::Delete, ctrl());
    assert_eq!(c.text, "hello ");
    let mut start = Composer::new("abc", 0);
    let r = start.key(ComposerKey::Backspace, none());
    assert!(!r.changed);
    assert_eq!(start.text, "abc");
}

#[test]
fn command_backspace_deletes_to_the_line_start() {
    let mut c = Composer::new("one\ntwo three", 13);
    c.key(ComposerKey::Backspace, KeyModifiers { mac_cmd: true, ..none() });
    assert_eq!(c.text, "one\n");
    assert_eq!(c.cursor, 4);
}

#[test]
fn arrows_move_and_shift_selects() {
    let mut c = Composer::new("hello world", 5);
    c.key(ComposerKey::ArrowRight, shift());
    c.key(ComposerKey::ArrowRight, shift());
    assert_eq!(c.cursor, 7);
    assert_eq!(c.anchor, Some(5));
    let r = c.apply(ComposerEvent::Copy, false, 0);
    assert_eq!(r.copied, Some(" w".to_string()));
    c.key(ComposerKey::ArrowLeft, none());
    assert_eq!(c.cursor, 6);
    assert_eq!(c.anchor, None);
    c.key(ComposerKey::ArrowLeft, ctrl());
    assert_eq!(c.cursor, 0);
    c.key(ComposerKey::End, none());
    assert_eq!(c.cursor, 11);
    c.key(ComposerKey::Home, shift());
    assert_eq!((c.cursor, c.anchor), (0, Some(11)));
}

#[test]
fn vertical_arrows_take_the_layout_position() {
    let mut c = Composer::new("ab\ncd", 4);
    c.key(ComposerKey::ArrowUp(Some(1)), none());
    assert_eq!(c.cursor, 1);
    c.key(ComposerKey::ArrowDown(None), none());
    assert_eq!(c.cursor, 1);
    let r = c.apply(ComposerEvent::Key { key: ComposerKey::ArrowDown(Some(4)), modifiers: none() }, true, 0);
    assert!(!r.changed);
    assert_eq!(c.cursor, 1);
}

#[test]
fn select_all_then_cut() {
    let mut c = Composer::new("abc", 1);
    c.key(ComposerKey::A, ctrl());
    assert_eq!((c.cursor, c.anchor), (3, Some(0)));
    let r = c.apply(ComposerEvent::Cut, false, 0);
    assert!(r.changed);
    assert_eq!(r.copied, Some("abc".to_string()));
    assert_eq!(c.text, "");
    assert_eq!(c.cursor, 0);
    let r = c.apply(ComposerEvent::Cut, false, 0);
    assert!(!r.changed);
    assert_eq!(r.copied, None);
}

#[test]
fn settling_brings_cursor_and_anchor_back_into_the_text() {
    let mut cursor = 10;
    let mut anchor = Some(8);
    settle_composer("abc", &mut cursor, &mut anchor);
    assert_eq!((cursor, anchor), (3, Some(3)));
    let mut cursor = 1;
    let mut anchor = None;
    settle_composer("abc", &mut cursor, &mut anchor);
    assert_eq!((cursor, anchor), (1, None));
}

#[test]
fn composer_law_text_changes_only_when_reported() {
    let events = vec![
        ComposerEvent::Copy,
        ComposerEvent::Key { key: ComposerKey::ArrowLeft, modifiers: shift() },
        ComposerEvent::Key { key: ComposerKey::Home, modifiers: none() },
        ComposerEvent::Key { key: ComposerKey::Other, modifiers: none() },
        ComposerEvent::Text("z".to_string()),
        ComposerEvent::Key { key: ComposerKey::Delete, modifiers: none() },
    ];
    let mut c = Composer::new("abc def", 4);
    for event in events {
        let before = c.text.clone();
        let r = c.apply(event, false, 0);
        if !r.changed {
            assert_eq!(c.text, before);
        }
        assert!(c.cursor <= c.text.chars().count());
    }
}

#[test]
fn backspace_law_undoes_one_typed_character() {
    let mut c = Composer::new("héllo", 2);
    c.apply(ComposerEvent::Text("x".to_string()), false, 0);
    assert_eq!(c.text, "héxllo");
    c.key(ComposerKey::Backspace, none());
    assert_eq!((c.text.as_str(), c.cursor, c.anchor), ("héllo", 2, None));
}

fn long_emoji_index() -> (TextMap<String>, Vec<String>) {
    let mut index = TextMap::new();
    index.insert("ab".to_string(), "🙂🙂🙂🙂🙂".to_string());
    (index, vec!["ab".to_string()])
}

#[test]
fn completion_that_would_pass_the_cap_is_refused() {
    let (index, aliases) = long_emoji_index();
    let mut text = "x".repeat(MAX_INPUT_CHARS - 2);
    text.push_str(":a");
    let mut cursor = MAX_INPUT_CHARS;
    let mut anchor = None;
    let r = apply_composer_event(
        &mut text,
        &mut cursor,
        &mut anchor,
        ComposerEvent::Key { key: ComposerKey::Tab, modifiers: none() },
        false,
        &index,
        &aliases,
        0,
    );
    assert!(!r.changed);
    assert_eq!(text.chars().count(), MAX_INPUT_CHARS);
    assert_eq!(cursor, MAX_INPUT_CHARS);
    let r = apply_composer_event(
        &mut text,
        &mut cursor,
        &mut anchor,
        ComposerEvent::Key { key: ComposerKey::Enter, modifiers: none() },
        true,
        &index,
        &aliases,
        0,
    );
    assert!(!r.changed && !r.submit);
    assert_eq!(text.chars().count(), MAX_INPUT_CHARS);
}

#[test]
fn completion_within_the_cap_goes_through() {
    let (index, aliases) = long_emoji_index();
    let mut text = "hi :a".to_string();
    let mut cursor = 5;
    let mut anchor = None;
    let r = apply_composer_event(
        &mut text,
        &mut cursor,
        &mut anchor,
        ComposerEvent::Key { key: ComposerKey::Tab, modifiers: none() },
        false,
        &index,
        &aliases,
        0,
    );
    assert!(r.changed);
    assert_eq!(text, "hi 🙂🙂🙂🙂🙂");
    assert_eq!(cursor, 8);
}

#[test]
fn a_frame_settles_and_applies_its_events_in_turn() {
    let (index, aliases) = long_emoji_index();
    let mut text = "abc".to_string();
    let mut cursor = 10;
    let mut anchor = Some(7);
    let events = vec![
        ComposerEvent::Text("d".to_string()),
        ComposerEvent::Key { key: ComposerKey::ArrowUp(Some(99)), modifiers: none() },
        ComposerEvent::Key { key: ComposerKey::Backspace, modifiers: none() },
    ];
    let outcomes = composer_frame(&mut text, &mut cursor, &mut anchor, events, false, &index, &aliases, 0);
    assert_eq!(outcomes.len(), 3);
    assert!(outcomes[0].changed && !outcomes[1].changed && outcomes[2].changed);
    assert_eq!(text, "abc");
    assert_eq!(cursor, 3);
    assert_eq!(anchor, None);
}
