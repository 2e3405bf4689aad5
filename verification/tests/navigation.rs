use abcom_ui::navigation::{
    close_topmost_overlay, conversation_title, members_label, next_conversation, switch_conversation, ComposerFields, Drafts,
    Overlays,
};

fn composer(text: &str) -> ComposerFields {
    ComposerFields { text: text.to_string(), cursor_char: 3, selection_anchor: Some(1), has_focus: true }
}

#[test]
fn drafts_are_kept_per_conversation() {
    let mut drafts = Drafts::new();
    assert_eq!(drafts.load(&None), "");
    drafts.save(&None, "public");
    drafts.save(&Some("bob".to_string()), "to bob");
    assert_eq!(drafts.load(&None), "public");
    assert_eq!(drafts.load(&Some("bob".to_string())), "to bob");
    assert_eq!(drafts.load(&Some("carol".to_string())), "");
}

#[test]
fn switching_keeps_and_restores_drafts() {
    let mut drafts = Drafts::new();
    let mut c = composer("hello bob");
    let bob = Some("bob".to_string());
    let team = Some("#team".to_string());
    switch_conversation(&mut drafts, &mut c, &bob, &team);
    assert_eq!(c.text, "");
    assert_eq!((c.cursor_char, c.selection_anchor, c.has_focus), (0, None, false));
    c.text = "team note".to_string();
    switch_conversation(&mut drafts, &mut c, &team, &bob);
    assert_eq!(c.text, "hello bob");
    switch_conversation(&mut drafts, &mut c, &bob, &team);
    assert_eq!(c.text, "team note");
}

#[test]
fn cycling_goes_round_in_sidebar_order() {
    let peers = vec!["alice".to_string(), "bob".to_string()];
    let groups = vec!["team".to_string()];
    assert_eq!(next_conversation(&peers, &groups, &None, 1), Some(Some("alice".to_string())));
    assert_eq!(next_conversation(&peers, &groups, &None, -1), Some(Some("#team".to_string())));
    assert_eq!(next_conversation(&peers, &groups, &Some("#team".to_string()), 1), Some(None));
    assert_eq!(next_conversation(&peers, &groups, &Some("bob".to_string()), -1), Some(Some("alice".to_string())));
    // An unknown conversation counts as the public thread.
    assert_eq!(next_conversation(&peers, &groups, &Some("zed".to_string()), 1), Some(Some("alice".to_string())));
    assert_eq!(next_conversation(&peers, &groups, &None, 9), Some(Some("alice".to_string())));
    assert_eq!(next_conversation(&peers, &groups, &None, -9), Some(Some("#team".to_string())));
}

#[test]
fn nothing_to_cycle_with_only_the_public_thread() {
    assert_eq!(next_conversation(&[], &[], &None, 1), None);
}

#[test]
fn escape_closes_the_topmost_overlay_first() {
    let mut o = Overlays {
        media_viewer: true,
        gif_picker: false,
        emoji_picker: true,
        settings: true,
        group_modal: false,
        search: true,
        rename_target: Some("team".to_string()),
        group_manage_target: None,
    };
    close_topmost_overlay(&mut o);
    assert!(!o.media_viewer && o.emoji_picker);
    close_topmost_overlay(&mut o);
    assert!(!o.emoji_picker && o.settings);
    close_topmost_overlay(&mut o);
    assert!(!o.settings && o.search);
    close_topmost_overlay(&mut o);
    assert!(!o.search);
    assert_eq!(o.rename_target, Some("team".to_string()));
    close_topmost_overlay(&mut o);
    assert_eq!(o.rename_target, None);
}

#[test]
fn titles_and_member_counts() {
    let none: Option<String> = None;
    assert_eq!(conversation_title(&Some("Bob".to_string()), &None, &Some("bob".to_string()), "Tous"), "Bob");
    assert_eq!(conversation_title(&none, &Some("Team".to_string()), &Some("#t1".to_string()), "Tous"), "Team");
    assert_eq!(conversation_title(&none, &none, &Some("#gone".to_string()), "Tous"), "#gone");
    assert_eq!(conversation_title(&none, &none, &none, "Tous"), "Tous");
    assert_eq!(members_label(1, "membre", "membres"), "1 membre");
    assert_eq!(members_label(0, "membre", "membres"), "0 membre");
    assert_eq!(members_label(12, "membre", "membres"), "12 membres");
}

#[test]
fn unread_badges() {
    assert_eq!(abcom_ui::navigation::unread_badge_text(0), None);
    assert_eq!(abcom_ui::navigation::unread_badge_text(7), Some("7".to_string()));
    assert_eq!(abcom_ui::navigation::unread_badge_text(99), Some("99".to_string()));
    assert_eq!(abcom_ui::navigation::unread_badge_text(100), Some("99+".to_string()));
}
