use abcom_ui::chat::{
    clean_alias, find_network, online_seen_count, saved_alias, conversation_label, conversation_of, elide, needs_init, network_base_name,
    should_send_message, starts_new_group, subnet_label, update_recent_emojis, GROUP_BREAK_SECS,
};

#[test]
fn new_author_starts_a_group() {
    assert!(starts_new_group(Some("alice"), Some(100), "bob", Some(101), false));
    assert!(starts_new_group(None, None, "bob", None, false));
}

#[test]
fn same_author_close_in_time_continues_the_group() {
    assert!(!starts_new_group(Some("alice"), Some(100), "alice", Some(100 + GROUP_BREAK_SECS), false));
    assert!(starts_new_group(Some("alice"), Some(100), "alice", Some(101 + GROUP_BREAK_SECS), false));
}

#[test]
fn day_change_or_missing_instants() {
    assert!(starts_new_group(Some("alice"), Some(100), "alice", Some(101), true));
    assert!(!starts_new_group(Some("alice"), None, "alice", Some(10_000), false));
    // An earlier instant never opens a group by itself.
    assert!(!starts_new_group(Some("alice"), Some(10_000), "alice", Some(5), false));
}

#[test]
fn send_only_non_blank_text_on_enter() {
    assert!(should_send_message(true, false, false, "hi"));
    assert!(should_send_message(false, true, false, "hi"));
    assert!(!should_send_message(false, true, true, "hi"));
    assert!(!should_send_message(true, false, false, " \n\t "));
    assert!(!should_send_message(false, false, false, "hi"));
}

#[test]
fn recent_emojis_move_to_the_front() {
    let mut recent = vec!["a".to_string(), "b".to_string(), "c".to_string()];
    update_recent_emojis(&mut recent, "c", 3);
    assert_eq!(recent, vec!["c", "a", "b"]);
    update_recent_emojis(&mut recent, "d", 3);
    assert_eq!(recent, vec!["d", "c", "a"]);
}

#[test]
fn recent_emojis_law_using_twice_is_using_once() {
    let mut once = vec!["x".to_string(), "y".to_string()];
    update_recent_emojis(&mut once, "y", 5);
    let mut twice = once.clone();
    update_recent_emojis(&mut twice, "y", 5);
    assert_eq!(once, twice);
    assert_eq!(once[0], "y");
}

#[test]
fn recent_emojis_with_no_room() {
    let mut recent = vec!["x".to_string()];
    update_recent_emojis(&mut recent, "y", 0);
    assert!(recent.is_empty());
}

#[test]
fn elide_long_text_with_an_ellipsis() {
    assert_eq!(elide("hello", 10), "hello");
    assert_eq!(elide("hello", 5), "hello");
    assert_eq!(elide("hello world", 6), "hello…");
    assert_eq!(elide("héllo", 3), "hé…");
    assert_eq!(elide("abc", 0), "…");
}

#[test]
fn conversation_of_private_messages_from_both_sides() {
    assert_eq!(conversation_of("alice", Some("bob"), "alice"), Some("bob".to_string()));
    assert_eq!(conversation_of("alice", Some("bob"), "bob"), Some("alice".to_string()));
    assert_eq!(conversation_of("alice", Some("#team"), "carol"), Some("#team".to_string()));
    assert_eq!(conversation_of("alice", None, "bob"), None);
}

#[test]
fn labels_of_conversations_and_networks() {
    assert_eq!(conversation_label(&None), "Tous");
    assert_eq!(conversation_label(&Some("bob".to_string())), "bob");
    assert_eq!(subnet_label("192.168.1", "?"), "192.168.1.x");
    assert_eq!(subnet_label("", "inconnu"), "inconnu");
    assert_eq!(network_base_name("home", "10.0.0", "?"), "home");
    assert_eq!(network_base_name("", "10.0.0", "?"), "10.0.0.x");
}

#[test]
fn aliases_are_trimmed_and_blank_ones_dropped() {
    assert_eq!(clean_alias(Some("  Bob  ")), Some("Bob".to_string()));
    assert_eq!(clean_alias(Some("   ")), None);
    assert_eq!(clean_alias(None), None);
}

#[test]
fn gif_feed_loads_once() {
    assert!(needs_init(true, 0));
    assert!(!needs_init(true, 3));
    assert!(!needs_init(false, 0));
}

#[test]
fn typing_indicator() {
    assert_eq!(abcom_ui::chat::typing_label(&[], "écrit"), None);
    assert_eq!(
        abcom_ui::chat::typing_label(&["bob".to_string()], "est en train d'écrire"),
        Some("bob est en train d'écrire".to_string())
    );
    assert_eq!(
        abcom_ui::chat::typing_label(&["bob".to_string(), "carol".to_string()], "typing"),
        Some("bob, carol typing".to_string())
    );
}

#[test]
fn online_peers_of_a_network_are_counted() {
    let seen: Vec<String> = vec!["bob".into(), "carol".into(), "dave".into(), "bob".into()];
    let peers = vec![("bob".to_string(), true), ("carol".to_string(), false), ("erin".to_string(), true)];
    assert_eq!(online_seen_count(&seen, &peers), 2);
    assert_eq!(online_seen_count(&[], &peers), 0);
}

#[test]
fn saving_a_network_alias() {
    assert_eq!(saved_alias(true, "Home"), None);
    assert_eq!(saved_alias(false, "  Home  "), Some("Home".to_string()));
    assert_eq!(saved_alias(false, "   "), None);
    let ids: Vec<String> = vec!["a".into(), "b".into(), "b".into()];
    assert_eq!(find_network(&ids, "b"), Some(1));
    assert_eq!(find_network(&ids, "z"), None);
}
