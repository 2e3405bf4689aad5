use abcom_ui::events::{
    accept_search_results, event_alert, groups_to_resync, incoming_message_plan,
    messages_to_acknowledge, older_messages_loaded, Alert, Attention,
    IncomingPlan, MessageHead,
};
use abcom_ui::groups::{Group, GroupsState};

fn groups() -> GroupsState {
    GroupsState {
        my_username: "me".to_string(),
        groups: vec![
            Group { name: "team".to_string(), owner: "me".to_string(), members: vec!["me".to_string(), "bob".to_string()] },
            Group { name: "club".to_string(), owner: "carol".to_string(), members: vec!["carol".to_string(), "me".to_string(), "bob".to_string()] },
            Group { name: "solo".to_string(), owner: "me".to_string(), members: vec!["me".to_string()] },
        ],
    }
}

fn attention(hidden: bool) -> Attention {
    Attention {
        window_focused: !hidden,
        window_hidden: hidden,
        sound_enabled: true,
        preview: true,
        new_message_label: "Nouveau message".to_string(),
    }
}

#[test]
fn messages_of_unknown_rooms_are_dropped() {
    let plan = incoming_message_plan(&groups(), "zed", &Some("#team".to_string()), "hi", &None, &[], &attention(false));
    assert!(plan.dropped);
    assert_eq!(plan.alert, Alert::Silent);
    let plan = incoming_message_plan(&groups(), "bob", &Some("#nope".to_string()), "hi", &None, &[], &attention(false));
    assert!(plan.dropped);
}

#[test]
fn a_room_message_from_a_member_beeps_when_not_open() {
    let plan = incoming_message_plan(&groups(), "bob", &Some("#team".to_string()), "hi", &None, &[], &attention(false));
    assert_eq!(
        plan,
        IncomingPlan {
            dropped: false,
            send_acks: true,
            send_read_receipts: false,
            notification: Some("#team · bob: hi".to_string()),
            mark_unread: true,
            alert: Alert::Sound,
        }
    );
}

#[test]
fn the_open_conversation_is_read_and_does_not_beep() {
    let selected = Some("bob".to_string());
    let plan = incoming_message_plan(&groups(), "bob", &Some("me".to_string()), "yo", &selected, &[], &attention(false));
    assert!(plan.send_read_receipts);
    assert_eq!(plan.notification, Some("bob: yo".to_string()));
    assert_eq!(plan.alert, Alert::Silent);
}

#[test]
fn hidden_window_gives_a_system_notification_unless_muted() {
    let plan = incoming_message_plan(&groups(), "bob", &None, "public hello", &None, &[], &attention(true));
    assert_eq!(plan.alert, Alert::Native { title: "bob".to_string(), body: "public hello".to_string() });
    assert!(!plan.send_read_receipts);
    let plan = incoming_message_plan(&groups(), "bob", &None, "public hello", &None, &[None], &attention(true));
    assert_eq!(plan.alert, Alert::Silent);
    let mut quiet = attention(true);
    quiet.preview = false;
    let plan = incoming_message_plan(&groups(), "bob", &None, "secret", &None, &[], &quiet);
    assert_eq!(plan.alert, Alert::Native { title: "bob".to_string(), body: "Nouveau message".to_string() });
}

#[test]
fn own_messages_are_only_recorded() {
    let plan = incoming_message_plan(&groups(), "me", &None, "mine", &None, &[], &attention(true));
    assert!(!plan.dropped && !plan.send_acks && !plan.mark_unread);
    assert_eq!(plan.notification, None);
    assert_eq!(plan.alert, Alert::Silent);
}

#[test]
fn owned_groups_are_sent_again_to_returning_members() {
    assert_eq!(groups_to_resync(&groups(), "bob"), vec![0]);
    assert_eq!(groups_to_resync(&groups(), "me"), vec![0, 2]);
    assert_eq!(groups_to_resync(&groups(), "zed"), Vec::<usize>::new());
}

#[test]
fn file_and_key_alerts() {
    assert_eq!(
        event_alert(true, true, "bob", "is sending you a file"),
        Alert::Native { title: "bob".to_string(), body: "is sending you a file".to_string() }
    );
    assert_eq!(event_alert(false, true, "x", "y"), Alert::Sound);
    assert_eq!(event_alert(false, false, "x", "y"), Alert::Silent);
}

fn head(from: &str, to: Option<&str>) -> MessageHead {
    MessageHead { from: from.to_string(), to_user: to.map(str::to_string) }
}

#[test]
fn opening_a_conversation_acknowledges_what_others_sent_in_it() {
    let msgs = vec![
        head("bob", Some("me")),
        head("me", Some("bob")),
        head("carol", Some("me")),
        head("bob", Some("#team")),
        head("bob", None),
        head("carol", Some("#team")),
        head("me", Some("#team")),
    ];
    assert_eq!(messages_to_acknowledge(&Some("bob".to_string()), "me", &msgs), vec![0]);
    assert_eq!(messages_to_acknowledge(&Some("#team".to_string()), "me", &msgs), vec![3, 5]);
    assert_eq!(messages_to_acknowledge(&None, "me", &msgs), vec![4]);
}

#[test]
fn search_results_of_an_older_query_are_dropped() {
    let mut results = vec![1, 2];
    assert!(!accept_search_results("ab", "abc", &mut results, vec![9]));
    assert_eq!(results, vec![1, 2]);
    assert!(accept_search_results("abc", "abc", &mut results, vec![9]));
    assert_eq!(results, vec![9]);
}

#[test]
fn older_pages_grow_the_window_until_history_ends() {
    let (mut visible, mut fix, mut loading) = (50usize, Some(3.5f32), true);
    older_messages_loaded(20, &mut visible, &mut fix, &mut loading);
    assert_eq!((visible, fix, loading), (70, Some(3.5), false));
    loading = true;
    older_messages_loaded(0, &mut visible, &mut fix, &mut loading);
    assert_eq!((visible, fix, loading), (70, None, false));
}
