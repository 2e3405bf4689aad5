use abcom_ui::dates::{CalendarDate, UiLanguage};
use abcom_ui::thread::{group_last_rows, pinned_first_order, thread_layout, MessageInfo, NameColor, RowLayout};

fn day(d: u32) -> Option<CalendarDate> {
    Some(CalendarDate { year: 2025, month: 6, day: d })
}

fn msg(from: &str, epoch: Option<u64>, d: Option<CalendarDate>, is_reply: bool) -> MessageInfo {
    MessageInfo { from: from.to_string(), epoch, day: d, is_reply }
}

#[test]
fn dividers_groups_and_name_colors() {
    let today = CalendarDate { year: 2025, month: 6, day: 10 };
    let msgs = vec![
        msg("alice", Some(1000), day(9), false),
        msg("alice", Some(1100), day(9), false),
        msg("me", Some(1200), day(10), false),
        msg("me", Some(1300), day(10), true),
        msg("me", None, None, false),
    ];
    let rows = thread_layout(&msgs, today, UiLanguage::English, "me", false, true);
    assert_eq!(rows.len(), 5);
    assert_eq!(
        rows[0],
        RowLayout {
            day_divider: Some("Yesterday".to_string()),
            day_label: Some("Yesterday".to_string()),
            starts_group: true,
            name_color: NameColor::Correspondent,
        }
    );
    assert_eq!(rows[1].day_divider, None);
    assert!(!rows[1].starts_group);
    assert_eq!(rows[2].day_divider, Some("Today".to_string()));
    assert!(rows[2].starts_group);
    assert_eq!(rows[2].name_color, NameColor::Own);
    // A reply always opens a group.
    assert!(rows[3].starts_group);
    assert_eq!(rows[4].day_label, None);
    assert_eq!(rows[4].day_divider, None);
    assert!(!rows[4].starts_group);
}

#[test]
fn multi_person_threads_color_peers_from_the_palette() {
    let today = CalendarDate { year: 2025, month: 6, day: 10 };
    let msgs = vec![msg("bob", None, None, false)];
    let rows = thread_layout(&msgs, today, UiLanguage::French, "me", true, false);
    assert!(matches!(rows[0].name_color, NameColor::Peer(_)));
    // Without any day, the first message shows no divider.
    assert_eq!(rows[0].day_divider, None);
}

#[test]
fn a_first_day_after_undated_messages_shows_a_divider() {
    let today = CalendarDate { year: 2025, month: 6, day: 10 };
    let msgs = vec![msg("a", None, None, false), msg("a", Some(5), day(3), false)];
    let rows = thread_layout(&msgs, today, UiLanguage::French, "me", false, true);
    assert_eq!(rows[1].day_divider, Some("3 juin 2025".to_string()));
    assert!(rows[1].starts_group);
}

#[test]
fn group_headers_point_at_their_last_row() {
    assert_eq!(
        group_last_rows(&[true, false, false, true, true, false]),
        vec![Some(2), None, None, Some(3), Some(5), None]
    );
    assert_eq!(group_last_rows(&[false, true]), vec![None, Some(1)]);
    assert_eq!(group_last_rows(&[]), Vec::<Option<usize>>::new());
}

#[test]
fn pinned_entries_first_in_stable_order() {
    assert_eq!(pinned_first_order(&[false, true, false, true]), vec![1, 3, 0, 2]);
    assert_eq!(pinned_first_order(&[false, false]), vec![0, 1]);
    assert_eq!(pinned_first_order(&[]), Vec::<usize>::new());
}
