use abcom_ui::sending::{
    finish_send, native_body, send_plan, submit_search_step, wire_size_allowed, SearchStep, SendEnd,
    SendPlan, MAX_LOGICAL_MESSAGE,
};

#[test]
fn nothing_to_send() {
    assert_eq!(send_plan("  \n ", 0, 3), SendPlan::Nothing);
}

#[test]
fn attachments_need_someone_online() {
    assert_eq!(send_plan("hi", 1, 0), SendPlan::NoRecipient);
    assert_eq!(send_plan("", 2, 0), SendPlan::NoRecipient);
}

#[test]
fn text_is_trimmed_before_sending() {
    assert_eq!(
        send_plan("  hello\n", 0, 0),
        SendPlan::Send { content: Some("hello".to_string()), with_attachments: false }
    );
    assert_eq!(send_plan(" ", 1, 1), SendPlan::Send { content: None, with_attachments: true });
    assert_eq!(
        send_plan("a\nb", 1, 2),
        SendPlan::Send { content: Some("a\nb".to_string()), with_attachments: true }
    );
}

#[test]
fn search_submission_steps() {
    let mut submitted = String::new();
    assert_eq!(submit_search_step(false, "hello", &mut submitted), SearchStep::Unchanged);
    assert_eq!(submitted, "");
    assert_eq!(submit_search_step(true, " h ", &mut submitted), SearchStep::Cleared);
    assert_eq!(submitted, "h");
    assert_eq!(submit_search_step(true, "hello ", &mut submitted), SearchStep::Run);
    assert_eq!(submitted, "hello");
    assert_eq!(submit_search_step(true, " hello", &mut submitted), SearchStep::Unchanged);
}

#[test]
fn notification_bodies() {
    assert_eq!(native_body("short", true, "Nouveau message"), "short");
    assert_eq!(native_body("secret", false, "Nouveau message"), "Nouveau message");
    let long = "x".repeat(200);
    assert_eq!(native_body(&long, true, "-").chars().count(), 120);
}

#[test]
fn a_sent_message_empties_the_composer() {
    let mut text = "hello\n".to_string();
    let plan = send_plan(&text, 1, 2);
    let (mut cursor, mut anchor) = (6usize, Some(2usize));
    let mut attachments = vec!["a.png".to_string()];
    let mut reply = Some(7u64);
    let end = finish_send(&plan, 100, true, &mut text, &mut cursor, &mut anchor, &mut attachments, &mut reply);
    assert_eq!(end, SendEnd::Sent);
    assert_eq!(text, "");
    assert_eq!((cursor, anchor), (0, None));
    assert!(attachments.is_empty());
    assert_eq!(reply, None);
}

#[test]
fn an_oversized_message_is_refused_and_kept() {
    let mut text = "hello\n".to_string();
    let plan = send_plan(&text, 0, 0);
    let (mut cursor, mut anchor) = (6usize, None);
    let mut attachments: Vec<String> = Vec::new();
    let mut reply = Some(7u64);
    let end = finish_send(
        &plan,
        MAX_LOGICAL_MESSAGE + 1,
        true,
        &mut text,
        &mut cursor,
        &mut anchor,
        &mut attachments,
        &mut reply,
    );
    assert_eq!(end, SendEnd::TooLarge);
    assert_eq!(text, "hello");
    assert_eq!(cursor, 6);
    assert_eq!(reply, Some(7));
    assert!(wire_size_allowed(MAX_LOGICAL_MESSAGE));
    assert!(!wire_size_allowed(MAX_LOGICAL_MESSAGE + 1));
}

#[test]
fn attachments_without_recipient_are_kept() {
    let mut text = String::new();
    let plan = send_plan(&text, 1, 0);
    let (mut cursor, mut anchor) = (0usize, None);
    let mut attachments = vec!["a.png".to_string()];
    let mut reply = None;
    let end = finish_send(&plan, 0, true, &mut text, &mut cursor, &mut anchor, &mut attachments, &mut reply);
    assert_eq!(end, SendEnd::NoRecipient);
    assert_eq!(attachments.len(), 1);
}
