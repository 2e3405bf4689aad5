use abcom_ui::group_manage::{
    manage_options, manage_sends, manage_step, ConfirmAction, ManageClick, ManageRequest, ManageStep,
};
use abcom_ui::groups::{Group, GroupAction};

fn group() -> Group {
    Group {
        name: "team".to_string(),
        owner: "alice".to_string(),
        members: vec!["alice".to_string(), "bob".to_string(), "carol".to_string()],
    }
}

fn names(v: &[&str]) -> Vec<String> {
    v.iter().map(|s| s.to_string()).collect()
}

#[test]
fn owner_can_remove_others_add_peers_and_delete() {
    let peers = names(&["dave", "bob", "erin"]);
    let o = manage_options(&group(), "alice", &peers);
    assert!(o.can_delete);
    assert_eq!(o.kickable, names(&["bob", "carol"]));
    assert_eq!(o.addable, names(&["dave", "erin"]));
}

#[test]
fn members_get_no_owner_options() {
    let peers = names(&["dave"]);
    let o = manage_options(&group(), "bob", &peers);
    assert!(!o.can_delete);
    assert!(o.kickable.is_empty());
    assert!(o.addable.is_empty());
}

#[test]
fn leaving_and_deleting_take_two_clicks() {
    let s = manage_step(None, ManageClick::Leave, false);
    assert_eq!(s, ManageStep { confirm: Some(ConfirmAction::Leave), perform: None });
    let s = manage_step(s.confirm, ManageClick::Confirm, false);
    assert_eq!(s, ManageStep { confirm: None, perform: Some(ConfirmAction::Leave) });
    assert_eq!(manage_step(None, ManageClick::Delete, false), ManageStep { confirm: None, perform: None });
    let s = manage_step(None, ManageClick::Delete, true);
    assert_eq!(s, ManageStep { confirm: Some(ConfirmAction::Delete), perform: None });
    assert_eq!(manage_step(s.confirm, ManageClick::Cancel, true), ManageStep { confirm: None, perform: None });
    assert_eq!(manage_step(None, ManageClick::Confirm, true), ManageStep { confirm: None, perform: None });
}

#[test]
fn an_added_member_gets_the_whole_group_when_online() {
    let before = names(&["bob", "carol"]);
    let (sends, closes) = manage_sends(
        "team",
        ManageRequest::Add { username: "dave".to_string() },
        "alice",
        before.clone(),
        true,
        Some(group()),
        true,
    );
    assert!(!closes);
    assert_eq!(sends.len(), 2);
    assert_eq!(sends[0].recipients, before);
    assert!(matches!(&sends[0].action, GroupAction::AddMember { group_name, username } if group_name == "team" && username == "dave"));
    assert_eq!(sends[1].recipients, names(&["dave"]));
    assert!(matches!(&sends[1].action, GroupAction::Create { group } if group.name == "team"));
    let (sends, _) = manage_sends(
        "team",
        ManageRequest::Add { username: "dave".to_string() },
        "alice",
        before,
        true,
        Some(group()),
        false,
    );
    assert_eq!(sends.len(), 1);
}

#[test]
fn leaving_tells_the_members_and_closes() {
    let before = names(&["alice", "carol"]);
    let (sends, closes) = manage_sends("team", ManageRequest::Leave, "bob", before.clone(), true, None, false);
    assert!(closes);
    assert_eq!(sends.len(), 1);
    assert_eq!(sends[0].recipients, before);
    assert!(matches!(&sends[0].action, GroupAction::RemoveMember { group_name, username } if group_name == "team" && username == "bob"));
    let (sends, closes) = manage_sends("team", ManageRequest::Delete, "alice", names(&["bob"]), false, None, false);
    assert!(sends.is_empty());
    assert!(!closes);
}
