use abcom_ui::groups::{
    apply_group_event, check_group_name, group_media_authorized, Group, GroupAction, GroupEvent, GroupFollowUp,
    GroupsState,
};

fn group(name: &str, owner: &str, members: &[&str]) -> Group {
    Group {
        name: name.to_string(),
        owner: owner.to_string(),
        members: members.iter().map(|m| m.to_string()).collect(),
    }
}

fn state() -> GroupsState {
    GroupsState { my_username: "me".to_string(), groups: vec![group("team", "alice", &["alice", "me"])] }
}

fn event(action: GroupAction) -> GroupEvent {
    GroupEvent { action }
}

#[test]
fn a_new_group_counting_me_is_created() {
    let mut s = state();
    let r = apply_group_event(&mut s, "bob", event(GroupAction::Create { group: group("club", "bob", &["bob", "me"]) }));
    assert_eq!(r, GroupFollowUp::Save);
    assert_eq!(s.groups.len(), 2);
    assert_eq!(s.groups[1].name, "club");
}

#[test]
fn a_group_without_me_or_from_another_owner_is_ignored() {
    let mut s = state();
    let r = apply_group_event(&mut s, "bob", event(GroupAction::Create { group: group("club", "bob", &["bob"]) }));
    assert_eq!(r, GroupFollowUp::Nothing);
    let r = apply_group_event(&mut s, "bob", event(GroupAction::Create { group: group("club", "carol", &["me"]) }));
    assert_eq!(r, GroupFollowUp::Nothing);
    assert_eq!(s.groups.len(), 1);
}

#[test]
fn only_the_owner_replaces_a_group() {
    let mut s = state();
    let r = apply_group_event(&mut s, "bob", event(GroupAction::Create { group: group("team", "bob", &["bob", "me"]) }));
    assert_eq!(r, GroupFollowUp::Nothing);
    assert_eq!(s.groups[0].owner, "alice");
    let r = apply_group_event(&mut s, "alice", event(GroupAction::Create { group: group("team", "alice", &["alice", "me", "dan"]) }));
    assert_eq!(r, GroupFollowUp::Save);
    assert_eq!(s.groups[0].members.len(), 3);
}

#[test]
fn members_are_added_by_the_owner_once() {
    let mut s = state();
    let add = |user: &str| GroupAction::AddMember { group_name: "team".to_string(), username: user.to_string() };
    assert_eq!(apply_group_event(&mut s, "bob", event(add("bob"))), GroupFollowUp::Nothing);
    assert_eq!(apply_group_event(&mut s, "alice", event(add("bob"))), GroupFollowUp::Save);
    assert_eq!(apply_group_event(&mut s, "alice", event(add("bob"))), GroupFollowUp::Nothing);
    assert_eq!(s.groups[0].members, vec!["alice", "me", "bob"]);
}

#[test]
fn removals_renames_and_deletions_are_authorized() {
    let mut s = state();
    let remove = |user: &str| GroupAction::RemoveMember { group_name: "team".to_string(), username: user.to_string() };
    assert_eq!(apply_group_event(&mut s, "bob", event(remove("me"))), GroupFollowUp::Nothing);
    assert_eq!(
        apply_group_event(&mut s, "me", event(remove("me"))),
        GroupFollowUp::RemoveMember { group_name: "team".to_string(), username: "me".to_string() }
    );
    assert_eq!(
        apply_group_event(&mut s, "alice", event(remove("me"))),
        GroupFollowUp::RemoveMember { group_name: "team".to_string(), username: "me".to_string() }
    );
    let rename = GroupAction::Rename { group_name: "team".to_string(), new_name: "crew".to_string() };
    assert_eq!(apply_group_event(&mut s, "me", event(rename)), GroupFollowUp::Nothing);
    let rename = GroupAction::Rename { group_name: "team".to_string(), new_name: "crew".to_string() };
    assert_eq!(
        apply_group_event(&mut s, "alice", event(rename)),
        GroupFollowUp::Rename { group_name: "team".to_string(), new_name: "crew".to_string() }
    );
    let delete = GroupAction::Delete { group_name: "team".to_string() };
    assert_eq!(apply_group_event(&mut s, "bob", event(delete)), GroupFollowUp::Nothing);
    let delete = GroupAction::Delete { group_name: "team".to_string() };
    assert_eq!(apply_group_event(&mut s, "alice", event(delete)), GroupFollowUp::Delete { group_name: "team".to_string() });
    // The follow-ups leave the groups to the caller.
    assert_eq!(s.groups.len(), 1);
}

#[test]
fn group_media_needs_both_members() {
    let s = state();
    assert!(group_media_authorized(&s, "team", "alice"));
    assert!(!group_media_authorized(&s, "team", "bob"));
    assert!(!group_media_authorized(&s, "nope", "alice"));
    let outsider = GroupsState { my_username: "zed".to_string(), groups: s.groups };
    assert!(!group_media_authorized(&outsider, "team", "alice"));
}

#[test]
fn group_names_are_checked() {
    let existing = vec!["team".to_string(), "équipe".to_string()];
    let c = check_group_name("  projet-1_b ", &existing);
    assert_eq!(c.trimmed, "projet-1_b");
    assert!(c.valid && !c.duplicate && c.can_create());
    let c = check_group_name("TEAM", &existing);
    assert!(c.valid && c.duplicate && !c.can_create());
    // Only ASCII letters are compared without case.
    let c = check_group_name("ÉQUIPE", &existing);
    assert!(c.valid && !c.duplicate);
    let c = check_group_name("bad name", &existing);
    assert!(!c.valid);
    let c = check_group_name("   ", &existing);
    assert!(!c.valid);
    assert!(check_group_name(&"x".repeat(50), &existing).valid);
    assert!(!check_group_name(&"x".repeat(51), &existing).valid);
    // The limit counts bytes: 26 « é » take 52.
    assert!(!check_group_name(&"é".repeat(26), &existing).valid);
    assert!(check_group_name(&"é".repeat(25), &existing).valid);
}
