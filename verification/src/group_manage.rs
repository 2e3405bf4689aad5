use vstd::prelude::*;

use crate::chars::{text_eq, texts_view};
use crate::groups::{contains_text, ActionView, Group, GroupAction, GroupView};

verus! {

/// What the group management dialog offers the local user: deleting the
/// group, removing members and adding known peers.
pub struct ManageOptions {
    /// Delete is offered (leaving always is).
    pub can_delete: bool,
    /// The members that can be removed, in the group's order.
    pub kickable: Vec<String>,
    /// The known peers that can be added, in the peers' order.
    pub addable: Vec<String>,
}

/// The members other than `me`, in order.
pub open spec fn others(members: Seq<Seq<char>>, me: Seq<char>) -> Seq<Seq<char>> {
    members.filter(|m: Seq<char>| m != me)
}

/// The peers that are not members, in order.
pub open spec fn non_members(peers: Seq<Seq<char>>, members: Seq<Seq<char>>) -> Seq<Seq<char>> {
    peers.filter(|p: Seq<char>| !members.contains(p))
}

/// The options of the dialog for `me` on group `g`, knowing `peers`: only
/// the owner may delete, remove a member (never themselves) or add a known
/// peer who is not a member yet.
pub open spec fn manage_options_of(g: GroupView, me: Seq<char>, peers: Seq<Seq<char>>) -> (
    bool,
    Seq<Seq<char>>,
    Seq<Seq<char>>,
) {
    if g.owner == me {
        (true, others(g.members, me), non_members(peers, g.members))
    } else {
        (false, Seq::empty(), Seq::empty())
    }
}

/// The options of the group management dialog for `me` on `group`.
pub fn manage_options(group: &Group, me: &str, peers: &[String]) -> (r: ManageOptions)
    ensures
        manage_options_of(group@, me@, texts_view(peers@)) == (
            r.can_delete,
            texts_view(r.kickable@),
            texts_view(r.addable@),
        ),
{
    if !text_eq(group.owner.as_str(), me) {
        return ManageOptions { can_delete: false, kickable: Vec::new(), addable: Vec::new() };
    }
    let ghost members = texts_view(group.members@);
    let ghost not_me = |m: Seq<char>| m != me@;
    let mut kickable: Vec<String> = Vec::new();
    let mut i: usize = 0;
    while i < group.members.len()
        invariant
            i <= group.members@.len(),
            members == texts_view(group.members@),
            not_me == (|m: Seq<char>| m != me@),
            texts_view(kickable@) == members.take(i as int).filter(not_me),
        decreases group.members@.len() - i,
    {
        proof {
            assert(members.take(i + 1) =~= members.take(i as int).push(members[i as int]));
            members.take(i as int).lemma_filter_push(members[i as int], not_me);
        }
        if !text_eq(group.members[i].as_str(), me) {
            let ghost before = kickable@;
            kickable.push(group.members[i].clone());
            proof {
                assert(texts_view(kickable@) =~= texts_view(before).push(members[i as int]));
            }
        }
        i = i + 1;
    }
    proof {
        assert(members.take(i as int) =~= members);
    }
    let ghost all = texts_view(peers@);
    let ghost outside = |p: Seq<char>| !members.contains(p);
    let mut addable: Vec<String> = Vec::new();
    let mut j: usize = 0;
    while j < peers.len()
        invariant
            j <= peers@.len(),
            all == texts_view(peers@),
            members == texts_view(group.members@),
            outside == (|p: Seq<char>| !members.contains(p)),
            texts_view(addable@) == all.take(j as int).filter(outside),
        decreases peers@.len() - j,
    {
        proof {
            assert(all.take(j + 1) =~= all.take(j as int).push(all[j as int]));
            all.take(j as int).lemma_filter_push(all[j as int], outside);
        }
        if !contains_text(&group.members, peers[j].as_str()) {
            let ghost before = addable@;
            addable.push(peers[j].clone());
            proof {
                assert(texts_view(addable@) =~= texts_view(before).push(all[j as int]));
            }
        }
        j = j + 1;
    }
    proof {
        assert(all.take(j as int) =~= all);
    }
    ManageOptions { can_delete: true, kickable, addable }
}

/// An action of the dialog that asks to be confirmed first.
#[derive(Clone, Copy, Debug, PartialEq, Eq, Structural)]
pub enum ConfirmAction {
    Leave,
    Delete,
}

/// A button of the dialog's footer.
#[derive(Clone, Copy, Debug, PartialEq, Eq, Structural)]
pub enum ManageClick {
    Leave,
    Delete,
    Confirm,
    Cancel,
}

/// The footer after a click: the action waiting for confirmation, and the
/// action to carry out now.
#[derive(Clone, Copy, Debug, PartialEq, Eq, Structural)]
pub struct ManageStep {
    pub confirm: Option<ConfirmAction>,
    pub perform: Option<ConfirmAction>,
}

/// Leaving and deleting take two steps. With nothing to confirm, the footer
/// shows Leave, and Delete for the owner; a click there asks for
/// confirmation. While an action waits, it shows Confirm, which carries it
/// out, and Cancel, which drops it. A click on a button not shown changes
/// nothing.
pub open spec fn manage_step_of(confirm: Option<ConfirmAction>, click: ManageClick, am_owner: bool) -> ManageStep {
    match confirm {
        None => match click {
            ManageClick::Leave => ManageStep { confirm: Some(ConfirmAction::Leave), perform: None },
            ManageClick::Delete => if am_owner {
                ManageStep { confirm: Some(ConfirmAction::Delete), perform: None }
            } else {
                ManageStep { confirm: None, perform: None }
            },
            _ => ManageStep { confirm: None, perform: None },
        },
        Some(a) => match click {
            ManageClick::Confirm => ManageStep { confirm: None, perform: Some(a) },
            ManageClick::Cancel => ManageStep { confirm: None, perform: None },
            _ => ManageStep { confirm: Some(a), perform: None },
        },
    }
}

/// The footer after `click`, with `confirm` waiting.
pub fn manage_step(confirm: Option<ConfirmAction>, click: ManageClick, am_owner: bool) -> (r:
    ManageStep)
    ensures
        r == manage_step_of(confirm, click, am_owner),
{
    match confirm {
        None => match click {
            ManageClick::Leave => ManageStep { confirm: Some(ConfirmAction::Leave), perform: None },
            ManageClick::Delete => if am_owner {
                ManageStep { confirm: Some(ConfirmAction::Delete), perform: None }
            } else {
                ManageStep { confirm: None, perform: None }
            },
            _ => ManageStep { confirm: None, perform: None },
        },
        Some(a) => match click {
            ManageClick::Confirm => ManageStep { confirm: None, perform: Some(a) },
            ManageClick::Cancel => ManageStep { confirm: None, perform: None },
            _ => ManageStep { confirm: Some(a), perform: None },
        },
    }
}

/// Whatever the clicks, only the owner is ever asked to confirm, or gets to
/// carry out, a deletion; and an action is carried out only after it was
/// waiting for confirmation.
pub proof fn deletion_takes_the_owner_and_two_steps(
    confirm: Option<ConfirmAction>,
    click: ManageClick,
    am_owner: bool,
)
    requires
        confirm == Some(ConfirmAction::Delete) ==> am_owner,
    ensures
        ({
            let r = manage_step_of(confirm, click, am_owner);
            &&& r.confirm == Some(ConfirmAction::Delete) ==> am_owner
            &&& r.perform == Some(ConfirmAction::Delete) ==> am_owner
            &&& r.perform matches Some(a) ==> confirm == Some(a) && click == ManageClick::Confirm
        }),
{
}

/// A request of the dialog, carried out by the groups' state.
pub enum ManageRequest {
    Add { username: String },
    Remove { username: String },
    Leave,
    Delete,
}

/// A group event to send, and to whom.
pub struct GroupSend {
    pub recipients: Vec<String>,
    pub action: GroupAction,
}

/// The view of a send: recipients and action.
pub open spec fn send_view(s: GroupSend) -> (Seq<Seq<char>>, ActionView) {
    (texts_view(s.recipients@), s.action@)
}

/// What the dialog sends once the groups' state has carried out `request`
/// (`done`) on group `group_name`: `before` are the members' recipients
/// taken before the change, so that a removed member is told too. An added
/// member is announced to them, and gets the whole group (`updated`) when
/// online; a removal, the local user's leaving or the deletion go to them.
/// Nothing is sent when the state refused the request.
pub open spec fn manage_sends_of(
    group_name: Seq<char>,
    request: ManageRequest,
    me: Seq<char>,
    before: Seq<Seq<char>>,
    done: bool,
    updated: Option<GroupView>,
    new_member_online: bool,
) -> Seq<(Seq<Seq<char>>, ActionView)> {
    if !done {
        Seq::empty()
    } else {
        match request {
            ManageRequest::Add { username } => {
                let announce = (
                    before,
                    ActionView::AddMember { group_name, username: username@ },
                );
                match updated {
                    Some(g) => if new_member_online {
                        seq![announce, (seq![username@], ActionView::Create { group: g })]
                    } else {
                        seq![announce]
                    },
                    None => seq![announce],
                }
            },
            ManageRequest::Remove { username } => seq![
                (before, ActionView::RemoveMember { group_name, username: username@ }),
            ],
            ManageRequest::Leave => seq![
                (before, ActionView::RemoveMember { group_name, username: me }),
            ],
            ManageRequest::Delete => seq![(before, ActionView::Delete { group_name })],
        }
    }
}

/// Whether the dialog closes after `request` was carried out: leaving and
/// deleting close it.
pub open spec fn closes_dialog(request: ManageRequest, done: bool) -> bool {
    done && (request is Leave || request is Delete)
}

/// The events to send after `request`, and whether the dialog closes.
pub fn manage_sends(
    group_name: &str,
    request: ManageRequest,
    me: &str,
    before: Vec<String>,
    done: bool,
    updated: Option<Group>,
    new_member_online: bool,
) -> (r: (Vec<GroupSend>, bool))
    ensures
        r.0@.map_values(|s: GroupSend| send_view(s)) == manage_sends_of(
            group_name@,
            request,
            me@,
            texts_view(before@),
            done,
            match updated {
                Some(g) => Some(g@),
                None => None,
            },
            new_member_online,
        ),
        r.1 == closes_dialog(request, done),
{
    let ghost req = request;
    let ghost before_v = texts_view(before@);
    let ghost updated_v = match &updated {
        Some(g) => Some(g@),
        None => None,
    };
    let closes = done && match request {
        ManageRequest::Leave | ManageRequest::Delete => true,
        _ => false,
    };
    let mut sends: Vec<GroupSend> = Vec::new();
    if !done {
        proof {
            assert(sends@.map_values(|s: GroupSend| send_view(s)) =~= Seq::empty());
        }
        return (sends, closes);
    }
    match request {
        ManageRequest::Add { username } => {
            let recipient = username.clone();
            sends.push(
                GroupSend {
                    recipients: before,
                    action: GroupAction::AddMember {
                        group_name: String::from_str(group_name),
                        username,
                    },
                },
            );
            match updated {
                Some(g) => {
                    if new_member_online {
                        let mut to: Vec<String> = Vec::new();
                        to.push(recipient);
                        sends.push(GroupSend { recipients: to, action: GroupAction::Create { group: g } });
                        proof {
                            assert(texts_view(sends@[1].recipients@) =~= seq![sends@[0].action->AddMember_username@]);
                        }
                    }
                },
                None => {},
            }
        },
        ManageRequest::Remove { username } => {
            sends.push(
                GroupSend {
                    recipients: before,
                    action: GroupAction::RemoveMember {
                        group_name: String::from_str(group_name),
                        username,
                    },
                },
            );
        },
        ManageRequest::Leave => {
            sends.push(
                GroupSend {
                    recipients: before,
                    action: GroupAction::RemoveMember {
                        group_name: String::from_str(group_name),
                        username: String::from_str(me),
                    },
                },
            );
        },
        ManageRequest::Delete => {
            sends.push(
                GroupSend {
                    recipients: before,
                    action: GroupAction::Delete { group_name: String::from_str(group_name) },
                },
            );
        },
    }
    proof {
        assert(sends@.map_values(|s: GroupSend| send_view(s)) =~= manage_sends_of(
            group_name@,
            req,
            me@,
            before_v,
            done,
            updated_v,
            new_member_online,
        ));
    }
    (sends, closes)
}

} // verus!
