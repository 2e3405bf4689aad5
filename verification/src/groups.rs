use vstd::prelude::*;

use crate::chars::{text_eq, texts_view};

verus! {

/// A group conversation.
pub struct Group {
    pub name: String,
    pub owner: String,
    pub members: Vec<String>,
}

/// A group, with its texts as character sequences.
pub struct GroupView {
    pub name: Seq<char>,
    pub owner: Seq<char>,
    pub members: Seq<Seq<char>>,
}

impl View for Group {
    type V = GroupView;

    open spec fn view(&self) -> GroupView {
        GroupView { name: self.name@, owner: self.owner@, members: texts_view(self.members@) }
    }
}

/// The views of a list of groups.
pub open spec fn groups_view(v: Seq<Group>) -> Seq<GroupView> {
    v.map_values(|g: Group| g@)
}

/// What a peer asks to do to a group.
pub enum GroupAction {
    Create { group: Group },
    AddMember { group_name: String, username: String },
    RemoveMember { group_name: String, username: String },
    Rename { group_name: String, new_name: String },
    Delete { group_name: String },
}

/// A group event received from a peer.
pub struct GroupEvent {
    pub action: GroupAction,
}

/// The groups as the application keeps them, with the local user's name.
pub struct GroupsState {
    pub my_username: String,
    pub groups: Vec<Group>,
}

/// What remains to be done after an event: nothing, saving the groups, or
/// an authorized removal, rename or deletion for the state to carry out.
#[derive(Debug, PartialEq, Eq)]
pub enum GroupFollowUp {
    Nothing,
    Save,
    RemoveMember { group_name: String, username: String },
    Rename { group_name: String, new_name: String },
    Delete { group_name: String },
}

/// Index of the first group named `name`, or -1.
pub open spec fn first_named(groups: Seq<GroupView>, name: Seq<char>) -> int
    decreases groups.len(),
{
    if groups.len() == 0 {
        -1
    } else if groups[0].name == name {
        0
    } else if first_named(groups.drop_first(), name) < 0 {
        -1
    } else {
        first_named(groups.drop_first(), name) + 1
    }
}

/// Index of the first group named `name` and owned by `owner`, or -1.
pub open spec fn first_owned(groups: Seq<GroupView>, name: Seq<char>, owner: Seq<char>) -> int
    decreases groups.len(),
{
    if groups.len() == 0 {
        -1
    } else if groups[0].name == name && groups[0].owner == owner {
        0
    } else if first_owned(groups.drop_first(), name, owner) < 0 {
        -1
    } else {
        first_owned(groups.drop_first(), name, owner) + 1
    }
}

proof fn lemma_first_named(groups: Seq<GroupView>, name: Seq<char>, k: int)
    requires
        0 <= k <= groups.len(),
        forall|j: int| 0 <= j < k ==> (#[trigger] groups[j]).name != name,
        k < groups.len() ==> groups[k].name == name,
    ensures
        first_named(groups, name) == if k < groups.len() {
            k
        } else {
            -1
        },
    decreases k,
{
    if k > 0 {
        assert forall|j: int| 0 <= j < k - 1 implies (#[trigger] groups.drop_first()[j]).name
            != name by {
            assert(groups.drop_first()[j] == groups[j + 1]);
        }
        if k < groups.len() {
            assert(groups.drop_first()[k - 1] == groups[k]);
        }
        lemma_first_named(groups.drop_first(), name, k - 1);
        assert(groups[0].name != name);
    }
}

proof fn lemma_first_owned(groups: Seq<GroupView>, name: Seq<char>, owner: Seq<char>, k: int)
    requires
        0 <= k <= groups.len(),
        forall|j: int|
            0 <= j < k ==> !((#[trigger] groups[j]).name == name && groups[j].owner == owner),
        k < groups.len() ==> groups[k].name == name && groups[k].owner == owner,
    ensures
        first_owned(groups, name, owner) == if k < groups.len() {
            k
        } else {
            -1
        },
    decreases k,
{
    if k > 0 {
        assert forall|j: int| 0 <= j < k - 1 implies !((#[trigger] groups.drop_first()[j]).name
            == name && groups.drop_first()[j].owner == owner) by {
            assert(groups.drop_first()[j] == groups[j + 1]);
        }
        if k < groups.len() {
            assert(groups.drop_first()[k - 1] == groups[k]);
        }
        lemma_first_owned(groups.drop_first(), name, owner, k - 1);
        assert(!(groups[0].name == name && groups[0].owner == owner));
    }
}

fn find_named(groups: &Vec<Group>, name: &str) -> (r: Option<usize>)
    ensures
        match r {
            Some(k) => k < groups@.len() && first_named(groups_view(groups@), name@) == k,
            None => first_named(groups_view(groups@), name@) == -1,
        },
{
    let ghost gv = groups_view(groups@);
    let mut k: usize = 0;
    while k < groups.len()
        invariant
            k <= groups@.len(),
            gv == groups_view(groups@),
            forall|j: int| 0 <= j < k ==> (#[trigger] gv[j]).name != name@,
        decreases groups@.len() - k,
    {
        if text_eq(groups[k].name.as_str(), name) {
            proof {
                lemma_first_named(gv, name@, k as int);
            }
            return Some(k);
        }
        k = k + 1;
    }
    proof {
        lemma_first_named(gv, name@, k as int);
    }
    None
}

fn find_owned(groups: &Vec<Group>, name: &str, owner: &str) -> (r: Option<usize>)
    ensures
        match r {
            Some(k) => k < groups@.len() && first_owned(groups_view(groups@), name@, owner@) == k,
            None => first_owned(groups_view(groups@), name@, owner@) == -1,
        },
{
    let ghost gv = groups_view(groups@);
    let mut k: usize = 0;
    while k < groups.len()
        invariant
            k <= groups@.len(),
            gv == groups_view(groups@),
            forall|j: int|
                0 <= j < k ==> !((#[trigger] gv[j]).name == name@ && gv[j].owner == owner@),
        decreases groups@.len() - k,
    {
        if text_eq(groups[k].name.as_str(), name) && text_eq(groups[k].owner.as_str(), owner) {
            proof {
                lemma_first_owned(gv, name@, owner@, k as int);
            }
            return Some(k);
        }
        k = k + 1;
    }
    proof {
        lemma_first_owned(gv, name@, owner@, k as int);
    }
    None
}

pub(crate) fn contains_text(list: &Vec<String>, t: &str) -> (r: bool)
    ensures
        r == texts_view(list@).contains(t@),
{
    let mut k: usize = 0;
    while k < list.len()
        invariant
            k <= list@.len(),
            forall|j: int| 0 <= j < k ==> list@[j]@ != t@,
        decreases list@.len() - k,
    {
        if text_eq(list[k].as_str(), t) {
            proof {
                assert(texts_view(list@)[k as int] == t@);
            }
            return true;
        }
        k = k + 1;
    }
    proof {
        if texts_view(list@).contains(t@) {
            let j = choose|j: int| 0 <= j < texts_view(list@).len() && texts_view(list@)[j] == t@;
            assert(list@[j]@ == t@);
        }
    }
    false
}

/// Whether a media of group `group_name` from `sender` is accepted: the
/// group (the first of that name) holds both the local user and the sender.
pub open spec fn media_authorized(
    groups: Seq<GroupView>,
    me: Seq<char>,
    group_name: Seq<char>,
    sender: Seq<char>,
) -> bool {
    let k = first_named(groups, group_name);
    k >= 0 && groups[k].members.contains(me) && groups[k].members.contains(sender)
}

/// Whether a media sent to a group by `sender` is accepted.
pub fn group_media_authorized(state: &GroupsState, group_name: &str, sender: &str) -> (r: bool)
    ensures
        r == media_authorized(
            groups_view(state.groups@),
            state.my_username@,
            group_name@,
            sender@,
        ),
{
    match find_named(&state.groups, group_name) {
        Some(k) => {
            let g = &state.groups[k];
            contains_text(&g.members, state.my_username.as_str()) && contains_text(
                &g.members,
                sender,
            )
        },
        None => false,
    }
}

/// The view of a follow-up.
pub enum FollowUpView {
    Nothing,
    Save,
    RemoveMember { group_name: Seq<char>, username: Seq<char> },
    Rename { group_name: Seq<char>, new_name: Seq<char> },
    Delete { group_name: Seq<char> },
}

impl View for GroupFollowUp {
    type V = FollowUpView;

    open spec fn view(&self) -> FollowUpView {
        match self {
            GroupFollowUp::Nothing => FollowUpView::Nothing,
            GroupFollowUp::Save => FollowUpView::Save,
            GroupFollowUp::RemoveMember { group_name, username } => FollowUpView::RemoveMember {
                group_name: group_name@,
                username: username@,
            },
            GroupFollowUp::Rename { group_name, new_name } => FollowUpView::Rename {
                group_name: group_name@,
                new_name: new_name@,
            },
            GroupFollowUp::Delete { group_name } => FollowUpView::Delete {
                group_name: group_name@,
            },
        }
    }
}

/// The view of a group action.
pub enum ActionView {
    Create { group: GroupView },
    AddMember { group_name: Seq<char>, username: Seq<char> },
    RemoveMember { group_name: Seq<char>, username: Seq<char> },
    Rename { group_name: Seq<char>, new_name: Seq<char> },
    Delete { group_name: Seq<char> },
}

impl View for GroupAction {
    type V = ActionView;

    open spec fn view(&self) -> ActionView {
        match self {
            GroupAction::Create { group } => ActionView::Create { group: group@ },
            GroupAction::AddMember { group_name, username } => ActionView::AddMember {
                group_name: group_name@,
                username: username@,
            },
            GroupAction::RemoveMember { group_name, username } => ActionView::RemoveMember {
                group_name: group_name@,
                username: username@,
            },
            GroupAction::Rename { group_name, new_name } => ActionView::Rename {
                group_name: group_name@,
                new_name: new_name@,
            },
            GroupAction::Delete { group_name } => ActionView::Delete { group_name: group_name@ },
        }
    }
}

/// The groups after `peer`'s action, and what remains to be done. A group
/// is created or replaced only by its owner and only if it counts the local
/// user; members are added only by the owner; removal (by the owner, or of
/// the peer itself), rename and deletion (by the owner) are passed on.
pub open spec fn group_event_effect(
    groups: Seq<GroupView>,
    me: Seq<char>,
    peer: Seq<char>,
    action: ActionView,
) -> (Seq<GroupView>, FollowUpView) {
    match action {
        ActionView::Create { group } => if group.owner != peer || !group.members.contains(me) {
            (groups, FollowUpView::Nothing)
        } else {
            let k = first_named(groups, group.name);
            if k < 0 {
                (groups.push(group), FollowUpView::Save)
            } else if groups[k].owner != peer {
                (groups, FollowUpView::Nothing)
            } else {
                (groups.update(k, group), FollowUpView::Save)
            }
        },
        ActionView::AddMember { group_name, username } => {
            let k = first_owned(groups, group_name, peer);
            if k < 0 || groups[k].members.contains(username) {
                (groups, FollowUpView::Nothing)
            } else {
                (
                    groups.update(
                        k,
                        GroupView {
                            name: groups[k].name,
                            owner: groups[k].owner,
                            members: groups[k].members.push(username),
                        },
                    ),
                    FollowUpView::Save,
                )
            }
        },
        ActionView::RemoveMember { group_name, username } => {
            let k = first_named(groups, group_name);
            if k >= 0 && (groups[k].owner == peer || peer == username) {
                (groups, FollowUpView::RemoveMember { group_name, username })
            } else {
                (groups, FollowUpView::Nothing)
            }
        },
        ActionView::Rename { group_name, new_name } => if first_owned(groups, group_name, peer)
            >= 0 {
            (groups, FollowUpView::Rename { group_name, new_name })
        } else {
            (groups, FollowUpView::Nothing)
        },
        ActionView::Delete { group_name } => if first_owned(groups, group_name, peer) >= 0 {
            (groups, FollowUpView::Delete { group_name })
        } else {
            (groups, FollowUpView::Nothing)
        },
    }
}

/// Applies a group event received from `peer`.
pub fn apply_group_event(s: &mut GroupsState, peer: &str, event: GroupEvent) -> (r: GroupFollowUp)
    ensures
        (groups_view(final(s).groups@), r@) == group_event_effect(
            groups_view(old(s).groups@),
            old(s).my_username@,
            peer@,
            event.action@,
        ),
        final(s).my_username == old(s).my_username,
{
    let ghost gv = groups_view(s.groups@);
    match event.action {
        GroupAction::Create { group } => {
            if !text_eq(group.owner.as_str(), peer) || !contains_text(
                &group.members,
                s.my_username.as_str(),
            ) {
                return GroupFollowUp::Nothing;
            }
            match find_named(&s.groups, group.name.as_str()) {
                Some(k) => {
                    if !text_eq(s.groups[k].owner.as_str(), peer) {
                        return GroupFollowUp::Nothing;
                    }
                    let ghost g = group@;
                    s.groups.set(k, group);
                    proof {
                        assert(groups_view(s.groups@) =~= gv.update(k as int, g));
                    }
                    GroupFollowUp::Save
                },
                None => {
                    let ghost g = group@;
                    s.groups.push(group);
                    proof {
                        assert(groups_view(s.groups@) =~= gv.push(g));
                    }
                    GroupFollowUp::Save
                },
            }
        },
        GroupAction::AddMember { group_name, username } => {
            match find_owned(&s.groups, group_name.as_str(), peer) {
                None => GroupFollowUp::Nothing,
                Some(k) => {
                    if contains_text(&s.groups[k].members, username.as_str()) {
                        return GroupFollowUp::Nothing;
                    }
                    let ghost u = username@;
                    let mut members = s.groups[k].members.clone();
                    assert(members@ == s.groups@[k as int].members@);
                    members.push(username);
                    let updated = Group {
                        name: s.groups[k].name.clone(),
                        owner: s.groups[k].owner.clone(),
                        members,
                    };
                    let ghost uv = updated@;
                    s.groups.set(k, updated);
                    proof {
                        assert(uv.members =~= gv[k as int].members.push(u));
                        assert(groups_view(s.groups@) =~= gv.update(k as int, uv));
                    }
                    GroupFollowUp::Save
                },
            }
        },
        GroupAction::RemoveMember { group_name, username } => {
            let allowed = match find_named(&s.groups, group_name.as_str()) {
                Some(k) => text_eq(s.groups[k].owner.as_str(), peer) || text_eq(
                    peer,
                    username.as_str(),
                ),
                None => false,
            };
            if allowed {
                GroupFollowUp::RemoveMember { group_name, username }
            } else {
                GroupFollowUp::Nothing
            }
        },
        GroupAction::Rename { group_name, new_name } => {
            if find_owned(&s.groups, group_name.as_str(), peer).is_some() {
                GroupFollowUp::Rename { group_name, new_name }
            } else {
                GroupFollowUp::Nothing
            }
        },
        GroupAction::Delete { group_name } => {
            if find_owned(&s.groups, group_name.as_str(), peer).is_some() {
                GroupFollowUp::Delete { group_name }
            } else {
                GroupFollowUp::Nothing
            }
        },
    }
}


proof fn lemma_first_named_found(groups: Seq<GroupView>, name: Seq<char>)
    ensures
        -1 <= first_named(groups, name) < groups.len(),
        first_named(groups, name) >= 0 ==> groups[first_named(groups, name)].name == name,
    decreases groups.len(),
{
    if groups.len() > 0 && groups[0].name != name {
        lemma_first_named_found(groups.drop_first(), name);
        if first_named(groups.drop_first(), name) >= 0 {
            assert(groups.drop_first()[first_named(groups.drop_first(), name)] == groups[first_named(
                groups,
                name,
            )]);
        }
    }
}

proof fn lemma_first_owned_found(groups: Seq<GroupView>, name: Seq<char>, owner: Seq<char>)
    ensures
        -1 <= first_owned(groups, name, owner) < groups.len(),
        first_owned(groups, name, owner) >= 0 ==> groups[first_owned(groups, name, owner)].name
            == name && groups[first_owned(groups, name, owner)].owner == owner,
    decreases groups.len(),
{
    if groups.len() > 0 && !(groups[0].name == name && groups[0].owner == owner) {
        lemma_first_owned_found(groups.drop_first(), name, owner);
        if first_owned(groups.drop_first(), name, owner) >= 0 {
            assert(groups.drop_first()[first_owned(groups.drop_first(), name, owner)]
                == groups[first_owned(groups, name, owner)]);
        }
    }
}

/// Only the owner of a group changes it: after any event from `peer`, no
/// group is lost, no group changes owner, and every group that `peer` does
/// not own is left as it was. A group that is created counts the local user
/// and is owned by the sender.
pub proof fn groups_change_only_by_their_owner(
    groups: Seq<GroupView>,
    me: Seq<char>,
    peer: Seq<char>,
    action: ActionView,
)
    ensures
        ({
            let after = group_event_effect(groups, me, peer, action).0;
            &&& groups.len() <= after.len() <= groups.len() + 1
            &&& forall|k: int| 0 <= k < groups.len() ==> (#[trigger] after[k]).owner == groups[k].owner
            &&& forall|k: int|
                0 <= k < groups.len() && groups[k].owner != peer ==> #[trigger] after[k] == groups[k]
            &&& after.len() > groups.len() ==> {
                &&& after.last().owner == peer
                &&& after.last().members.contains(me)
            }
        }),
{
    match action {
        ActionView::Create { group } => {
            lemma_first_named_found(groups, group.name);
        },
        ActionView::AddMember { group_name, username } => {
            lemma_first_owned_found(groups, group_name, peer);
        },
        _ => {},
    }
}

/// A removal is passed on only when the group exists and the sender owns it
/// or removes itself; a rename or deletion only when the sender owns a group
/// of that name.
pub proof fn follow_ups_are_authorized(
    groups: Seq<GroupView>,
    me: Seq<char>,
    peer: Seq<char>,
    action: ActionView,
)
    ensures
        ({
            let follow_up = group_event_effect(groups, me, peer, action).1;
            &&& follow_up matches FollowUpView::RemoveMember { group_name, username } ==> {
                let k = first_named(groups, group_name);
                &&& 0 <= k < groups.len()
                &&& groups[k].name == group_name
                &&& (groups[k].owner == peer || username == peer)
            }
            &&& follow_up matches FollowUpView::Rename { group_name, new_name } ==> exists|k: int|
                0 <= k < groups.len() && (#[trigger] groups[k]).name == group_name && groups[k].owner
                    == peer
            &&& follow_up matches FollowUpView::Delete { group_name } ==> exists|k: int|
                0 <= k < groups.len() && (#[trigger] groups[k]).name == group_name && groups[k].owner
                    == peer
        }),
{
    match action {
        ActionView::RemoveMember { group_name, username } => {
            lemma_first_named_found(groups, group_name);
        },
        ActionView::Rename { group_name, new_name } => {
            lemma_first_owned_found(groups, group_name, peer);
            let k = first_owned(groups, group_name, peer);
            if k >= 0 {
                assert(groups[k].name == group_name);
            }
        },
        ActionView::Delete { group_name } => {
            lemma_first_owned_found(groups, group_name, peer);
            let k = first_owned(groups, group_name, peer);
            if k >= 0 {
                assert(groups[k].name == group_name);
            }
        },
        _ => {},
    }
}

/// A group media is accepted only when the group exists and counts both the
/// local user and the sender among its members.
pub proof fn media_needs_both_members(
    groups: Seq<GroupView>,
    me: Seq<char>,
    group_name: Seq<char>,
    sender: Seq<char>,
)
    ensures
        media_authorized(groups, me, group_name, sender) ==> exists|k: int|
            0 <= k < groups.len() && (#[trigger] groups[k]).name == group_name
                && groups[k].members.contains(me) && groups[k].members.contains(sender),
{
    lemma_first_named_found(groups, group_name);
    let k = first_named(groups, group_name);
    if k >= 0 {
        assert(groups[k].name == group_name);
    }
}

/// What `char::is_alphanumeric` says of `c` (the Unicode `Alphabetic`
/// property or a numeric general category).
pub uninterp spec fn unicode_alphanumeric(c: char) -> bool;

/// Whether `c` is alphanumeric; a wrapper of `char::is_alphanumeric`. The
/// contract names the result, a function of the character alone.
#[verifier::external_body]
fn alphanumeric(c: char) -> (r: bool)
    ensures
        r == unicode_alphanumeric(c),
{
    c.is_alphanumeric()
}

/// Longest group name, in bytes of UTF-8.
pub const MAX_GROUP_NAME_BYTES: usize = 50;

/// Whether `c` may appear in a group name: alphanumeric, `_` or `-`.
pub open spec fn group_name_char(c: char) -> bool {
    unicode_alphanumeric(c) || c == '_' || c == '-'
}

/// Whether two characters are equal once ASCII letters are lowered.
pub open spec fn ascii_case_eq(x: char, y: char) -> bool {
    ||| x == y
    ||| ('A' <= x && x <= 'Z' && (y as u32) == (x as u32) + 32)
    ||| ('a' <= x && x <= 'z' && (x as u32) == (y as u32) + 32)
}

/// Whether two texts are equal once ASCII letters are lowered, as
/// `str::eq_ignore_ascii_case` compares them.
pub open spec fn same_ignoring_ascii_case(a: Seq<char>, b: Seq<char>) -> bool {
    a.len() == b.len() && forall|i: int| 0 <= i < a.len() ==> ascii_case_eq(#[trigger] a[i], b[i])
}

/// The checks of a new group's name.
pub struct GroupNameCheck {
    /// The name as typed, trimmed.
    pub trimmed: String,
    /// It is not empty, has at most `MAX_GROUP_NAME_BYTES` bytes, and holds
    /// only alphanumeric characters, `_` and `-`.
    pub valid: bool,
    /// A group of that name exists already (ignoring ASCII case).
    pub duplicate: bool,
}

impl GroupNameCheck {
    /// Whether the group can be created.
    pub fn can_create(&self) -> (r: bool)
        ensures
            r == (self.valid && !self.duplicate),
    {
        self.valid && !self.duplicate
    }
}

fn same_name_ignoring_case(a: &Vec<char>, b: &Vec<char>) -> (r: bool)
    ensures
        r == same_ignoring_ascii_case(a@, b@),
{
    if a.len() != b.len() {
        return false;
    }
    let mut i: usize = 0;
    while i < a.len()
        invariant
            a@.len() == b@.len(),
            i <= a@.len(),
            forall|j: int| 0 <= j < i ==> ascii_case_eq(#[trigger] a@[j], b@[j]),
        decreases a@.len() - i,
    {
        let x = a[i];
        let y = b[i];
        let same = x == y || ('A' <= x && x <= 'Z' && (y as u32) == (x as u32) + 32) || ('a' <= x
            && x <= 'z' && (y as u32) == (x as u32) - 32);
        if !same {
            return false;
        }
        i = i + 1;
    }
    true
}

/// Checks the name typed for a new group against the rules and the names
/// of the existing groups.
pub fn check_group_name(input: &str, existing: &[String]) -> (r: GroupNameCheck)
    ensures
        r.trimmed@ == crate::text::trim(input@),
        r.valid == (r.trimmed@.len() > 0 && vstd::utf8::encode_utf8(r.trimmed@).len()
            <= MAX_GROUP_NAME_BYTES && forall|i: int|
            0 <= i < r.trimmed@.len() ==> group_name_char(#[trigger] r.trimmed@[i])),
        r.duplicate == exists|k: int|
            0 <= k < existing@.len() && same_ignoring_ascii_case(
                #[trigger] existing@[k]@,
                r.trimmed@,
            ),
{
    let t = crate::text::trim_chars(&crate::chars::to_chars(input));
    proof {
        assert(t@.subrange(0, t@.len() as int) =~= t@);
    }
    let trimmed = crate::chars::string_of(t.as_slice(), 0, t.len());
    let bytes = crate::text_ops::char_to_byte_idx(trimmed.as_str(), t.len());
    proof {
        assert(trimmed@.take(t@.len() as int) =~= trimmed@);
    }
    let mut all_ok = true;
    let mut i: usize = 0;
    while i < t.len()
        invariant
            i <= t@.len(),
            all_ok == forall|j: int| 0 <= j < i ==> group_name_char(#[trigger] t@[j]),
        decreases t@.len() - i,
    {
        let c = t[i];
        let ok = alphanumeric(c) || c == '_' || c == '-';
        proof {
            if !ok {
                assert(!group_name_char(t@[i as int]));
            }
        }
        all_ok = all_ok && ok;
        i = i + 1;
    }
    let valid = t.len() > 0 && bytes <= MAX_GROUP_NAME_BYTES && all_ok;
    let mut duplicate = false;
    let mut k: usize = 0;
    while k < existing.len()
        invariant
            k <= existing@.len(),
            t@ == trimmed@,
            duplicate == exists|j: int|
                0 <= j < k && same_ignoring_ascii_case(#[trigger] existing@[j]@, trimmed@),
        decreases existing@.len() - k,
    {
        let name = crate::chars::to_chars(existing[k].as_str());
        let same = same_name_ignoring_case(&name, &t);
        duplicate = duplicate || same;
        k = k + 1;
    }
    GroupNameCheck { trimmed, valid, duplicate }
}

} // verus!
