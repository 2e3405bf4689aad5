use vstd::prelude::*;

use crate::chars::{push_char, text_eq, texts_view};
use crate::chat::elided;
use crate::groups::{group_media_authorized, groups_view, media_authorized, GroupView, GroupsState};
use crate::navigation::key_view;
use crate::sending::native_body;

verus! {

/// How the user is told of a message.
#[derive(Debug, PartialEq, Eq)]
pub enum Alert {
    /// No sound and no system notification.
    Silent,
    /// A system notification, the window being hidden.
    Native { title: String, body: String },
    /// The notification sound.
    Sound,
}

/// What the user's window and preferences say about alerts.
pub struct Attention {
    pub window_focused: bool,
    pub window_hidden: bool,
    pub sound_enabled: bool,
    /// Whether system notifications show the message's text.
    pub preview: bool,
    /// The body of a system notification without preview.
    pub new_message_label: String,
}

/// What to do with a message received from the network.
#[derive(Debug, PartialEq, Eq)]
pub struct IncomingPlan {
    /// The message belongs to a room that is unknown or that the local user
    /// or the sender is not in: it is dropped and nothing else happens.
    pub dropped: bool,
    /// Acknowledge delivery (a message from another peer).
    pub send_acks: bool,
    /// Also say it was read (its conversation is open in the focused window).
    pub send_read_receipts: bool,
    /// The text shown in the application's notification line.
    pub notification: Option<String>,
    /// The unread marker is to be set.
    pub mark_unread: bool,
    pub alert: Alert,
}

/// The view of an alert.
pub enum AlertView {
    Silent,
    Native { title: Seq<char>, body: Seq<char> },
    Sound,
}

impl View for Alert {
    type V = AlertView;

    open spec fn view(&self) -> AlertView {
        match self {
            Alert::Silent => AlertView::Silent,
            Alert::Native { title, body } => AlertView::Native { title: title@, body: body@ },
            Alert::Sound => AlertView::Sound,
        }
    }
}

/// Whether `t` names a room (`#name`).
pub open spec fn is_room(t: Seq<char>) -> bool {
    t.len() > 0 && t[0] == '#'
}

/// The conversation a received message belongs to: the public thread, its
/// room, or its sender.
pub open spec fn source_conversation(from: Seq<char>, to_user: Option<Seq<char>>) -> Option<
    Seq<char>,
> {
    match to_user {
        None => None,
        Some(t) => if is_room(t) {
            Some(t)
        } else {
            Some(from)
        },
    }
}

/// The notification line for a message: `#room · sender: text`, or
/// `sender: text`.
pub open spec fn notification_text(from: Seq<char>, to_user: Option<Seq<char>>, content: Seq<char>) -> Seq<
    char,
> {
    match to_user {
        Some(t) => if is_room(t) {
            t + seq![' ', '\u{b7}', ' '] + from + seq![':', ' '] + content
        } else {
            from + seq![':', ' '] + content
        },
        None => from + seq![':', ' '] + content,
    }
}

/// Whether a received message is dropped: it is for a room whose first
/// group of that name does not count both the local user and the sender.
pub open spec fn dropped_message(
    groups: Seq<GroupView>,
    me: Seq<char>,
    from: Seq<char>,
    to_user: Option<Seq<char>>,
) -> bool {
    match to_user {
        Some(t) => is_room(t) && !media_authorized(groups, me, t.skip(1), from),
        None => false,
    }
}

/// The view of a list of optional conversation keys.
pub open spec fn keys_view(v: Seq<Option<String>>) -> Seq<Option<Seq<char>>> {
    v.map_values(|k: Option<String>| key_view(k))
}

/// What the alert of a message from another peer is: a system notification
/// when the window is hidden (none if the conversation is muted), otherwise
/// the sound when it is enabled and the conversation is neither open nor
/// muted.
pub open spec fn alert_of(
    from: Seq<char>,
    content: Seq<char>,
    source: Option<Seq<char>>,
    selected: Option<Seq<char>>,
    muted: bool,
    attention: Attention,
) -> AlertView {
    if attention.window_hidden {
        if muted {
            AlertView::Silent
        } else {
            AlertView::Native {
                title: from,
                body: if attention.preview {
                    elided(content, 120)
                } else {
                    attention.new_message_label@
                },
            }
        }
    } else if attention.sound_enabled && selected != source && !muted {
        AlertView::Sound
    } else {
        AlertView::Silent
    }
}

pub(crate) fn opt_eq(a: &Option<String>, b: &Option<String>) -> (r: bool)
    ensures
        r == (key_view(*a) == key_view(*b)),
{
    match (a, b) {
        (None, None) => true,
        (Some(x), Some(y)) => text_eq(x.as_str(), y.as_str()),
        _ => false,
    }
}

fn append_text(s: &mut String, t: &str)
    ensures
        final(s)@ == old(s)@ + t@,
{
    s.append(t);
}

fn room_name(t: &str) -> (r: String)
    requires
        t@.len() > 0,
    ensures
        r@ == t@.skip(1),
{
    let n = t.unicode_len();
    let r = String::from_str(t.substring_char(1, n));
    assert(t@.subrange(1, n as int) =~= t@.skip(1));
    r
}

/// Decides what to do with a message from `from` to `to_user` (none for
/// the public thread) with text `content`, given the groups, the open
/// conversation, the muted conversations and the state of the window.
pub fn incoming_message_plan(
    groups: &GroupsState,
    from: &str,
    to_user: &Option<String>,
    content: &str,
    selected: &Option<String>,
    muted: &[Option<String>],
    attention: &Attention,
) -> (r: IncomingPlan)
    ensures
        ({
            let to = key_view(*to_user);
            let sel = key_view(*selected);
            let source = source_conversation(from@, to);
            let me = groups.my_username@;
            let other = from@ != me;
            &&& r.dropped == dropped_message(groups_view(groups.groups@), me, from@, to)
            &&& r.dropped ==> !r.send_acks && !r.send_read_receipts && r.notification is None
                && !r.mark_unread && r.alert@ == AlertView::Silent
            &&& !r.dropped ==> {
                &&& r.send_acks == other
                &&& r.send_read_receipts == (other && attention.window_focused && sel == source)
                &&& r.mark_unread == other
                &&& r.notification matches Some(n) ==> other && n@ == notification_text(from@, to, content@)
                &&& r.notification is None ==> !other
                &&& r.alert@ == if other {
                    alert_of(from@, content@, source, sel, keys_view(muted@).contains(source), *attention)
                } else {
                    AlertView::Silent
                }
            }
        }),
{
    let silent = IncomingPlan {
        dropped: true,
        send_acks: false,
        send_read_receipts: false,
        notification: None,
        mark_unread: false,
        alert: Alert::Silent,
    };
    let ghost to = key_view(*to_user);
    let room = match to_user {
        Some(t) => {
            let chars = crate::chars::to_chars(t.as_str());
            chars.len() > 0 && chars[0] == '#'
        },
        None => false,
    };
    if room {
        let t = to_user.as_ref().unwrap();
        let name = room_name(t.as_str());
        if !group_media_authorized(groups, name.as_str(), from) {
            return silent;
        }
    }
    let other = !text_eq(from, groups.my_username.as_str());
    let source: Option<String> = match to_user {
        None => None,
        Some(t) => if room {
            Some(t.clone())
        } else {
            Some(String::from_str(from))
        },
    };
    if !other {
        return IncomingPlan {
            dropped: false,
            send_acks: false,
            send_read_receipts: false,
            notification: None,
            mark_unread: false,
            alert: Alert::Silent,
        };
    }
    let reading = attention.window_focused && opt_eq(selected, &source);
    let mut line = String::new();
    if room {
        let t = to_user.as_ref().unwrap();
        append_text(&mut line, t.as_str());
        push_char(&mut line, ' ');
        push_char(&mut line, '\u{b7}');
        push_char(&mut line, ' ');
    }
    append_text(&mut line, from);
    push_char(&mut line, ':');
    push_char(&mut line, ' ');
    append_text(&mut line, content);
    let mut is_muted = false;
    let mut i: usize = 0;
    while i < muted.len()
        invariant
            i <= muted@.len(),
            is_muted == keys_view(muted@).take(i as int).contains(source_conversation(from@, to)),
            key_view(source) == source_conversation(from@, to),
        decreases muted@.len() - i,
    {
        let hit = opt_eq(&muted[i], &source);
        proof {
            let kv = keys_view(muted@);
            assert(kv.take(i + 1) =~= kv.take(i as int).push(kv[i as int]));
            if hit {
                assert(kv.take(i + 1)[i as int] == source_conversation(from@, to));
            }
            if !hit && !is_muted {
                assert(!kv.take(i + 1).contains(source_conversation(from@, to))) by {
                    if kv.take(i + 1).contains(source_conversation(from@, to)) {
                        let j = choose|j: int|
                            0 <= j < i + 1 && #[trigger] kv.take(i + 1)[j] == source_conversation(
                                from@,
                                to,
                            );
                        if j < i {
                            assert(kv.take(i as int)[j] == kv.take(i + 1)[j]);
                        }
                    }
                }
            }
            if is_muted {
                let j = choose|j: int|
                    0 <= j < i && #[trigger] kv.take(i as int)[j] == source_conversation(from@, to);
                assert(kv.take(i + 1)[j] == kv.take(i as int)[j]);
            }
        }
        is_muted = is_muted || hit;
        i = i + 1;
    }
    proof {
        assert(keys_view(muted@).take(i as int) =~= keys_view(muted@));
    }
    let alert = if attention.window_hidden {
        if is_muted {
            Alert::Silent
        } else {
            Alert::Native {
                title: String::from_str(from),
                body: native_body(content, attention.preview, attention.new_message_label.as_str()),
            }
        }
    } else if attention.sound_enabled && !opt_eq(selected, &source) && !is_muted {
        Alert::Sound
    } else {
        Alert::Silent
    };
    IncomingPlan {
        dropped: false,
        send_acks: true,
        send_read_receipts: reading,
        notification: Some(line),
        mark_unread: true,
        alert,
    }
}

/// How an incoming file or a changed identity key is announced: a system
/// notification with `title` and `body` when the window is hidden, otherwise
/// the sound when it is enabled.
pub fn event_alert(window_hidden: bool, sound_enabled: bool, title: &str, body: &str) -> (r: Alert)
    ensures
        r@ == if window_hidden {
            AlertView::Native { title: title@, body: body@ }
        } else if sound_enabled {
            AlertView::Sound
        } else {
            AlertView::Silent
        },
{
    if window_hidden {
        Alert::Native { title: String::from_str(title), body: String::from_str(body) }
    } else if sound_enabled {
        Alert::Sound
    } else {
        Alert::Silent
    }
}

/// The groups to send again to a peer that (re)appears: those the local
/// user owns and the peer is a member of, in order.
pub open spec fn resync_positions(groups: Seq<GroupView>, me: Seq<char>, peer: Seq<char>) -> Seq<int> {
    Seq::new(groups.len(), |i: int| i).filter(
        |i: int| groups[i].owner == me && groups[i].members.contains(peer),
    )
}

/// The positions of the groups to send again to `peer`.
pub fn groups_to_resync(groups: &GroupsState, peer: &str) -> (r: Vec<usize>)
    ensures
        r@.map_values(|k: usize| k as int) == resync_positions(
            groups_view(groups.groups@),
            groups.my_username@,
            peer@,
        ),
{
    let ghost gv = groups_view(groups.groups@);
    let ghost me = groups.my_username@;
    let ghost all = Seq::new(gv.len(), |i: int| i);
    let ghost pred = |i: int| gv[i].owner == me && gv[i].members.contains(peer@);
    let mut r: Vec<usize> = Vec::new();
    let mut i: usize = 0;
    proof {
        reveal(Seq::filter);
        assert(all.take(0) =~= Seq::<int>::empty());
        assert(r@.map_values(|k: usize| k as int) =~= all.take(0).filter(pred));
    }
    while i < groups.groups.len()
        invariant
            i <= groups.groups@.len(),
            gv == groups_view(groups.groups@),
            me == groups.my_username@,
            all == Seq::new(gv.len(), |i: int| i),
            pred == (|i: int| gv[i].owner == me && gv[i].members.contains(peer@)),
            r@.map_values(|k: usize| k as int) == all.take(i as int).filter(pred),
        decreases groups.groups@.len() - i,
    {
        proof {
            assert(all.take(i + 1) =~= all.take(i as int).push(i as int));
            all.take(i as int).lemma_filter_push(i as int, pred);
        }
        let g = &groups.groups[i];
        let mut member = false;
        let mut j: usize = 0;
        while j < g.members.len()
            invariant
                j <= g.members@.len(),
                member == texts_view(g.members@).take(j as int).contains(peer@),
            decreases g.members@.len() - j,
        {
            let hit = text_eq(g.members[j].as_str(), peer);
            proof {
                let mv = texts_view(g.members@);
                assert(mv.take(j + 1) =~= mv.take(j as int).push(mv[j as int]));
                if hit {
                    assert(mv.take(j + 1)[j as int] == peer@);
                }
                if member {
                    let k = choose|k: int| 0 <= k < j && #[trigger] mv.take(j as int)[k] == peer@;
                    assert(mv.take(j + 1)[k] == mv.take(j as int)[k]);
                }
                if !hit && !member {
                    assert(!mv.take(j + 1).contains(peer@)) by {
                        if mv.take(j + 1).contains(peer@) {
                            let k = choose|k: int| 0 <= k < j + 1 && #[trigger] mv.take(j + 1)[k] == peer@;
                            if k < j {
                                assert(mv.take(j as int)[k] == mv.take(j + 1)[k]);
                            }
                        }
                    }
                }
            }
            member = member || hit;
            j = j + 1;
        }
        proof {
            assert(texts_view(g.members@).take(j as int) =~= texts_view(g.members@));
        }
        if member && text_eq(g.owner.as_str(), groups.my_username.as_str()) {
            let ghost before = r@.map_values(|k: usize| k as int);
            r.push(i);
            proof {
                assert(r@.map_values(|k: usize| k as int) =~= before.push(i as int));
            }
        }
        i = i + 1;
    }
    proof {
        assert(all.take(i as int) =~= all);
    }
    r
}

/// A muted conversation never alerts; the conversation being read never
/// beeps; with the window hidden, a message of a conversation that is not
/// muted always gives a system notification, titled with its sender.
pub proof fn alerts_respect_mute_and_focus(
    from: Seq<char>,
    content: Seq<char>,
    source: Option<Seq<char>>,
    selected: Option<Seq<char>>,
    muted: bool,
    attention: Attention,
)
    ensures
        muted ==> alert_of(from, content, source, selected, muted, attention) == AlertView::Silent,
        !attention.window_hidden && selected == source ==> alert_of(
            from,
            content,
            source,
            selected,
            muted,
            attention,
        ) == AlertView::Silent,
        attention.window_hidden && !muted ==> (alert_of(
            from,
            content,
            source,
            selected,
            muted,
            attention,
        ) matches AlertView::Native { title, .. } && title == from),
{
}

/// The sender and the addressee of a message.
pub struct MessageHead {
    pub from: String,
    pub to_user: Option<String>,
}

/// Whether a message from `from` to `to` belongs to conversation `conv`
/// (`None` for the public thread, `#name` for a room, or a peer) as seen by
/// `me`.
pub open spec fn in_conversation(
    conv: Option<Seq<char>>,
    me: Seq<char>,
    from: Seq<char>,
    to: Option<Seq<char>>,
) -> bool {
    match (conv, to) {
        (None, None) => true,
        (Some(c), Some(t)) => if is_room(c) {
            t == c
        } else {
            from == c && t == me
        },
        _ => false,
    }
}

/// Whether opening `conv` acknowledges a message: one received from
/// someone else in that conversation.
pub open spec fn acknowledged(conv: Option<Seq<char>>, me: Seq<char>, m: MessageHead) -> bool {
    m.from@ != me && in_conversation(conv, me, m.from@, key_view(m.to_user))
}

/// Positions of the messages that opening `conv` acknowledges, in order.
pub open spec fn acknowledged_positions(conv: Option<Seq<char>>, me: Seq<char>, msgs: Seq<MessageHead>) -> Seq<int>
    decreases msgs.len(),
{
    if msgs.len() == 0 {
        Seq::empty()
    } else {
        let before = acknowledged_positions(conv, me, msgs.drop_last());
        if acknowledged(conv, me, msgs.last()) {
            before.push(msgs.len() - 1)
        } else {
            before
        }
    }
}

/// The messages for which opening `conversation` sends read receipts: those
/// received from someone else in it.
pub fn messages_to_acknowledge(conversation: &Option<String>, me: &str, messages: &[MessageHead]) -> (r: Vec<usize>)
    ensures
        r@.map_values(|i: usize| i as int) == acknowledged_positions(key_view(*conversation), me@, messages@),
{
    let is_room_conv = match conversation {
        Some(c) => {
            let chars = crate::chars::to_chars(c.as_str());
            chars.len() > 0 && chars[0] == '#'
        },
        None => false,
    };
    let mut r: Vec<usize> = Vec::new();
    let mut i: usize = 0;
    while i < messages.len()
        invariant
            i <= messages@.len(),
            is_room_conv == (conversation matches Some(c) && is_room(c@)),
            r@.map_values(|i: usize| i as int) == acknowledged_positions(
                key_view(*conversation),
                me@,
                messages@.take(i as int),
            ),
        decreases messages@.len() - i,
    {
        let m = &messages[i];
        let wanted = !text_eq(m.from.as_str(), me) && match (conversation, &m.to_user) {
            (None, None) => true,
            (Some(c), Some(t)) => if is_room_conv {
                text_eq(t.as_str(), c.as_str())
            } else {
                text_eq(m.from.as_str(), c.as_str()) && text_eq(t.as_str(), me)
            },
            _ => false,
        };
        proof {
            assert(messages@.take(i + 1).drop_last() =~= messages@.take(i as int));
            assert(messages@.take(i + 1).last() == messages@[i as int]);
        }
        if wanted {
            let ghost old_r = r@;
            r.push(i);
            proof {
                assert(r@.map_values(|i: usize| i as int) =~= old_r.map_values(|i: usize| i as int).push(i as int));
            }
        }
        i = i + 1;
    }
    proof {
        assert(messages@.take(i as int) =~= messages@);
    }
    r
}

/// Takes the results of a search when they answer the query submitted
/// last; results of an older query are dropped. Says whether they were
/// taken.
pub fn accept_search_results<T>(query: &str, submitted: &str, results: &mut Vec<T>, found: Vec<T>) -> (r: bool)
    ensures
        r == (query@ == submitted@),
        r ==> final(results)@ == found@,
        !r ==> final(results)@ == old(results)@,
{
    if text_eq(query, submitted) {
        *results = found;
        true
    } else {
        false
    }
}

/// A page of older messages has arrived (`count` of them): the thread shows
/// that many more, or, when there were none left, stops keeping its place
/// for a page to come (`prepend_fix`); either way the loading is over.
pub fn older_messages_loaded<T>(
    count: usize,
    visible_count: &mut usize,
    prepend_fix: &mut Option<T>,
    loading_older: &mut bool,
)
    requires
        *old(visible_count) + count <= usize::MAX,
    ensures
        *final(visible_count) == *old(visible_count) + count,
        count == 0 ==> *final(prepend_fix) is None,
        count > 0 ==> *final(prepend_fix) == *old(prepend_fix),
        !*final(loading_older),
{
    if count == 0 {
        *prepend_fix = None;
    } else {
        *visible_count = *visible_count + count;
    }
    *loading_older = false;
}

} // verus!
