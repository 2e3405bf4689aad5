use vstd::prelude::*;

use crate::chars::{texts_view, text_eq};
use crate::text_map::TextMap;

verus! {

/// The view of a conversation key: `None` for the public thread.
pub open spec fn key_view(k: Option<String>) -> Option<Seq<char>> {
    match k {
        Some(s) => Some(s@),
        None => None,
    }
}

/// The drafts left in each conversation: the public thread's, and one per
/// peer or room.
pub struct Drafts {
    pub public_draft: Option<String>,
    pub by_conversation: TextMap<String>,
}

/// The drafts as texts: the public thread's, and those of the peers and rooms.
pub struct DraftsView {
    pub public: Option<Seq<char>>,
    pub private: Map<Seq<char>, Seq<char>>,
}

impl View for Drafts {
    type V = DraftsView;

    open spec fn view(&self) -> DraftsView {
        DraftsView {
            public: key_view(self.public_draft),
            private: self.by_conversation.as_map().map_values(|t: String| t@),
        }
    }
}

/// The drafts with `t` kept for conversation `k`.
pub open spec fn with_draft(d: DraftsView, k: Option<Seq<char>>, t: Seq<char>) -> DraftsView {
    match k {
        None => DraftsView { public: Some(t), private: d.private },
        Some(c) => DraftsView { public: d.public, private: d.private.insert(c, t) },
    }
}

/// The draft of conversation `k`, empty when there is none.
pub open spec fn draft_of(d: DraftsView, k: Option<Seq<char>>) -> Seq<char> {
    match k {
        None => match d.public {
            Some(t) => t,
            None => Seq::empty(),
        },
        Some(c) => if d.private.contains_key(c) {
            d.private[c]
        } else {
            Seq::empty()
        },
    }
}

impl Drafts {
    /// No draft anywhere.
    pub fn new() -> (d: Self)
        ensures
            d@.public is None,
            d@.private == Map::<Seq<char>, Seq<char>>::empty(),
    {
        let d = Drafts { public_draft: None, by_conversation: TextMap::new() };
        assert(d@.private =~= Map::<Seq<char>, Seq<char>>::empty());
        d
    }

    /// Keeps `text` as the draft of `conversation`.
    pub fn save(&mut self, conversation: &Option<String>, text: &str)
        ensures
            final(self)@ == with_draft(old(self)@, key_view(*conversation), text@),
    {
        match conversation {
            None => {
                self.public_draft = Some(String::from_str(text));
            },
            Some(c) => {
                self.by_conversation.insert(c.clone(), String::from_str(text));
                assert(self@.private =~= old(self)@.private.insert(c@, text@));
            },
        }
    }

    /// The draft of `conversation`, empty when there is none.
    pub fn load(&self, conversation: &Option<String>) -> (r: String)
        ensures
            r@ == draft_of(self@, key_view(*conversation)),
    {
        match conversation {
            None => match &self.public_draft {
                Some(t) => t.clone(),
                None => String::new(),
            },
            Some(c) => match self.by_conversation.get(c.as_str()) {
                Some(t) => t.clone(),
                None => String::new(),
            },
        }
    }
}

/// What the composer shows: its text, cursor, selection anchor and focus.
pub struct ComposerFields {
    pub text: String,
    pub cursor_char: usize,
    pub selection_anchor: Option<usize>,
    pub has_focus: bool,
}

/// Leaves conversation `from` for `to`: the composer's text is kept as the
/// draft of `from`, and the draft of `to` (empty if none) takes its place,
/// with the cursor at the start, no selection and no focus.
pub fn switch_conversation(
    drafts: &mut Drafts,
    composer: &mut ComposerFields,
    from: &Option<String>,
    to: &Option<String>,
)
    ensures
        final(drafts)@ == with_draft(old(drafts)@, key_view(*from), old(composer).text@),
        final(composer).text@ == draft_of(final(drafts)@, key_view(*to)),
        final(composer).cursor_char == 0,
        final(composer).selection_anchor is None,
        !final(composer).has_focus,
{
    drafts.save(from, composer.text.as_str());
    composer.text = drafts.load(to);
    composer.cursor_char = 0;
    composer.selection_anchor = None;
    composer.has_focus = false;
}

/// A draft left in a conversation is found again when coming back to it
/// from another conversation: keeping `t` for `a`, then `u` for `b`, leaves
/// `t` as the draft of `a`.
pub proof fn drafts_come_back(
    drafts: DraftsView,
    a: Option<Seq<char>>,
    b: Option<Seq<char>>,
    t: Seq<char>,
    u: Seq<char>,
)
    requires
        a != b,
    ensures
        draft_of(with_draft(with_draft(drafts, a, t), b, u), a) == t,
{
}

/// The conversations in the order of the sidebar: the public thread, then
/// the peers, then the rooms (a room `g` is the conversation `#g`).
pub open spec fn conversation_keys(peers: Seq<Seq<char>>, groups: Seq<Seq<char>>) -> Seq<
    Option<Seq<char>>,
> {
    seq![None::<Seq<char>>] + peers.map_values(|p: Seq<char>| Some(p)) + groups.map_values(
        |g: Seq<char>| Some(seq!['#'] + g),
    )
}

/// Position of the first occurrence of `k` in `keys`, or 0.
pub open spec fn position_or_first(keys: Seq<Option<Seq<char>>>, k: Option<Seq<char>>) -> int {
    if exists|i: int| 0 <= i < keys.len() && keys[i] == k {
        choose|i: int|
            0 <= i < keys.len() && keys[i] == k && forall|j: int| 0 <= j < i ==> keys[j] != k
    } else {
        0
    }
}

/// The conversation `step` places away from `current` in the sidebar order,
/// going round; none when there is only the public thread.
pub open spec fn cycled_conversation(
    peers: Seq<Seq<char>>,
    groups: Seq<Seq<char>>,
    current: Option<Seq<char>>,
    step: int,
) -> Option<Option<Seq<char>>> {
    let keys = conversation_keys(peers, groups);
    if keys.len() < 2 {
        None
    } else {
        Some(keys[(position_or_first(keys, current) + step) % (keys.len() as int)])
    }
}

fn key_of(peers: &[String], groups: &[String], i: usize) -> (r: Option<String>)
    requires
        i < 1 + peers@.len() + groups@.len(),
    ensures
        key_view(r) == conversation_keys(texts_view(peers@), texts_view(groups@))[i as int],
{
    let ghost keys = conversation_keys(texts_view(peers@), texts_view(groups@));
    if i == 0 {
        None
    } else if i - 1 < peers.len() {
        proof {
            assert(keys[i as int] == Some(texts_view(peers@)[i - 1]));
        }
        Some(peers[i - 1].clone())
    } else {
        let g = &groups[i - 1 - peers.len()];
        let mut r = String::from_str("#");
        r.append(g.as_str());
        proof {
            reveal_strlit("#");
            assert(keys[i as int] == Some(seq!['#'] + texts_view(groups@)[i - 1 - peers@.len()]));
            assert(r@ =~= seq!['#'] + g@);
        }
        Some(r)
    }
}

fn same_key(a: &Option<String>, b: &Option<String>) -> (r: bool)
    ensures
        r == (key_view(*a) == key_view(*b)),
{
    match (a, b) {
        (None, None) => true,
        (Some(x), Some(y)) => text_eq(x.as_str(), y.as_str()),
        _ => false,
    }
}

/// The conversation to switch to when cycling by `step` (1 forward, -1
/// back) from `current`; none when there is nothing to cycle through.
pub fn next_conversation(peers: &[String], groups: &[String], current: &Option<String>, step: i64) -> (r:
    Option<Option<String>>)
    requires
        1 + peers@.len() + groups@.len() <= usize::MAX,
        1 + peers@.len() + groups@.len() <= i64::MAX,
    ensures
        match r {
            Some(k) => cycled_conversation(texts_view(peers@), texts_view(groups@), key_view(*current), step as int) == Some(key_view(k)),
            None => cycled_conversation(texts_view(peers@), texts_view(groups@), key_view(*current), step as int) is None,
        },
{
    let ghost keys = conversation_keys(texts_view(peers@), texts_view(groups@));
    let total = 1 + peers.len() + groups.len();
    assert(keys.len() == total);
    if total < 2 {
        return None;
    }
    let mut index: usize = 0;
    let mut i: usize = 0;
    let mut found = false;
    while i < total && !found
        invariant
            total == keys.len(),
            keys == conversation_keys(texts_view(peers@), texts_view(groups@)),
            i <= total,
            total == 1 + peers@.len() + groups@.len(),
            found ==> index < total && keys[index as int] == key_view(*current),
            found ==> forall|j: int| 0 <= j < index ==> keys[j] != key_view(*current),
            !found ==> index == 0,
            !found ==> forall|j: int| 0 <= j < i ==> keys[j] != key_view(*current),
        decreases total - i + if found {
            0int
        } else {
            1int
        },
    {
        let k = key_of(peers, groups, i);
        if same_key(&k, current) {
            index = i;
            found = true;
        } else {
            i = i + 1;
        }
    }
    proof {
        if found {
            assert(position_or_first(keys, key_view(*current)) == index) by {
                let p = position_or_first(keys, key_view(*current));
                if p < index {
                    assert(keys[p] == key_view(*current));
                } else if p > index {
                    assert(keys[index as int] == key_view(*current));
                }
            }
        } else {
            assert(i == total);
            assert(!(exists|j: int| 0 <= j < keys.len() && keys[j] == key_view(*current)));
        }
    }
    let n: u64 = total as u64;
    let shift: u64 = if step >= 0 {
        (step as u64) % n
    } else {
        let back: u64 = (0i128 - step as i128) as u64;
        let r = back % n;
        if r == 0 {
            0
        } else {
            n - r
        }
    };
    let next: u64 = ((index as u64) + shift) % n;
    proof {
        let ni = n as int;
        let pos = position_or_first(keys, key_view(*current));
        assert(pos == index);
        if step >= 0 {
            vstd::arithmetic::div_mod::lemma_fundamental_div_mod(step as int, ni);
            vstd::arithmetic::div_mod::lemma_mod_multiples_vanish((step as int) / ni, index + shift, ni);
            assert(index + step == ni * ((step as int) / ni) + (index + shift));
        } else {
            let back = -(step as int);
            vstd::arithmetic::div_mod::lemma_fundamental_div_mod(back, ni);
            let q = back / ni;
            let r = back % ni;
            if r == 0 {
                vstd::arithmetic::div_mod::lemma_mod_multiples_vanish(-q, index + shift, ni);
                assert(index + step == ni * (-q) + (index + shift)) by (nonlinear_arith)
                    requires
                        back == ni * q + r,
                        r == 0,
                        shift == 0,
                        back == -(step as int),
                ;
            } else {
                vstd::arithmetic::div_mod::lemma_mod_multiples_vanish(-q - 1, index + shift, ni);
                assert(index + step == ni * (-q - 1) + (index + shift)) by (nonlinear_arith)
                    requires
                        back == ni * q + r,
                        shift == ni - r,
                        back == -(step as int),
                ;
            }
        }
    }
    Some(key_of(peers, groups, next as usize))
}

/// The title of the open conversation: the peer's display name in a
/// private conversation, the room's name for a room, otherwise the
/// conversation's key, or `all_label` for the public thread.
pub fn conversation_title(
    private_peer_display: &Option<String>,
    group_name: &Option<String>,
    selected: &Option<String>,
    all_label: &str,
) -> (r: String)
    ensures
        r@ == match *private_peer_display {
            Some(name) => name@,
            None => match *group_name {
                Some(g) => g@,
                None => match *selected {
                    Some(c) => c@,
                    None => all_label@,
                },
            },
        },
{
    match private_peer_display {
        Some(name) => name.clone(),
        None => match group_name {
            Some(g) => g.clone(),
            None => match selected {
                Some(c) => c.clone(),
                None => String::from_str(all_label),
            },
        },
    }
}

/// The subtitle of a room: its number of members and the word for one
/// member or for several.
pub fn members_label(count: u64, singular: &str, plural: &str) -> (r: String)
    ensures
        r@ == crate::media::decimal_text(count as nat) + seq![' '] + if count > 1 {
            plural@
        } else {
            singular@
        },
{
    let mut r = crate::media::decimal_string(count);
    crate::chars::push_char(&mut r, ' ');
    if count > 1 {
        r.append(plural);
    } else {
        r.append(singular);
    }
    r
}

/// The text of an unread badge: none without unread messages, the count up
/// to 99, then `99+`.
pub fn unread_badge_text(unread: u64) -> (r: Option<String>)
    ensures
        unread == 0 ==> r is None,
        0 < unread <= 99 ==> (r matches Some(t) && t@ == crate::media::decimal_text(unread as nat)),
        unread > 99 ==> (r matches Some(t) && t@ == seq!['9', '9', '+']),
{
    if unread == 0 {
        None
    } else if unread > 99 {
        let r = String::from_str("99+");
        proof {
            reveal_strlit("99+");
        }
        Some(r)
    } else {
        Some(crate::media::decimal_string(unread))
    }
}

/// The windows and panels laid over the thread, from the topmost.
pub struct Overlays {
    pub media_viewer: bool,
    pub gif_picker: bool,
    pub emoji_picker: bool,
    pub settings: bool,
    pub group_modal: bool,
    pub search: bool,
    pub rename_target: Option<String>,
    pub group_manage_target: Option<String>,
}

/// Closes the topmost overlay (Escape): the media viewer, else the first open
/// of the GIF picker, the emoji picker, the settings, the group window and
/// the search, else the rename and group management targets are dropped.
pub fn close_topmost_overlay(o: &mut Overlays)
    ensures
        if old(o).media_viewer {
            &&& !final(o).media_viewer
            &&& final(o).gif_picker == old(o).gif_picker
            &&& final(o).emoji_picker == old(o).emoji_picker
            &&& final(o).settings == old(o).settings
            &&& final(o).group_modal == old(o).group_modal
            &&& final(o).search == old(o).search
            &&& final(o).rename_target == old(o).rename_target
            &&& final(o).group_manage_target == old(o).group_manage_target
        } else if old(o).gif_picker {
            &&& !final(o).gif_picker
            &&& final(o).emoji_picker == old(o).emoji_picker && final(o).settings == old(o).settings
            &&& final(o).group_modal == old(o).group_modal && final(o).search == old(o).search
            &&& final(o).rename_target == old(o).rename_target
            &&& final(o).group_manage_target == old(o).group_manage_target
            &&& final(o).media_viewer == old(o).media_viewer
        } else if old(o).emoji_picker {
            &&& !final(o).emoji_picker
            &&& final(o).gif_picker == old(o).gif_picker && final(o).settings == old(o).settings
            &&& final(o).group_modal == old(o).group_modal && final(o).search == old(o).search
            &&& final(o).rename_target == old(o).rename_target
            &&& final(o).group_manage_target == old(o).group_manage_target
            &&& final(o).media_viewer == old(o).media_viewer
        } else if old(o).settings {
            &&& !final(o).settings
            &&& final(o).gif_picker == old(o).gif_picker && final(o).emoji_picker == old(o).emoji_picker
            &&& final(o).group_modal == old(o).group_modal && final(o).search == old(o).search
            &&& final(o).rename_target == old(o).rename_target
            &&& final(o).group_manage_target == old(o).group_manage_target
            &&& final(o).media_viewer == old(o).media_viewer
        } else if old(o).group_modal {
            &&& !final(o).group_modal
            &&& final(o).gif_picker == old(o).gif_picker && final(o).emoji_picker == old(o).emoji_picker
            &&& final(o).settings == old(o).settings && final(o).search == old(o).search
            &&& final(o).rename_target == old(o).rename_target
            &&& final(o).group_manage_target == old(o).group_manage_target
            &&& final(o).media_viewer == old(o).media_viewer
        } else if old(o).search {
            &&& !final(o).search
            &&& final(o).gif_picker == old(o).gif_picker && final(o).emoji_picker == old(o).emoji_picker
            &&& final(o).settings == old(o).settings && final(o).group_modal == old(o).group_modal
            &&& final(o).rename_target == old(o).rename_target
            &&& final(o).group_manage_target == old(o).group_manage_target
            &&& final(o).media_viewer == old(o).media_viewer
        } else {
            &&& final(o).rename_target is None
            &&& final(o).group_manage_target is None
            &&& !final(o).media_viewer && !final(o).gif_picker && !final(o).emoji_picker
            &&& !final(o).settings && !final(o).group_modal && !final(o).search
        },
{
    if o.media_viewer {
        o.media_viewer = false;
        return;
    }
    if o.gif_picker {
        o.gif_picker = false;
        return;
    }
    if o.emoji_picker {
        o.emoji_picker = false;
        return;
    }
    if o.settings {
        o.settings = false;
        return;
    }
    if o.group_modal {
        o.group_modal = false;
        return;
    }
    if o.search {
        o.search = false;
        return;
    }
    o.rename_target = None;
    o.group_manage_target = None;
}

} // verus!
