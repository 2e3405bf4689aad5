use vstd::prelude::*;

use crate::chars::{push_char, texts_view, to_chars};
use crate::text::{all_white, all_white_exec, lemma_trim_empty, trim, trim_chars};

verus! {

/// Gap after which consecutive messages of one author start a new group.
pub const GROUP_BREAK_SECS: u64 = 300;

/// Whether a message opens a new group of the thread: the author changes,
/// the day changes, or, when both instants are known, more than
/// `GROUP_BREAK_SECS` passed since the previous message.
pub open spec fn new_group(
    prev_from: Option<Seq<char>>,
    prev_epoch: Option<u64>,
    from: Seq<char>,
    epoch: Option<u64>,
    day_changed: bool,
) -> bool {
    if prev_from != Some(from) || day_changed {
        true
    } else {
        match (prev_epoch, epoch) {
            (Some(prev), Some(now)) => now > prev && now - prev > GROUP_BREAK_SECS,
            _ => false,
        }
    }
}

/// Decides whether a message opens a new group (a header with avatar).
pub fn starts_new_group(
    prev_from: Option<&str>,
    prev_epoch: Option<u64>,
    from: &str,
    epoch: Option<u64>,
    day_changed: bool,
) -> (r: bool)
    ensures
        r == new_group(
            match prev_from {
                Some(p) => Some(p@),
                None => None,
            },
            prev_epoch,
            from@,
            epoch,
            day_changed,
        ),
{
    let same_author = match prev_from {
        Some(p) => crate::chars::text_eq(p, from),
        None => false,
    };
    if !same_author || day_changed {
        return true;
    }
    match (prev_epoch, epoch) {
        (Some(prev), Some(now)) => now.saturating_sub(prev) > GROUP_BREAK_SECS,
        _ => false,
    }
}

/// Whether the composer's content is sent: Enter was pressed (or the
/// fallback Enter while no shortcode menu is open) and the text is not blank.
pub fn should_send_message(
    pressed_enter: bool,
    pressed_enter_fallback: bool,
    shortcode_menu_open: bool,
    input: &str,
) -> (r: bool)
    ensures
        r == ((pressed_enter || (pressed_enter_fallback && !shortcode_menu_open)) && trim(
            input@,
        ).len() > 0),
{
    let chars = to_chars(input);
    let blank = all_white_exec(&chars, 0, chars.len());
    proof {
        assert(chars@.subrange(0, chars@.len() as int) =~= input@);
        lemma_trim_empty(input@);
    }
    (pressed_enter || (pressed_enter_fallback && !shortcode_menu_open)) && !blank
}

/// Whether an entry differs from `emoji`.
pub open spec fn differs_from(emoji: Seq<char>) -> spec_fn(Seq<char>) -> bool {
    |e: Seq<char>| e != emoji
}

/// `recent` without `emoji`, with `emoji` put first, cut to `max_len`.
pub open spec fn recent_after_use(recent: Seq<Seq<char>>, emoji: Seq<char>, max_len: int) -> Seq<
    Seq<char>,
> {
    let moved = seq![emoji] + recent.filter(differs_from(emoji));
    if moved.len() > max_len {
        moved.take(max_len)
    } else {
        moved
    }
}

/// Moves `emoji` to the front of `recent` (or inserts it there) and keeps at
/// most `max_len` entries.
pub fn update_recent_emojis(recent: &mut Vec<String>, emoji: &str, max_len: usize)
    ensures
        texts_view(final(recent)@) == recent_after_use(texts_view(old(recent)@), emoji@, max_len as int),
{
    let ghost pred = differs_from(emoji@);
    let ghost old_view = texts_view(recent@);
    let mut kept: Vec<String> = Vec::new();
    let first = String::from_str(emoji);
    kept.push(first);
    let mut i: usize = 0;
    proof {
        assert(texts_view(kept@) =~= seq![emoji@] + old_view.take(0).filter(pred)) by {
            reveal(Seq::filter);
            assert(old_view.take(0) =~= Seq::<Seq<char>>::empty());
        }
    }
    while i < recent.len()
        invariant
            i <= recent@.len(),
            old_view == texts_view(recent@),
            pred == differs_from(emoji@),
            texts_view(kept@) == seq![emoji@] + old_view.take(i as int).filter(pred),
        decreases recent@.len() - i,
    {
        proof {
            assert(old_view.take(i + 1) =~= old_view.take(i as int).push(old_view[i as int]));
            old_view.take(i as int).lemma_filter_push(old_view[i as int], pred);
        }
        if !crate::chars::text_eq(recent[i].as_str(), emoji) {
            let ghost before = texts_view(kept@);
            kept.push(recent[i].clone());
            proof {
                assert(texts_view(kept@) =~= before.push(old_view[i as int]));
                assert(seq![emoji@] + old_view.take(i as int).filter(pred).push(old_view[i as int])
                    =~= before.push(old_view[i as int]));
            }
        }
        i = i + 1;
    }
    proof {
        assert(old_view.take(i as int) =~= old_view);
    }
    if kept.len() > max_len {
        kept.truncate(max_len);
        proof {
            assert(texts_view(kept@) =~= (seq![emoji@] + old_view.filter(pred)).take(max_len as int));
        }
    }
    *recent = kept;
}

/// `text` if it has at most `max_chars` characters; otherwise its first
/// `max_chars - 1` characters followed by an ellipsis.
pub open spec fn elided(text: Seq<char>, max_chars: int) -> Seq<char> {
    if text.len() <= max_chars {
        text
    } else {
        text.take(if max_chars > 0 {
            max_chars - 1
        } else {
            0
        }).push('\u{2026}')
    }
}

/// Shortens a text that is too long, ending it with an ellipsis.
pub fn elide(text: &str, max_chars: usize) -> (r: String)
    ensures
        r@ == elided(text@, max_chars as int),
{
    let n = text.unicode_len();
    if n <= max_chars {
        return String::from_str(text);
    }
    let keep = max_chars.saturating_sub(1);
    let mut kept = String::from_str(text.substring_char(0, keep));
    crate::chars::push_char(&mut kept, '\u{2026}');
    proof {
        assert(text@.subrange(0, keep as int) =~= text@.take(keep as int));
    }
    kept
}

/// The conversation a message belongs to, seen by `me`: none for the public
/// thread, the room for a `#room`, otherwise the other person.
pub open spec fn conversation_of_spec(
    from: Seq<char>,
    to_user: Option<Seq<char>>,
    me: Seq<char>,
) -> Option<Seq<char>> {
    match to_user {
        None => None,
        Some(room) => if room.len() > 0 && room[0] == '#' {
            Some(room)
        } else if from == me {
            Some(room)
        } else {
            Some(from)
        },
    }
}

/// The conversation a message belongs to, from the reader's side.
pub fn conversation_of(from: &str, to_user: Option<&str>, me: &str) -> (r: Option<String>)
    ensures
        match r {
            Some(c) => conversation_of_spec(
                from@,
                match to_user {
                    Some(t) => Some(t@),
                    None => None,
                },
                me@,
            ) == Some(c@),
            None => conversation_of_spec(
                from@,
                match to_user {
                    Some(t) => Some(t@),
                    None => None,
                },
                me@,
            ) is None,
        },
{
    match to_user {
        None => None,
        Some(room) => {
            let chars = to_chars(room);
            if chars.len() > 0 && chars[0] == '#' {
                Some(String::from_str(room))
            } else if crate::chars::text_eq(from, me) {
                Some(String::from_str(room))
            } else {
                Some(String::from_str(from))
            }
        },
    }
}

/// Label of a conversation: its name, or `Tous` for the public thread.
pub fn conversation_label(conversation: &Option<String>) -> (r: String)
    ensures
        r@ == match conversation {
            Some(c) => c@,
            None => "Tous"@,
        },
{
    match conversation {
        Some(c) => c.clone(),
        None => String::from_str("Tous"),
    }
}

/// An alias, trimmed; none when it is blank.
pub fn clean_alias(alias: Option<&str>) -> (r: Option<String>)
    ensures
        match r {
            Some(a) => alias matches Some(x) && a@ == trim(x@) && a@.len() > 0,
            None => alias matches Some(x) ==> trim(x@).len() == 0,
        },
{
    match alias {
        Some(a) => {
            let t = trim_chars(&to_chars(a));
            if t.len() == 0 {
                None
            } else {
                let s = crate::chars::string_of(t.as_slice(), 0, t.len());
                proof {
                    assert(t@.subrange(0, t@.len() as int) =~= t@);
                }
                Some(s)
            }
        },
        None => None,
    }
}

/// Label of a network's subnet: `<subnet>.x`, or `unknown_label` when the
/// subnet is unknown.
pub fn subnet_label(subnet: &str, unknown_label: &str) -> (r: String)
    ensures
        r@ == if subnet@.len() == 0 {
            unknown_label@
        } else {
            subnet@ + seq!['.', 'x']
        },
{
    if subnet.is_empty() {
        String::from_str(unknown_label)
    } else {
        let mut r = String::from_str(subnet);
        r.append(".x");
        proof {
            reveal_strlit(".x");
            assert(".x"@ =~= seq!['.', 'x']);
        }
        r
    }
}

/// Name of a network: its identifier, or its subnet label when it has none.
pub fn network_base_name(id: &str, subnet: &str, unknown_label: &str) -> (r: String)
    ensures
        r@ == if id@.len() > 0 {
            id@
        } else if subnet@.len() == 0 {
            unknown_label@
        } else {
            subnet@ + seq!['.', 'x']
        },
{
    if !id.is_empty() {
        String::from_str(id)
    } else {
        subnet_label(subnet, unknown_label)
    }
}

/// Whether a GIF feed still has to be loaded: it is idle and holds no item.
pub fn needs_init(idle: bool, item_count: usize) -> (r: bool)
    ensures
        r == (idle && item_count == 0),
{
    idle && item_count == 0
}


/// Both ends of a private message place it in the same conversation, the one
/// with the other person; a message to a `#room` belongs to the room for
/// everyone, and a message to nobody to the public thread.
pub proof fn conversations_agree(a: Seq<char>, b: Seq<char>, reader: Seq<char>)
    requires
        a != b,
    ensures
        !(b.len() > 0 && b[0] == '#') ==> conversation_of_spec(a, Some(b), a) == Some(b),
        !(b.len() > 0 && b[0] == '#') ==> conversation_of_spec(a, Some(b), b) == Some(a),
        (b.len() > 0 && b[0] == '#') ==> conversation_of_spec(a, Some(b), reader) == Some(b),
        conversation_of_spec(a, None, reader) is None,
{
}

/// The names joined with `", "`.
pub open spec fn comma_joined(names: Seq<Seq<char>>) -> Seq<char>
    decreases names.len(),
{
    if names.len() == 0 {
        Seq::empty()
    } else if names.len() == 1 {
        names[0]
    } else {
        comma_joined(names.drop_last()) + seq![',', ' '] + names.last()
    }
}

/// The typing indicator: the names of the peers typing, joined with `", "`,
/// then `suffix` after a space; none when nobody is typing.
pub fn typing_label(names: &[String], suffix: &str) -> (r: Option<String>)
    ensures
        names@.len() == 0 ==> r is None,
        names@.len() > 0 ==> (r matches Some(t) && t@ == comma_joined(texts_view(names@)) + seq![' ']
            + suffix@),
{
    if names.len() == 0 {
        return None;
    }
    let ghost v = texts_view(names@);
    let mut r = String::new();
    let mut i: usize = 0;
    while i < names.len()
        invariant
            i <= names@.len(),
            v == texts_view(names@),
            r@ == comma_joined(v.take(i as int)),
        decreases names@.len() - i,
    {
        let ghost before = r@;
        if i > 0 {
            push_char(&mut r, ',');
            push_char(&mut r, ' ');
        }
        r.append(names[i].as_str());
        proof {
            let next = v.take(i + 1);
            assert(next.drop_last() =~= v.take(i as int));
            assert(next.last() == names@[i as int]@);
            if i == 0 {
                assert(r@ =~= next[0]);
            } else {
                assert(r@ =~= before + seq![',', ' '] + names@[i as int]@);
            }
        }
        i = i + 1;
    }
    proof {
        assert(v.take(i as int) =~= v);
    }
    push_char(&mut r, ' ');
    r.append(suffix);
    Some(r)
}

proof fn lemma_filter_keeps_all(s: Seq<Seq<char>>, pred: spec_fn(Seq<char>) -> bool)
    requires
        forall|k: int| 0 <= k < s.len() ==> pred(#[trigger] s[k]),
    ensures
        s.filter(pred) == s,
    decreases s.len(),
{
    reveal(Seq::filter);
    if s.len() > 0 {
        lemma_filter_keeps_all(s.drop_last(), pred);
        assert(s.drop_last().push(s.last()) =~= s);
    } else {
        assert(s.filter(pred) =~= s);
    }
}

proof fn lemma_recent_shape(recent: Seq<Seq<char>>, emoji: Seq<char>, max_len: int)
    requires
        max_len >= 1,
    ensures
        recent_after_use(recent, emoji, max_len)[0] == emoji,
        1 <= recent_after_use(recent, emoji, max_len).len() <= max_len,
        recent_after_use(recent, emoji, max_len).len() <= recent.filter(differs_from(emoji)).len()
            + 1,
        forall|k: int|
            1 <= k < recent_after_use(recent, emoji, max_len).len() ==> #[trigger] recent_after_use(
                recent,
                emoji,
                max_len,
            )[k] == recent.filter(differs_from(emoji))[k - 1],
        forall|k: int|
            0 <= k < recent.filter(differs_from(emoji)).len() ==> #[trigger] recent.filter(
                differs_from(emoji),
            )[k] != emoji,
{
    let pred = differs_from(emoji);
    let rest = recent.filter(pred);
    assert forall|k: int| 0 <= k < rest.len() implies #[trigger] rest[k] != emoji by {
        recent.lemma_filter_pred(pred, k);
    }
}

proof fn lemma_recent_distinct(recent: Seq<Seq<char>>, emoji: Seq<char>, max_len: int)
    requires
        max_len >= 1,
        recent.no_duplicates(),
    ensures
        recent_after_use(recent, emoji, max_len).no_duplicates(),
{
    lemma_recent_shape(recent, emoji, max_len);
    let pred = differs_from(emoji);
    let r1 = recent_after_use(recent, emoji, max_len);
    assert forall|i: int, j: int| 0 <= i < r1.len() && 0 <= j < r1.len() && i != j implies r1[i]
        != r1[j] by {
        if i > 0 && j > 0 {
            lemma_filter_distinct(recent, pred, i - 1, j - 1);
        }
    }
}

proof fn lemma_recent_again(recent: Seq<Seq<char>>, emoji: Seq<char>, max_len: int)
    requires
        max_len >= 1,
    ensures
        recent_after_use(recent_after_use(recent, emoji, max_len), emoji, max_len)
            == recent_after_use(recent, emoji, max_len),
{
    lemma_recent_shape(recent, emoji, max_len);
    let pred = differs_from(emoji);
    let r1 = recent_after_use(recent, emoji, max_len);
    let tail = r1.drop_first();
    assert forall|k: int| 0 <= k < tail.len() implies pred(#[trigger] tail[k]) by {
        assert(tail[k] == r1[k + 1]);
    }
    lemma_filter_keeps_all(tail, pred);
    assert(r1 =~= seq![emoji] + tail);
    Seq::filter_distributes_over_add(seq![emoji], tail, pred);
    assert(seq![emoji].filter(pred) =~= Seq::<Seq<char>>::empty()) by {
        reveal(Seq::filter);
        assert(seq![emoji].drop_last() =~= Seq::<Seq<char>>::empty());
    }
    assert(r1.filter(pred) =~= tail);
    assert(seq![emoji] + r1.filter(pred) =~= r1);
}

/// After an emoji is used it comes first among the recent ones, which are at
/// most `max_len`, hold no entry twice if they held none before, and are left
/// as they are when the same emoji is used again.
pub proof fn recent_emojis_after_use(recent: Seq<Seq<char>>, emoji: Seq<char>, max_len: int)
    requires
        max_len >= 1,
    ensures
        recent_after_use(recent, emoji, max_len)[0] == emoji,
        1 <= recent_after_use(recent, emoji, max_len).len() <= max_len,
        recent.no_duplicates() ==> recent_after_use(recent, emoji, max_len).no_duplicates(),
        recent_after_use(recent_after_use(recent, emoji, max_len), emoji, max_len)
            == recent_after_use(recent, emoji, max_len),
{
    lemma_recent_shape(recent, emoji, max_len);
    if recent.no_duplicates() {
        lemma_recent_distinct(recent, emoji, max_len);
    }
    lemma_recent_again(recent, emoji, max_len);
}

/// Distinct positions of a filtered sequence without duplicates hold distinct
/// entries.
proof fn lemma_filter_distinct(s: Seq<Seq<char>>, pred: spec_fn(Seq<char>) -> bool, i: int, j: int)
    requires
        s.no_duplicates(),
        0 <= i < s.filter(pred).len(),
        0 <= j < s.filter(pred).len(),
        i != j,
    ensures
        s.filter(pred)[i] != s.filter(pred)[j],
    decreases s.len(),
{
    reveal(Seq::filter);
    if s.len() > 0 {
        let init = s.drop_last();
        assert(init.no_duplicates());
        let fi = init.filter(pred);
        if pred(s.last()) {
            assert(s.filter(pred) == fi.push(s.last()));
            if i < fi.len() && j < fi.len() {
                lemma_filter_distinct(init, pred, i, j);
            } else {
                let k = if i < fi.len() { i } else { j };
                init.lemma_filter_pred(pred, k);
                assert(fi.contains(fi[k]));
                init.lemma_filter_contains_rev(pred, fi[k]);
                let m = choose|m: int| 0 <= m < init.len() && init[m] == fi[k];
                assert(s[m] == init[m]);
                assert(s[s.len() - 1] == s.last());
            }
        } else {
            lemma_filter_distinct(init, pred, i, j);
        }
    }
}

/// An elided text has at most `max_chars` characters, and a text that
/// already fits is left as it is.
pub proof fn elided_text_fits(text: Seq<char>, max_chars: int)
    requires
        max_chars >= 1,
    ensures
        elided(text, max_chars).len() <= max_chars,
        text.len() <= max_chars ==> elided(text, max_chars) == text,
        text.len() > max_chars ==> elided(text, max_chars).take(max_chars - 1) == text.take(
            max_chars - 1,
        ),
{
    if text.len() > max_chars {
        assert(elided(text, max_chars).take(max_chars - 1) =~= text.take(max_chars - 1));
    }
}

/// Whether `name` is online among `peers` (name, online).
pub open spec fn online_in(peers: Seq<(Seq<char>, bool)>, name: Seq<char>) -> bool {
    exists|i: int| 0 <= i < peers.len() && (#[trigger] peers[i]).0 == name && peers[i].1
}

/// The peers that a network has seen and that are online now, in order.
pub open spec fn online_seen(seen: Seq<Seq<char>>, peers: Seq<(Seq<char>, bool)>) -> Seq<Seq<char>> {
    seen.filter(|u: Seq<char>| online_in(peers, u))
}

/// The view of a list of peers with their presence.
pub open spec fn presence_view(peers: Seq<(String, bool)>) -> Seq<(Seq<char>, bool)> {
    peers.map_values(|p: (String, bool)| (p.0@, p.1))
}

/// How many of the peers a network has seen are online now.
pub fn online_seen_count(seen: &[String], peers: &[(String, bool)]) -> (r: usize)
    ensures
        r == online_seen(texts_view(seen@), presence_view(peers@)).len(),
{
    let ghost all = texts_view(seen@);
    let ghost pv = presence_view(peers@);
    let ghost pred = |u: Seq<char>| online_in(pv, u);
    let mut count: usize = 0;
    let mut i: usize = 0;
    while i < seen.len()
        invariant
            i <= seen@.len(),
            all == texts_view(seen@),
            pv == presence_view(peers@),
            pred == (|u: Seq<char>| online_in(pv, u)),
            count == all.take(i as int).filter(pred).len(),
            count <= i,
        decreases seen@.len() - i,
    {
        proof {
            assert(all.take(i + 1) =~= all.take(i as int).push(all[i as int]));
            all.take(i as int).lemma_filter_push(all[i as int], pred);
        }
        let mut online = false;
        let mut j: usize = 0;
        while j < peers.len()
            invariant
                i < seen@.len(),
                j <= peers@.len(),
                pv == presence_view(peers@),
                online == exists|k: int| 0 <= k < j && (#[trigger] pv[k]).0 == seen@[i as int]@ && pv[k].1,
            decreases peers@.len() - j,
        {
            if peers[j].1 && crate::chars::text_eq(peers[j].0.as_str(), seen[i].as_str()) {
                online = true;
                assert(pv[j as int].0 == seen@[i as int]@ && pv[j as int].1);
            }
            j = j + 1;
        }
        proof {
            assert(all[i as int] == seen@[i as int]@);
            assert(online == online_in(pv, all[i as int]));
        }
        if online {
            count = count + 1;
        }
        i = i + 1;
    }
    proof {
        assert(all.take(i as int) =~= all);
    }
    count
}

/// The alias kept for a network after the alias field is saved or cleared:
/// none when cleared, otherwise the field trimmed, none when blank.
pub fn saved_alias(cleared: bool, field: &str) -> (r: Option<String>)
    ensures
        cleared ==> r is None,
        !cleared ==> match r {
            Some(a) => a@ == trim(field@) && a@.len() > 0,
            None => trim(field@).len() == 0,
        },
{
    if cleared {
        None
    } else {
        clean_alias(Some(field))
    }
}

/// Position of the network `id` among the known networks' identifiers: the
/// first one that matches, none when it is not known (the selection is
/// then dropped and nothing is saved).
pub fn find_network(ids: &[String], id: &str) -> (r: Option<usize>)
    ensures
        match r {
            Some(k) => k < ids@.len() && ids@[k as int]@ == id@ && forall|j: int| 0 <= j < k ==> ids@[j]@ != id@,
            None => forall|j: int| 0 <= j < ids@.len() ==> ids@[j]@ != id@,
        },
{
    let mut k: usize = 0;
    while k < ids.len()
        invariant
            k <= ids@.len(),
            forall|j: int| 0 <= j < k ==> ids@[j]@ != id@,
        decreases ids@.len() - k,
    {
        if crate::chars::text_eq(ids[k].as_str(), id) {
            return Some(k);
        }
        k = k + 1;
    }
    None
}

} // verus!
