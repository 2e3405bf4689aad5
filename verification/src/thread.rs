use vstd::prelude::*;

use crate::chars::text_eq;
use crate::chat::{new_group, starts_new_group};
use crate::colors::{dark_peer_color, hue_of, light_peer_color, peer_color_for, Rgb};
use crate::dates::{divider_label, divider_text, previous_date, yesterday_of, CalendarDate, UiLanguage};

verus! {

/// What the thread's layout reads of a message: its author, its Unix
/// instant and local day when known, and whether it answers another one.
pub struct MessageInfo {
    pub from: String,
    pub epoch: Option<u64>,
    pub day: Option<CalendarDate>,
    pub is_reply: bool,
}

/// The color of an author's name in the thread.
#[derive(Clone, Copy, Debug, PartialEq, Eq, Structural)]
pub enum NameColor {
    /// The local user's own color.
    Own,
    /// A color of the peer palette.
    Peer(Rgb),
    /// The color of the other person of a private conversation.
    Correspondent,
}

/// How a message is laid out in the thread.
#[derive(Debug, PartialEq, Eq)]
pub struct RowLayout {
    /// The date divider shown above the message, if any.
    pub day_divider: Option<String>,
    /// The label of the message's day, when it has one.
    pub day_label: Option<String>,
    /// Whether the message opens a group (avatar, name and time).
    pub starts_group: bool,
    pub name_color: NameColor,
}

/// Whether the day of a message, if known, has a month from 1 to 12.
pub open spec fn has_valid_day(m: MessageInfo) -> bool {
    m.day matches Some(d) ==> 1 <= d.month <= 12
}

/// The day of the last message before position `i` that has one.
pub open spec fn last_day_before(msgs: Seq<MessageInfo>, i: int) -> Option<CalendarDate>
    decreases i,
{
    if i <= 0 {
        None
    } else if msgs[i - 1].day is Some {
        msgs[i - 1].day
    } else {
        last_day_before(msgs, i - 1)
    }
}

/// Whether the day changes at message `i`: its day differs from the last
/// known one, or it is the first known day after messages without one.
pub open spec fn day_changes_at(msgs: Seq<MessageInfo>, i: int) -> bool {
    match (msgs[i].day, last_day_before(msgs, i)) {
        (Some(d), Some(prev)) => d != prev,
        (Some(_), None) => i > 0,
        _ => false,
    }
}

/// The label of an optional day.
pub open spec fn label_of(
    day: Option<CalendarDate>,
    today: CalendarDate,
    language: UiLanguage,
) -> Option<Seq<char>> {
    match day {
        Some(d) => Some(divider_text(d, today, yesterday_of(today), language)),
        None => None,
    }
}

/// Whether message `i` opens a group: it answers a message, or its author,
/// its day or a long silence sets it apart from the previous message.
pub open spec fn opens_group_at(msgs: Seq<MessageInfo>, i: int) -> bool {
    msgs[i].is_reply || new_group(
        if i > 0 {
            Some(msgs[i - 1].from@)
        } else {
            None
        },
        if i > 0 {
            msgs[i - 1].epoch
        } else {
            None
        },
        msgs[i].from@,
        msgs[i].epoch,
        day_changes_at(msgs, i),
    )
}

/// The view of an optional text.
pub open spec fn opt_text(t: Option<String>) -> Option<Seq<char>> {
    match t {
        Some(s) => Some(s@),
        None => None,
    }
}

/// Whether `row` lays out message `i` as the thread does.
pub open spec fn row_matches(
    msgs: Seq<MessageInfo>,
    i: int,
    row: RowLayout,
    today: CalendarDate,
    language: UiLanguage,
    me: Seq<char>,
    multi_person: bool,
    dark_mode: bool,
) -> bool {
    let label = label_of(msgs[i].day, today, language);
    &&& opt_text(row.day_label) == label
    &&& opt_text(row.day_divider) == if day_changes_at(msgs, i) || last_day_before(msgs, i) is None {
        label
    } else {
        None
    }
    &&& row.starts_group == opens_group_at(msgs, i)
    &&& if msgs[i].from@ == me {
        row.name_color == NameColor::Own
    } else if multi_person {
        row.name_color == NameColor::Peer(
            if dark_mode {
                dark_peer_color(hue_of(msgs[i].from@))
            } else {
                light_peer_color(hue_of(msgs[i].from@))
            },
        )
    } else {
        row.name_color == NameColor::Correspondent
    }
}

fn same_day(a: Option<CalendarDate>, b: Option<CalendarDate>) -> (r: bool)
    ensures
        r == (a == b),
{
    match (a, b) {
        (Some(x), Some(y)) => x == y,
        (None, None) => true,
        _ => false,
    }
}

/// Lays out the messages of a thread: the date dividers, where groups start,
/// and the color of each author's name.
pub fn thread_layout(
    msgs: &[MessageInfo],
    today: CalendarDate,
    language: UiLanguage,
    my_name: &str,
    multi_person: bool,
    dark_mode: bool,
) -> (r: Vec<RowLayout>)
    requires
        forall|i: int| 0 <= i < msgs@.len() ==> has_valid_day(#[trigger] msgs@[i]),
    ensures
        r@.len() == msgs@.len(),
        forall|i: int|
            0 <= i < msgs@.len() ==> row_matches(
                msgs@,
                i,
                #[trigger] r@[i],
                today,
                language,
                my_name@,
                multi_person,
                dark_mode,
            ),
{
    let yesterday = previous_date(today);
    let mut rows: Vec<RowLayout> = Vec::new();
    let mut last_day: Option<CalendarDate> = None;
    let mut i: usize = 0;
    while i < msgs.len()
        invariant
            i <= msgs@.len(),
            rows@.len() == i,
            last_day == last_day_before(msgs@, i as int),
            yesterday == yesterday_of(today),
            forall|j: int| 0 <= j < msgs@.len() ==> has_valid_day(#[trigger] msgs@[j]),
            forall|j: int|
                0 <= j < i ==> row_matches(
                    msgs@,
                    j,
                    #[trigger] rows@[j],
                    today,
                    language,
                    my_name@,
                    multi_person,
                    dark_mode,
                ),
        decreases msgs@.len() - i,
    {
        let msg = &msgs[i];
        let day_changed = match (msg.day, last_day) {
            (Some(d), Some(prev)) => !same_day(Some(d), Some(prev)),
            (Some(_), None) => i > 0,
            _ => false,
        };
        let day_label = match msg.day {
            Some(d) => Some(divider_label(d, today, yesterday, language)),
            None => None,
        };
        let day_divider = if day_changed || last_day.is_none() {
            match msg.day {
                Some(d) => Some(divider_label(d, today, yesterday, language)),
                None => None,
            }
        } else {
            None
        };
        let (prev_from, prev_epoch) = if i > 0 {
            (Some(msgs[i - 1].from.as_str()), msgs[i - 1].epoch)
        } else {
            (None, None)
        };
        let starts_group = msg.is_reply || starts_new_group(
            prev_from,
            prev_epoch,
            msg.from.as_str(),
            msg.epoch,
            day_changed,
        );
        let name_color = if text_eq(msg.from.as_str(), my_name) {
            NameColor::Own
        } else if multi_person {
            NameColor::Peer(peer_color_for(msg.from.as_str(), dark_mode))
        } else {
            NameColor::Correspondent
        };
        let row = RowLayout { day_divider, day_label, starts_group, name_color };
        proof {
            assert(day_changed == day_changes_at(msgs@, i as int));
            assert(row_matches(msgs@, i as int, row, today, language, my_name@, multi_person, dark_mode));
        }
        rows.push(row);
        if msg.day.is_some() {
            last_day = msg.day;
        }
        i = i + 1;
    }
    rows
}

/// The first group start after row `i`, or the number of rows.
pub open spec fn next_group_start(starts: Seq<bool>, i: int) -> int
    decreases starts.len() - i,
{
    if i + 1 >= starts.len() {
        starts.len() as int
    } else if starts[i + 1] {
        i + 1
    } else {
        next_group_start(starts, i + 1)
    }
}

/// For each row that opens a group, the last row of that group (whose
/// delivery and reading the group's header shows); none for other rows.
pub fn group_last_rows(starts: &[bool]) -> (r: Vec<Option<usize>>)
    ensures
        r@.len() == starts@.len(),
        forall|i: int|
            0 <= i < starts@.len() ==> #[trigger] r@[i] == if starts@[i] {
                Some((next_group_start(starts@, i) - 1) as usize)
            } else {
                None::<usize>
            },
{
    let n = starts.len();
    let mut r: Vec<Option<usize>> = Vec::new();
    let mut start: usize = 0;
    while start < n
        invariant
            n == starts@.len(),
            start <= n,
            r@.len() == start,
            forall|i: int|
                0 <= i < start ==> #[trigger] r@[i] == if starts@[i] {
                    Some((next_group_start(starts@, i) - 1) as usize)
                } else {
                    None::<usize>
                },
        decreases n - start,
    {
        let mut end = start + 1;
        while end < n && !starts[end]
            invariant
                start < end <= n,
                n == starts@.len(),
                next_group_start(starts@, start as int) == next_group_start(starts@, end - 1),
                forall|j: int| start < j < end ==> !starts@[j],
            decreases n - end,
        {
            end = end + 1;
        }
        proof {
            assert(next_group_start(starts@, start as int) == end);
        }
        let mut k = start;
        while k < end
            invariant
                start <= k <= end <= n,
                n == starts@.len(),
                r@.len() == k,
                next_group_start(starts@, start as int) == end,
                forall|j: int| start < j < end ==> !starts@[j],
                forall|i: int|
                    0 <= i < k ==> #[trigger] r@[i] == if starts@[i] {
                        Some((next_group_start(starts@, i) - 1) as usize)
                    } else {
                        None::<usize>
                    },
            decreases end - k,
        {
            if k == start && starts[k] {
                r.push(Some(end - 1));
            } else {
                r.push(None);
            }
            k = k + 1;
        }
        start = end;
    }
    r
}

/// The order of a list in which the pinned entries come first, each part in
/// the order it had.
pub open spec fn pinned_first(pinned: Seq<bool>) -> Seq<int> {
    Seq::new(pinned.len(), |i: int| i).filter(|i: int| pinned[i]) + Seq::new(
        pinned.len(),
        |i: int| i,
    ).filter(|i: int| !pinned[i])
}

/// The positions of the entries, pinned ones first, each part in its order.
pub fn pinned_first_order(pinned: &[bool]) -> (r: Vec<usize>)
    ensures
        r@.map_values(|k: usize| k as int) == pinned_first(pinned@),
{
    let ghost all = Seq::new(pinned@.len(), |i: int| i);
    let ghost yes = |i: int| pinned@[i];
    let ghost no = |i: int| !pinned@[i];
    let mut r: Vec<usize> = Vec::new();
    let mut i: usize = 0;
    proof {
        assert(all.take(0) =~= Seq::<int>::empty());
        reveal(Seq::filter);
        assert(r@.map_values(|k: usize| k as int) =~= all.take(0).filter(yes));
    }
    while i < pinned.len()
        invariant
            i <= pinned@.len(),
            all == Seq::new(pinned@.len(), |i: int| i),
            yes == (|i: int| pinned@[i]),
            r@.map_values(|k: usize| k as int) == all.take(i as int).filter(yes),
        decreases pinned@.len() - i,
    {
        proof {
            assert(all.take(i + 1) =~= all.take(i as int).push(i as int));
            all.take(i as int).lemma_filter_push(i as int, yes);
        }
        if pinned[i] {
            let ghost before = r@.map_values(|k: usize| k as int);
            r.push(i);
            proof {
                assert(r@.map_values(|k: usize| k as int) =~= before.push(i as int));
            }
        }
        i = i + 1;
    }
    let ghost first = r@.map_values(|k: usize| k as int);
    proof {
        assert(all.take(i as int) =~= all);
        reveal(Seq::filter);
        assert(first + all.take(0).filter(no) =~= first);
    }
    let mut j: usize = 0;
    while j < pinned.len()
        invariant
            j <= pinned@.len(),
            all == Seq::new(pinned@.len(), |i: int| i),
            no == (|i: int| !pinned@[i]),
            first == all.filter(|i: int| pinned@[i]),
            r@.map_values(|k: usize| k as int) == first + all.take(j as int).filter(no),
        decreases pinned@.len() - j,
    {
        proof {
            assert(all.take(j + 1) =~= all.take(j as int).push(j as int));
            all.take(j as int).lemma_filter_push(j as int, no);
        }
        if !pinned[j] {
            let ghost before = r@.map_values(|k: usize| k as int);
            r.push(j);
            proof {
                assert(r@.map_values(|k: usize| k as int) =~= before.push(j as int));
                assert(first + all.take(j as int).filter(no).push(j as int) =~= before.push(j as int));
            }
        }
        j = j + 1;
    }
    proof {
        assert(all.take(j as int) =~= all);
    }
    r
}


proof fn lemma_filter_increasing(s: Seq<int>, p: spec_fn(int) -> bool)
    requires
        forall|a: int, b: int| 0 <= a < b < s.len() ==> s[a] < s[b],
    ensures
        forall|a: int, b: int|
            0 <= a < b < s.filter(p).len() ==> s.filter(p)[a] < s.filter(p)[b],
        forall|k: int| 0 <= k < s.filter(p).len() ==> s.contains(#[trigger] s.filter(p)[k]),
    decreases s.len(),
{
    reveal(Seq::filter);
    if s.len() > 0 {
        let init = s.drop_last();
        lemma_filter_increasing(init, p);
        let fi = init.filter(p);
        assert forall|k: int| 0 <= k < s.filter(p).len() implies s.contains(#[trigger] s.filter(p)[k]) by {
            if k < fi.len() {
                assert(s.filter(p)[k] == fi[k]);
                assert(init.contains(fi[k]));
                let j = choose|j: int| 0 <= j < init.len() && init[j] == fi[k];
                assert(s[j] == init[j]);
            } else {
                assert(s.filter(p)[k] == s.last());
                assert(s[s.len() - 1] == s.last());
            }
        }
        if p(s.last()) {
            assert forall|a: int, b: int| 0 <= a < b < s.filter(p).len() implies s.filter(p)[a]
                < s.filter(p)[b] by {
                if b == fi.len() {
                    assert(init.contains(fi[a]));
                    let j = choose|j: int| 0 <= j < init.len() && init[j] == fi[a];
                    assert(s[j] == init[j]);
                    assert(s[s.len() - 1] == s.last());
                }
            }
        }
    }
}

proof fn lemma_filter_split_len(s: Seq<int>, p: spec_fn(int) -> bool, q: spec_fn(int) -> bool)
    requires
        forall|x: int| #[trigger] q(x) == !p(x),
    ensures
        s.filter(p).len() + s.filter(q).len() == s.len(),
    decreases s.len(),
{
    reveal(Seq::filter);
    if s.len() > 0 {
        lemma_filter_split_len(s.drop_last(), p, q);
    }
}

/// The pinned-first order is a stable partition of the entries: every
/// position appears once, the pinned entries come first, and each part keeps
/// the order the entries had.
pub proof fn pinned_first_is_a_stable_partition(pinned: Seq<bool>)
    ensures
        pinned_first(pinned).len() == pinned.len(),
        forall|i: int| 0 <= i < pinned.len() ==> pinned_first(pinned).contains(i),
        ({
            let r = pinned_first(pinned);
            let m = Seq::new(pinned.len(), |i: int| i).filter(|i: int| pinned[i]).len() as int;
            &&& forall|k: int| 0 <= k < r.len() ==> 0 <= #[trigger] r[k] < pinned.len()
            &&& forall|k: int| 0 <= k < m ==> pinned[#[trigger] r[k]]
            &&& forall|k: int| m <= k < r.len() ==> !pinned[#[trigger] r[k]]
            &&& forall|a: int, b: int| 0 <= a < b < m ==> r[a] < r[b]
            &&& forall|a: int, b: int| m <= a < b < r.len() ==> r[a] < r[b]
        }),
{
    let all = Seq::new(pinned.len(), |i: int| i);
    let yes = |i: int| pinned[i];
    let no = |i: int| !pinned[i];
    let f = all.filter(yes);
    let g = all.filter(no);
    let r = pinned_first(pinned);
    assert(r == f + g);
    lemma_filter_split_len(all, yes, no);
    lemma_filter_increasing(all, yes);
    lemma_filter_increasing(all, no);
    assert forall|i: int| 0 <= i < pinned.len() implies r.contains(i) by {
        assert(all[i] == i);
        if pinned[i] {
            all.lemma_filter_contains(yes, i);
            let k = choose|k: int| 0 <= k < f.len() && f[k] == i;
            assert(r[k] == i);
        } else {
            all.lemma_filter_contains(no, i);
            let k = choose|k: int| 0 <= k < g.len() && g[k] == i;
            assert(r[f.len() + k] == i);
        }
    }
    assert forall|k: int| 0 <= k < r.len() implies 0 <= #[trigger] r[k] < pinned.len() by {
        if k < f.len() {
            assert(all.contains(f[k]));
        } else {
            assert(all.contains(g[k - f.len()]));
        }
    }
    assert forall|k: int| 0 <= k < f.len() implies pinned[#[trigger] r[k]] by {
        all.lemma_filter_pred(yes, k);
    }
    assert forall|k: int| f.len() <= k < r.len() implies !pinned[#[trigger] r[k]] by {
        all.lemma_filter_pred(no, k - f.len());
    }
    assert forall|a: int, b: int| f.len() <= a < b < r.len() implies r[a] < r[b] by {
        assert(r[a] == g[a - f.len()]);
        assert(r[b] == g[b - f.len()]);
    }
}

} // verus!
