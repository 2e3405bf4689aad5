use vstd::prelude::*;

use crate::markdown::{blocks_view, markdown_blocks, parse_message, ParsedMarkdown};
use crate::text::{lines_of, split_lines};
use crate::text_map::TextMap;
use crate::chars::{lex_le, lex_le_exec, texts_view, to_chars};
use crate::dates::{CalendarDate, UiLanguage};
use crate::emoji_picker::sorted_texts;
use crate::navigation::key_view;

verus! {

/// A message longer than this many characters is shown folded.
pub const COLLAPSE_CHARS: usize = 4000;

/// A message with more lines than this is shown folded.
pub const COLLAPSE_LINES: usize = 60;

/// At most this many characters of a folded message are shown.
pub const PREVIEW_CHARS: usize = 2000;

/// At most this many lines of a folded message are shown.
pub const PREVIEW_LINES: usize = 30;

/// `lines` joined with `\n` between consecutive lines.
pub open spec fn joined_lines(lines: Seq<Seq<char>>) -> Seq<char>
    decreases lines.len(),
{
    if lines.len() == 0 {
        Seq::empty()
    } else if lines.len() == 1 {
        lines[0]
    } else {
        joined_lines(lines.drop_last()) + seq!['\n'] + lines.last()
    }
}

/// Whether a message of `content` is too long to be shown whole at once.
pub open spec fn is_long_message(content: Seq<char>) -> bool {
    content.len() > COLLAPSE_CHARS || lines_of(content).len() > COLLAPSE_LINES
}

/// The text shown for a folded message: its first lines, cut to the preview
/// length, followed by `" ..."`.
pub open spec fn preview_text(content: Seq<char>) -> Seq<char> {
    let lines = lines_of(content);
    let kept = if lines.len() > PREVIEW_LINES {
        lines.take(PREVIEW_LINES as int)
    } else {
        lines
    };
    let joined = joined_lines(kept);
    let cut = if joined.len() > PREVIEW_CHARS {
        joined.take(PREVIEW_CHARS as int)
    } else {
        joined
    };
    cut + seq![' ', '.', '.', '.']
}

/// A message too long to be shown whole: its parsed preview and its size.
pub struct CollapseInfo {
    pub preview: ParsedMarkdown,
    pub total_lines: usize,
    pub total_chars: usize,
}

/// The lines of `lines` joined with `\n`.
fn join_lines(lines: &Vec<Vec<char>>, n: usize) -> (r: Vec<char>)
    requires
        n <= lines@.len(),
    ensures
        r@ == joined_lines(lines@.map_values(|l: Vec<char>| l@).take(n as int)),
{
    let ghost views = lines@.map_values(|l: Vec<char>| l@);
    let mut r: Vec<char> = Vec::new();
    let mut i: usize = 0;
    proof {
        assert(views.take(0) =~= Seq::<Seq<char>>::empty());
    }
    while i < n
        invariant
            i <= n <= lines@.len(),
            views == lines@.map_values(|l: Vec<char>| l@),
            r@ == joined_lines(views.take(i as int)),
        decreases n - i,
    {
        if i > 0 {
            r.push('\n');
        }
        let line = &lines[i];
        let mut j: usize = 0;
        let ghost before = r@;
        while j < line.len()
            invariant
                j <= line@.len(),
                r@ == before + line@.take(j as int),
            decreases line@.len() - j,
        {
            r.push(line[j]);
            proof {
                assert(before + line@.take(j + 1) =~= (before + line@.take(j as int)).push(line@[j as int]));
            }
            j = j + 1;
        }
        proof {
            assert(line@.take(j as int) =~= line@);
            let next = views.take(i + 1);
            assert(next.drop_last() =~= views.take(i as int));
            assert(next.last() == line@);
            if i == 0 {
                assert(r@ =~= next[0]);
            } else {
                assert(r@ =~= joined_lines(views.take(i as int)) + seq!['\n'] + line@);
            }
        }
        i = i + 1;
    }
    r
}

/// Whether a message must be folded, and if so its preview, parsed, with the
/// message's total number of lines and characters; `None` for a message short
/// enough to be shown whole.
pub fn collapse_info(content: &str, emoji_map: &TextMap<usize>) -> (r: Option<CollapseInfo>)
    ensures
        r is Some <==> is_long_message(content@),
        r matches Some(info) ==> {
            &&& info.total_chars == content@.len()
            &&& info.total_lines == lines_of(content@).len()
            &&& blocks_view(info.preview.blocks@) == markdown_blocks(preview_text(content@))
            &&& info.preview.emoji_only == crate::markdown::emoji_only_from(
                preview_text(content@),
                0,
                emoji_map.as_map(),
            )
        },
{
    let chars = crate::chars::to_chars(content);
    let total_chars = chars.len();
    let lines = split_lines(&chars);
    let total_lines = lines.len();
    if total_chars <= COLLAPSE_CHARS && total_lines <= COLLAPSE_LINES {
        return None;
    }
    let kept = if total_lines > PREVIEW_LINES {
        PREVIEW_LINES
    } else {
        total_lines
    };
    let joined = join_lines(&lines, kept);
    let end = if joined.len() > PREVIEW_CHARS {
        PREVIEW_CHARS
    } else {
        joined.len()
    };
    let mut preview = crate::chars::string_of(joined.as_slice(), 0, end);
    crate::chars::push_char(&mut preview, ' ');
    crate::chars::push_char(&mut preview, '.');
    crate::chars::push_char(&mut preview, '.');
    crate::chars::push_char(&mut preview, '.');
    proof {
        let views = lines@.map_values(|l: Vec<char>| l@);
        if total_lines <= PREVIEW_LINES {
            assert(views.take(kept as int) =~= views);
        }
        assert(joined@.subrange(0, end as int) =~= if joined@.len() > PREVIEW_CHARS {
            joined@.take(PREVIEW_CHARS as int)
        } else {
            joined@
        });
        assert(preview@ =~= preview_text(content@));
    }
    Some(CollapseInfo { preview: parse_message(preview.as_str(), emoji_map), total_lines, total_chars })
}

/// What the thread shown was built for: the conversation, the content's
/// generation, the language, the day (for "today" and "yesterday") and the
/// theme (for the authors' colors).
pub struct ThreadKey {
    pub conversation: Option<String>,
    pub generation: u64,
    pub language: UiLanguage,
    pub today: CalendarDate,
    pub dark_mode: bool,
}

/// A thread key with its texts as character sequences.
pub struct ThreadKeyView {
    pub conversation: Option<Seq<char>>,
    pub generation: u64,
    pub language: UiLanguage,
    pub today: CalendarDate,
    pub dark_mode: bool,
}

impl View for ThreadKey {
    type V = ThreadKeyView;

    open spec fn view(&self) -> ThreadKeyView {
        ThreadKeyView {
            conversation: key_view(self.conversation),
            generation: self.generation,
            language: self.language,
            today: self.today,
            dark_mode: self.dark_mode,
        }
    }
}

/// The view of an optional thread key.
pub open spec fn stamp_view(k: Option<ThreadKey>) -> Option<ThreadKeyView> {
    match k {
        Some(k) => Some(k@),
        None => None,
    }
}

/// Decides whether the thread must be rebuilt for `now`, and records `now`:
/// nothing when the thread was built for exactly `now`; otherwise a rebuild,
/// which says whether the conversation changed (a first build counts as a
/// change), so that the caller resets its window over the messages.
pub fn thread_refresh(built_for: &mut Option<ThreadKey>, now: ThreadKey) -> (r: Option<bool>)
    ensures
        stamp_view(*old(built_for)) == Some(now@) ==> r is None,
        stamp_view(*old(built_for)) != Some(now@) ==> r == Some(
            match stamp_view(*old(built_for)) {
                Some(k) => k.conversation != now@.conversation,
                None => true,
            },
        ),
        stamp_view(*final(built_for)) == Some(now@),
{
    let conversation_changed = match built_for {
        Some(k) => !crate::events::opt_eq(&k.conversation, &now.conversation),
        None => true,
    };
    let unchanged = match built_for {
        Some(k) => !conversation_changed && k.generation == now.generation && k.language
            == now.language && k.today == now.today && k.dark_mode == now.dark_mode,
        None => false,
    };
    if unchanged {
        return None;
    }
    *built_for = Some(now);
    Some(conversation_changed)
}

/// No text occurs twice.
pub open spec fn distinct_texts(v: Seq<Seq<char>>) -> bool {
    forall|a: int, b: int| 0 <= a < b < v.len() ==> v[a] != v[b]
}

proof fn lemma_insert_distinct(ov: Seq<Seq<char>>, p: int, x: Seq<char>)
    requires
        0 <= p <= ov.len(),
        distinct_texts(ov),
        !ov.contains(x),
    ensures
        distinct_texts(ov.insert(p, x)),
{
    let rv = ov.insert(p, x);
    assert forall|a: int, b: int| 0 <= a < b < rv.len() implies rv[a] != rv[b] by {
        if a == p {
            assert(rv[b] == ov[b - 1]);
        } else if b == p {
            assert(rv[a] == ov[a]);
        } else {
            let oa = if a < p { a } else { a - 1 };
            let ob = if b < p { b } else { b - 1 };
            assert(rv[a] == ov[oa] && rv[b] == ov[ob]);
        }
    }
}

/// The distinct authors of a thread, in lexicographic order.
pub fn unique_authors(froms: &[String]) -> (r: Vec<String>)
    ensures
        sorted_texts(texts_view(r@)),
        distinct_texts(texts_view(r@)),
        forall|t: Seq<char>| texts_view(r@).contains(t) <==> texts_view(froms@).contains(t),
{
    let mut r: Vec<String> = Vec::new();
    let mut i: usize = 0;
    while i < froms.len()
        invariant
            i <= froms@.len(),
            sorted_texts(texts_view(r@)),
            distinct_texts(texts_view(r@)),
            forall|t: Seq<char>| texts_view(r@).contains(t) <==> texts_view(froms@.take(i as int)).contains(t),
        decreases froms@.len() - i,
    {
        let x = to_chars(froms[i].as_str());
        let ghost ov = texts_view(r@);
        proof {
            assert(froms@.take(i + 1) =~= froms@.take(i as int).push(froms@[i as int]));
            assert(texts_view(froms@.take(i + 1)) =~= texts_view(froms@.take(i as int)).push(x@));
        }
        if crate::emoji_picker::contains_text(r.as_slice(), froms[i].as_str()) {
            proof {
                assert forall|t: Seq<char>| ov.contains(t) <==> texts_view(froms@.take(i + 1)).contains(t) by {
                    crate::emoji_picker::lemma_push_contains(texts_view(froms@.take(i as int)), x@, t);
                }
            }
        } else {
            let mut p: usize = 0;
            while p < r.len() && lex_le_exec(&to_chars(r[p].as_str()), &x)
                invariant
                    p <= r@.len(),
                    forall|j: int| 0 <= j < p ==> lex_le(#[trigger] r@[j]@, x@),
                decreases r@.len() - p,
            {
                p = p + 1;
            }
            r.insert(p, froms[i].clone());
            proof {
                let rv = texts_view(r@);
                assert(rv =~= ov.insert(p as int, x@));
                if p < ov.len() {
                    assert(!lex_le(ov[p as int], x@));
                }
                crate::emoji_picker::lemma_insert_sorted(ov, p as int, x@);
                assert forall|t: Seq<char>| rv.contains(t) <==> texts_view(froms@.take(i + 1)).contains(t) by {
                    crate::emoji_picker::lemma_insert_contains(ov, p as int, x@, t);
                    crate::emoji_picker::lemma_push_contains(texts_view(froms@.take(i as int)), x@, t);
                }
                lemma_insert_distinct(ov, p as int, x@);
            }
        }
        i = i + 1;
    }
    proof {
        assert(froms@.take(i as int) =~= froms@);
    }
    r
}

/// `ids` with each identifier kept at its first occurrence only.
pub open spec fn first_occurrences(ids: Seq<Seq<char>>) -> Seq<Seq<char>>
    decreases ids.len(),
{
    if ids.len() == 0 {
        Seq::empty()
    } else {
        let d = first_occurrences(ids.drop_last());
        if d.contains(ids.last()) {
            d
        } else {
            d.push(ids.last())
        }
    }
}

/// The identifiers of the image media of a thread, each once, in the order
/// the thread meets them: `media` lists each media met (a reply's quoted
/// media, then the message's own) with whether it is an image.
pub open spec fn image_ids_of(media: Seq<(Seq<char>, bool)>) -> Seq<Seq<char>> {
    first_occurrences(media.filter(|m: (Seq<char>, bool)| m.1).map_values(|m: (Seq<char>, bool)| m.0))
}

/// The identifiers of the image media of a thread, for preloading.
pub fn image_media_ids(media: &[(String, bool)]) -> (r: Vec<String>)
    ensures
        texts_view(r@) == image_ids_of(media@.map_values(|m: (String, bool)| (m.0@, m.1))),
{
    let ghost all = media@.map_values(|m: (String, bool)| (m.0@, m.1));
    let ghost is_image = |m: (Seq<char>, bool)| m.1;
    let ghost id_of = |m: (Seq<char>, bool)| m.0;
    let mut r: Vec<String> = Vec::new();
    let mut i: usize = 0;
    while i < media.len()
        invariant
            i <= media@.len(),
            all == media@.map_values(|m: (String, bool)| (m.0@, m.1)),
            is_image == (|m: (Seq<char>, bool)| m.1),
            id_of == (|m: (Seq<char>, bool)| m.0),
            texts_view(r@) == first_occurrences(all.take(i as int).filter(is_image).map_values(id_of)),
        decreases media@.len() - i,
    {
        proof {
            assert(all.take(i + 1) =~= all.take(i as int).push(all[i as int]));
            all.take(i as int).lemma_filter_push(all[i as int], is_image);
        }
        let ghost before = all.take(i as int).filter(is_image).map_values(id_of);
        if media[i].1 {
            proof {
                assert(all.take(i + 1).filter(is_image).map_values(id_of) =~= before.push(all[i as int].0));
                assert(before.push(all[i as int].0).drop_last() =~= before);
            }
            let mut k: usize = 0;
            let mut found = false;
            while k < r.len()
                invariant
                    i < media@.len(),
                    k <= r@.len(),
                    found == exists|j: int| 0 <= j < k && r@[j]@ == media@[i as int].0@,
                decreases r@.len() - k,
            {
                if crate::chars::text_eq(r[k].as_str(), media[i].0.as_str()) {
                    found = true;
                }
                k = k + 1;
            }
            proof {
                let rv = texts_view(r@);
                if rv.contains(all[i as int].0) {
                    let j = choose|j: int| 0 <= j < rv.len() && rv[j] == all[i as int].0;
                    assert(r@[j]@ == media@[i as int].0@);
                }
                if found {
                    let j = choose|j: int| 0 <= j < k && r@[j]@ == media@[i as int].0@;
                    assert(rv[j] == all[i as int].0);
                }
            }
            if !found {
                let ghost old_r = r@;
                r.push(media[i].0.clone());
                proof {
                    assert(texts_view(r@) =~= texts_view(old_r).push(all[i as int].0));
                }
            }
        } else {
            proof {
                assert(all.take(i + 1).filter(is_image).map_values(id_of) =~= before);
            }
        }
        i = i + 1;
    }
    proof {
        assert(all.take(i as int) =~= all);
    }
    r
}

} // verus!
