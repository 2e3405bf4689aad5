use vstd::prelude::*;

use crate::chars::{is_white_space, push_char, texts_view, to_chars};
use crate::emoji_picker::shortcode_suggestions;
use crate::shortcode::{emoji_shortcode_trigger, shortcode_trigger, suggestions_for};
use crate::text_map::TextMap;
use crate::text_ops::{
    char_prefix, char_range_string, clamp_index, insert_text_at_cursor, line_end, line_end_of,
    line_start, line_start_of, next_word_end, prev_word_start, replace_char_range, splice_chars,
    word_end_after, word_start_before,
};


verus! {

/// Input cap of the composer, in characters.
pub const MAX_INPUT_CHARS: usize = 100000;

/// Line endings of pasted text made uniform: `\r\n` and a lone `\r` become `\n`.
pub open spec fn normalized_paste(s: Seq<char>) -> Seq<char>
    decreases s.len(),
{
    if s.len() == 0 {
        Seq::empty()
    } else if s[0] == '\r' && s.len() > 1 && s[1] == '\n' {
        seq!['\n'] + normalized_paste(s.skip(2))
    } else if s[0] == '\r' {
        seq!['\n'] + normalized_paste(s.skip(1))
    } else {
        seq![s[0]] + normalized_paste(s.skip(1))
    }
}

proof fn lemma_normalized_paste_len(s: Seq<char>)
    ensures
        normalized_paste(s).len() <= s.len(),
    decreases s.len(),
{
    if s.len() > 0 {
        if s[0] == '\r' && s.len() > 1 && s[1] == '\n' {
            lemma_normalized_paste_len(s.skip(2));
        } else {
            lemma_normalized_paste_len(s.skip(1));
        }
    }
}

/// Makes the line endings of pasted text uniform (`\r\n` and `\r` become `\n`).
pub fn normalize_paste(text: &str) -> (r: String)
    ensures
        r@ == normalized_paste(text@),
        r@.len() <= text@.len(),
{
    let chars = to_chars(text);
    let mut r = String::new();
    let mut i: usize = 0;
    proof {
        assert(chars@.skip(0) =~= chars@);
        assert(r@ + normalized_paste(chars@) =~= normalized_paste(chars@));
    }
    while i < chars.len()
        invariant
            i <= chars@.len(),
            chars@ == text@,
            r@ + normalized_paste(chars@.skip(i as int)) == normalized_paste(text@),
        decreases chars@.len() - i,
    {
        let ghost rest = chars@.skip(i as int);
        let ghost before = r@;
        if chars[i] == '\r' {
            push_char(&mut r, '\n');
            if i + 1 < chars.len() && chars[i + 1] == '\n' {
                proof {
                    assert(rest.skip(2) =~= chars@.skip(i + 2));
                    assert(before + (seq!['\n'] + normalized_paste(rest.skip(2))) =~= r@
                        + normalized_paste(chars@.skip(i + 2)));
                }
                i = i + 2;
            } else {
                proof {
                    assert(rest.skip(1) =~= chars@.skip(i + 1));
                    assert(before + (seq!['\n'] + normalized_paste(rest.skip(1))) =~= r@
                        + normalized_paste(chars@.skip(i + 1)));
                }
                i = i + 1;
            }
        } else {
            push_char(&mut r, chars[i]);
            proof {
                assert(rest.skip(1) =~= chars@.skip(i + 1));
                assert(before + (seq![rest[0]] + normalized_paste(rest.skip(1))) =~= r@
                    + normalized_paste(chars@.skip(i + 1)));
            }
            i = i + 1;
        }
    }
    proof {
        assert(chars@.skip(i as int) =~= Seq::<char>::empty());
        assert(r@ + Seq::<char>::empty() =~= r@);
        lemma_normalized_paste_len(text@);
    }
    r
}

/// Pasted text comes out without any `\r`, and normalizing it again changes
/// nothing.
pub proof fn pasted_line_endings_are_uniform(s: Seq<char>)
    ensures
        !normalized_paste(s).contains('\r'),
        normalized_paste(normalized_paste(s)) == normalized_paste(s),
    decreases s.len(),
{
    if s.len() > 0 {
        let rest = if s[0] == '\r' && s.len() > 1 && s[1] == '\n' {
            s.skip(2)
        } else {
            s.skip(1)
        };
        pasted_line_endings_are_uniform(rest);
        let head = if s[0] == '\r' {
            '\n'
        } else {
            s[0]
        };
        let n = normalized_paste(s);
        assert(n == seq![head] + normalized_paste(rest));
        assert(!n.contains('\r')) by {
            if n.contains('\r') {
                let k = choose|k: int| 0 <= k < n.len() && n[k] == '\r';
                if k > 0 {
                    assert(normalized_paste(rest)[k - 1] == '\r');
                }
            }
        }
        assert(n.skip(1) =~= normalized_paste(rest));
        assert(n[0] == head);
    } else {
        assert(normalized_paste(s) =~= Seq::<char>::empty());
    }
}

/// Modifier keys held during a key press.
#[derive(Clone, Copy, Debug, PartialEq, Eq)]
pub struct KeyModifiers {
    pub alt: bool,
    pub ctrl: bool,
    pub shift: bool,
    pub mac_cmd: bool,
    pub command: bool,
}

/// What the Enter key does in the composer.
#[derive(Clone, Copy, Debug, PartialEq, Eq)]
pub enum EnterKeyAction {
    InsertNewline,
    AcceptShortcode,
    Submit,
}

/// Enter inserts a newline; Cmd/Ctrl+Enter submits; plain Enter accepts the
/// selected shortcode while the suggestion menu is open.
pub open spec fn enter_action_of(shortcode_menu_open: bool, modifiers: KeyModifiers) -> EnterKeyAction {
    if modifiers.command || modifiers.ctrl {
        EnterKeyAction::Submit
    } else if shortcode_menu_open && !modifiers.shift {
        EnterKeyAction::AcceptShortcode
    } else {
        EnterKeyAction::InsertNewline
    }
}

/// Decides what the Enter key does.
pub fn enter_key_action(shortcode_menu_open: bool, modifiers: KeyModifiers) -> (r: EnterKeyAction)
    ensures
        r == enter_action_of(shortcode_menu_open, modifiers),
{
    if modifiers.command || modifiers.ctrl {
        EnterKeyAction::Submit
    } else if shortcode_menu_open && !modifiers.shift {
        EnterKeyAction::AcceptShortcode
    } else {
        EnterKeyAction::InsertNewline
    }
}

/// The selected range between the anchor and the cursor, if it is not empty.
pub open spec fn selection_of(anchor: Option<usize>, cursor: usize) -> Option<(usize, usize)> {
    match anchor {
        Some(a) => if a == cursor {
            None
        } else if a < cursor {
            Some((a, cursor))
        } else {
            Some((cursor, a))
        },
        None => None,
    }
}

/// The selected range `(start, end)`, ordered, when anchor and cursor differ.
pub fn selection_range(selection_anchor: Option<usize>, cursor_char: usize) -> (r: Option<(usize, usize)>)
    ensures
        r == selection_of(selection_anchor, cursor_char),
{
    match selection_anchor {
        Some(anchor) => if anchor == cursor_char {
            None
        } else if anchor < cursor_char {
            Some((anchor, cursor_char))
        } else {
            Some((cursor_char, anchor))
        },
        None => None,
    }
}

/// Drops the selection anchor.
pub fn clear_selection(selection_anchor: &mut Option<usize>)
    ensures
        *final(selection_anchor) == None::<usize>,
{
    *selection_anchor = None;
}

/// Replaces the selected text by `replacement`; false when nothing is selected.
pub fn replace_selection(
    text: &mut String,
    cursor: &mut usize,
    selection_anchor: &mut Option<usize>,
    replacement: &str,
) -> (r: bool)
    requires
        selection_of(*old(selection_anchor), *old(cursor)) matches Some((start, _)) ==> start
            + replacement@.len() <= usize::MAX,
    ensures
        r == (selection_of(*old(selection_anchor), *old(cursor)) is Some),
        match selection_of(*old(selection_anchor), *old(cursor)) {
            Some((start, end)) => {
                &&& final(text)@ == splice_chars(
                    old(text)@,
                    clamp_index(start as int, old(text)@.len() as int),
                    clamp_index(end as int, old(text)@.len() as int),
                    replacement@,
                )
                &&& *final(cursor) == start + replacement@.len()
                &&& *final(selection_anchor) == None::<usize>
            },
            None => {
                &&& final(text)@ == old(text)@
                &&& *final(cursor) == *old(cursor)
                &&& *final(selection_anchor) == *old(selection_anchor)
            },
        },
{
    match selection_range(*selection_anchor, *cursor) {
        Some((start, end)) => {
            replace_char_range(text, cursor, start, end, replacement);
            *selection_anchor = None;
            true
        },
        None => false,
    }
}

/// The alias index's emoji, as character sequences.
pub open spec fn alias_view(alias_to_char: &TextMap<String>) -> Map<Seq<char>, Seq<char>> {
    alias_to_char.as_map().map_values(|c: String| c@)
}

/// Every emoji of the index fits after a text of `len` characters.
pub open spec fn fits_after(alias_to_char: &TextMap<String>, len: int) -> bool {
    fits_index(alias_view(alias_to_char), len)
}

/// Every emoji of `index` fits after a text of `len` characters.
pub open spec fn fits_index(index: Map<Seq<char>, Seq<char>>, len: int) -> bool {
    forall|k: Seq<char>| #[trigger] index.contains_key(k) ==> len + index[k].len() <= usize::MAX
}

/// The suggestion that Enter accepts: the selected one, or the last one
/// when the selection is past the end.
pub open spec fn accepted_suggestion(
    text: Seq<char>,
    cursor: int,
    index: Map<Seq<char>, Seq<char>>,
    aliases: Seq<Seq<char>>,
    selected: int,
) -> Option<(int, Seq<char>)> {
    match shortcode_trigger(text, cursor) {
        None => None,
        Some((start, query)) => {
            let limit = if selected + 1 > usize::MAX {
                usize::MAX as int
            } else {
                selected + 1
            };
            let list = suggestions_for(query, index, aliases, limit);
            if list.len() == 0 {
                None
            } else {
                let k = if selected < list.len() - 1 {
                    selected
                } else {
                    list.len() - 1
                };
                Some((start, list[k].1))
            }
        },
    }
}


/// The shortcode's start and the emoji of the suggestion that Enter
/// accepts, when there is one.
fn selected_shortcode(
    input: &str,
    cursor_char: usize,
    emoji_alias_to_char: &TextMap<String>,
    emoji_aliases: &[String],
    shortcode_selected: usize,
) -> (r: Option<(usize, String)>)
    ensures
        match accepted_suggestion(
            input@,
            cursor_char as int,
            alias_view(emoji_alias_to_char),
            texts_view(emoji_aliases@),
            shortcode_selected as int,
        ) {
            Some((start, emoji)) => r matches Some((a, e)) && a == start && e@ == emoji,
            None => r is None,
        },
        r matches Some((a, e)) ==> a <= clamp_index(cursor_char as int, input@.len() as int)
            && exists|k: Seq<char>| #[trigger] alias_view(emoji_alias_to_char).contains_key(k)
            && alias_view(emoji_alias_to_char)[k] == e@,
{
    let start = match emoji_shortcode_trigger(input, cursor_char) {
        Some((start, _query)) => start,
        None => {
            return None;
        },
    };
    let limit = shortcode_selected.saturating_add(1);
    let suggestions = shortcode_suggestions(
        input,
        cursor_char,
        emoji_alias_to_char,
        emoji_aliases,
        limit,
    );
    if suggestions.len() == 0 {
        return None;
    }
    let k = if shortcode_selected < suggestions.len() - 1 {
        shortcode_selected
    } else {
        suggestions.len() - 1
    };
    let emoji = suggestions[k].1.clone();
    proof {
        crate::shortcode::lemma_shortcode_trigger(input@, cursor_char as int);
        let trig = shortcode_trigger(input@, cursor_char as int);
        let query = trig->Some_0.1;
        let matching = crate::shortcode::aliases_with_prefix(texts_view(emoji_aliases@), query);
        let pairs = crate::shortcode::bound_pairs(
            matching.take(clamp_index(limit as int, matching.len() as int)),
            alias_view(emoji_alias_to_char),
        );
        crate::shortcode::lemma_bound_pairs(
            matching.take(clamp_index(limit as int, matching.len() as int)),
            alias_view(emoji_alias_to_char),
            k as int,
        );
        assert(emoji@ == crate::shortcode::pairs_view(suggestions@)[k as int].1);
        assert(alias_view(emoji_alias_to_char).contains_key(pairs[k as int].0));
    }
    Some((start, emoji))
}

/// Replaces the shortcode before the cursor by the emoji of the selected
/// suggestion; false when there is no shortcode or no suggestion.
pub fn accept_selected_shortcode(
    input: &mut String,
    cursor_char: &mut usize,
    emoji_alias_to_char: &TextMap<String>,
    emoji_aliases: &[String],
    shortcode_selected: usize,
) -> (r: bool)
    requires
        accepted_suggestion(
            old(input)@,
            *old(cursor_char) as int,
            alias_view(emoji_alias_to_char),
            texts_view(emoji_aliases@),
            shortcode_selected as int,
        ) matches Some((start, emoji)) ==> start + emoji.len() <= usize::MAX,
    ensures
        match accepted_suggestion(
            old(input)@,
            *old(cursor_char) as int,
            alias_view(emoji_alias_to_char),
            texts_view(emoji_aliases@),
            shortcode_selected as int,
        ) {
            Some((start, emoji)) => {
                &&& r
                &&& final(input)@ == splice_chars(
                    old(input)@,
                    start,
                    clamp_index(*old(cursor_char) as int, old(input)@.len() as int),
                    emoji,
                )
                &&& *final(cursor_char) == start + emoji.len()
            },
            None => {
                &&& !r
                &&& final(input)@ == old(input)@
                &&& *final(cursor_char) == *old(cursor_char)
            },
        },
{
    match selected_shortcode(
        input.as_str(),
        *cursor_char,
        emoji_alias_to_char,
        emoji_aliases,
        shortcode_selected,
    ) {
        Some((start, emoji)) => {
            proof {
                crate::shortcode::lemma_shortcode_trigger(old(input)@, *old(cursor_char) as int);
            }
            replace_char_range(input, cursor_char, start, *cursor_char, emoji.as_str());
            true
        },
        None => false,
    }
}


/// A key that the composer reacts to. The vertical arrows carry the caret
/// position that the layout puts on the line above or below (none when there
/// is no such line).
#[derive(Clone, Copy, Debug, PartialEq, Eq)]
pub enum ComposerKey {
    A,
    Enter,
    Tab,
    Backspace,
    Delete,
    ArrowLeft,
    ArrowRight,
    ArrowUp(Option<usize>),
    ArrowDown(Option<usize>),
    Home,
    End,
    Other,
}

/// An input event of the composer.
#[derive(Debug, PartialEq, Eq)]
pub enum ComposerEvent {
    Text(String),
    ImeCommit(String),
    Paste(String),
    Copy,
    Cut,
    Key { key: ComposerKey, modifiers: KeyModifiers },
}

/// What one event asks of the composer's owner.
#[derive(Debug, PartialEq, Eq)]
pub struct ComposerOutcome {
    /// The text was edited.
    pub changed: bool,
    /// The message is to be sent.
    pub submit: bool,
    /// A paste too long for the composer, handed back untouched.
    pub overflow_paste: Option<String>,
    /// Text to put on the clipboard.
    pub copied: Option<String>,
}

/// Text, cursor and selection anchor of the composer.
pub struct EditView {
    pub text: Seq<char>,
    pub cursor: int,
    pub anchor: Option<usize>,
}

/// The composer after an event, and what the event asks.
pub struct StepView {
    pub state: EditView,
    pub changed: bool,
    pub submit: bool,
    pub overflow_paste: Option<Seq<char>>,
    pub copied: Option<Seq<char>>,
}

/// The selection, if any, deleted.
pub open spec fn without_selection(s: EditView) -> EditView {
    match selection_of(s.anchor, s.cursor as usize) {
        Some((start, end)) => EditView {
            text: splice_chars(s.text, start as int, clamp_index(end as int, s.text.len() as int), Seq::empty()),
            cursor: start as int,
            anchor: None,
        },
        None => s,
    }
}

/// `ins` inserted at the cursor, which moves past it.
pub open spec fn with_insertion(s: EditView, ins: Seq<char>) -> EditView {
    EditView {
        text: splice_chars(s.text, s.cursor, s.cursor, ins),
        cursor: s.cursor + ins.len(),
        anchor: s.anchor,
    }
}

/// The characters `[a, b)` replaced by `mid`, the cursor after `mid`.
pub open spec fn with_replacement(s: EditView, a: int, b: int, mid: Seq<char>) -> EditView {
    EditView { text: splice_chars(s.text, a, b, mid), cursor: a + mid.len(), anchor: s.anchor }
}

/// The anchor as a cursor move sets it: kept (or set at the cursor) while
/// Shift extends the selection, dropped otherwise.
pub open spec fn anchor_for_move(anchor: Option<usize>, cursor: int, shift: bool) -> Option<usize> {
    if shift {
        match anchor {
            Some(a) => Some(a),
            None => Some(cursor as usize),
        }
    } else {
        None
    }
}

/// An anchor that selects nothing is dropped.
pub open spec fn settled_anchor(anchor: Option<usize>, cursor: int) -> Option<usize> {
    if selection_of(anchor, cursor as usize) is None {
        None
    } else {
        anchor
    }
}

/// A cursor move with the anchor rules of the arrow and Home/End keys.
pub open spec fn moved(s: EditView, target: int, shift: bool) -> EditView {
    let anchor = anchor_for_move(s.anchor, s.cursor, shift);
    EditView { text: s.text, cursor: target, anchor: settled_anchor(anchor, target) }
}

/// A step that asks nothing.
pub open spec fn quiet(s: EditView) -> StepView {
    StepView { state: s, changed: false, submit: false, overflow_paste: None, copied: None }
}

/// A step that edited the text.
pub open spec fn edited(s: EditView) -> StepView {
    StepView { state: s, changed: true, submit: false, overflow_paste: None, copied: None }
}

/// Typed text, without its newlines: replaces the selection, then as much
/// of it as the input cap leaves room for is inserted.
pub open spec fn typed(s: EditView, t: Seq<char>) -> StepView {
    let d = without_selection(s);
    let room = if MAX_INPUT_CHARS > d.text.len() {
        MAX_INPUT_CHARS - d.text.len()
    } else {
        0
    };
    let ins = t.take(clamp_index(room, t.len() as int));
    edited(
        if ins.len() > 0 {
            with_insertion(d, ins)
        } else {
            d
        },
    )
}

/// A shortcode `[start, cursor)` completed by `emoji`, refused (nothing
/// changes) when the text would then pass the input cap.
pub open spec fn completed(s: EditView, start: int, emoji: Seq<char>) -> StepView {
    let r = with_replacement(s, start, s.cursor, emoji);
    if r.text.len() <= MAX_INPUT_CHARS {
        edited(r)
    } else {
        quiet(s)
    }
}

/// Number of selected characters.
pub open spec fn selected_len(s: EditView) -> int {
    match selection_of(s.anchor, s.cursor as usize) {
        Some((start, end)) => end - start,
        None => 0,
    }
}

/// The selected text.
pub open spec fn selected_text(s: EditView) -> Option<Seq<char>> {
    match selection_of(s.anchor, s.cursor as usize) {
        Some((start, end)) => Some(
            s.text.subrange(start as int, clamp_index(end as int, s.text.len() as int)),
        ),
        None => None,
    }
}

/// The character position that Backspace deletes back to.
pub open spec fn backspace_target(s: EditView, m: KeyModifiers) -> int {
    if m.mac_cmd {
        line_start_of(s.text, s.cursor)
    } else if m.alt || m.ctrl {
        word_start_before(s.text, s.cursor)
    } else if s.cursor > 0 {
        s.cursor - 1
    } else {
        0
    }
}

/// The character position that Delete deletes up to.
pub open spec fn delete_target(s: EditView, m: KeyModifiers) -> int {
    if m.alt || m.ctrl {
        word_end_after(s.text, s.cursor)
    } else if s.cursor < s.text.len() {
        s.cursor + 1
    } else {
        s.text.len() as int
    }
}

/// The cursor position after Left.
pub open spec fn left_target(s: EditView, m: KeyModifiers) -> int {
    if m.mac_cmd {
        line_start_of(s.text, s.cursor)
    } else if m.alt || m.ctrl {
        word_start_before(s.text, s.cursor)
    } else if s.cursor > 0 {
        s.cursor - 1
    } else {
        0
    }
}

/// The cursor position after Right.
pub open spec fn right_target(s: EditView, m: KeyModifiers) -> int {
    if m.mac_cmd {
        line_end_of(s.text, s.cursor)
    } else if m.alt || m.ctrl {
        word_end_after(s.text, s.cursor)
    } else if s.cursor < s.text.len() {
        s.cursor + 1
    } else {
        s.text.len() as int
    }
}

/// Whether `t` holds a line break.
pub open spec fn has_line_break(t: Seq<char>) -> bool {
    t.contains('\n') || t.contains('\r')
}

/// The effect of one event on the composer.
pub open spec fn composer_step(
    s: EditView,
    event: ComposerEvent,
    menu_open: bool,
    index: Map<Seq<char>, Seq<char>>,
    aliases: Seq<Seq<char>>,
    selected: int,
) -> StepView {
    match event {
        ComposerEvent::Text(t) => if has_line_break(t@) {
            quiet(s)
        } else {
            typed(s, t@)
        },
        ComposerEvent::ImeCommit(t) => if has_line_break(t@) || t@.len() == 0 {
            quiet(s)
        } else {
            typed(s, t@)
        },
        ComposerEvent::Paste(t) => {
            let p = normalized_paste(t@);
            if s.text.len() - selected_len(s) + p.len() > MAX_INPUT_CHARS {
                StepView {
                    state: s,
                    changed: false,
                    submit: false,
                    overflow_paste: Some(p),
                    copied: None,
                }
            } else {
                edited(with_insertion(without_selection(s), p))
            }
        },
        ComposerEvent::Copy => StepView {
            state: s,
            changed: false,
            submit: false,
            overflow_paste: None,
            copied: selected_text(s),
        },
        ComposerEvent::Cut => match selected_text(s) {
            Some(t) => StepView {
                state: without_selection(s),
                changed: true,
                submit: false,
                overflow_paste: None,
                copied: Some(t),
            },
            None => quiet(s),
        },
        ComposerEvent::Key { key, modifiers: m } => match key {
            ComposerKey::A => if m.ctrl || m.command {
                quiet(
                    if s.text.len() > 0 {
                        EditView { text: s.text, cursor: s.text.len() as int, anchor: Some(0) }
                    } else {
                        EditView { text: s.text, cursor: s.cursor, anchor: None }
                    },
                )
            } else {
                quiet(s)
            },
            ComposerKey::Enter => match enter_action_of(menu_open, m) {
                EnterKeyAction::InsertNewline => {
                    let d = without_selection(s);
                    edited(
                        if d.text.len() < MAX_INPUT_CHARS {
                            with_insertion(d, seq!['\n'])
                        } else {
                            d
                        },
                    )
                },
                EnterKeyAction::AcceptShortcode => match accepted_suggestion(
                    s.text,
                    s.cursor,
                    index,
                    aliases,
                    selected,
                ) {
                    Some((start, emoji)) => completed(s, start, emoji),
                    None => quiet(s),
                },
                EnterKeyAction::Submit => StepView {
                    state: s,
                    changed: false,
                    submit: true,
                    overflow_paste: None,
                    copied: None,
                },
            },
            ComposerKey::Tab => match shortcode_trigger(s.text, s.cursor) {
                Some((start, query)) => {
                    let list = suggestions_for(query, index, aliases, 1);
                    if list.len() > 0 {
                        completed(s, start, list[0].1)
                    } else {
                        quiet(s)
                    }
                },
                None => quiet(s),
            },
            ComposerKey::Backspace => if selection_of(s.anchor, s.cursor as usize) is Some {
                edited(without_selection(s))
            } else if backspace_target(s, m) < s.cursor {
                edited(with_replacement(s, backspace_target(s, m), s.cursor, Seq::empty()))
            } else {
                quiet(s)
            },
            ComposerKey::Delete => if selection_of(s.anchor, s.cursor as usize) is Some {
                edited(without_selection(s))
            } else if delete_target(s, m) > s.cursor {
                edited(with_replacement(s, s.cursor, delete_target(s, m), Seq::empty()))
            } else {
                quiet(s)
            },
            ComposerKey::ArrowLeft => quiet(moved(s, left_target(s, m), m.shift)),
            ComposerKey::ArrowRight => quiet(moved(s, right_target(s, m), m.shift)),
            ComposerKey::ArrowUp(target) => if menu_open {
                quiet(s)
            } else {
                quiet(
                    moved(
                        s,
                        match target {
                            Some(t) => t as int,
                            None => s.cursor,
                        },
                        m.shift,
                    ),
                )
            },
            ComposerKey::ArrowDown(target) => if menu_open {
                quiet(s)
            } else {
                quiet(
                    moved(
                        s,
                        match target {
                            Some(t) => t as int,
                            None => s.cursor,
                        },
                        m.shift,
                    ),
                )
            },
            ComposerKey::Home => quiet(moved(s, 0, m.shift)),
            ComposerKey::End => quiet(moved(s, s.text.len() as int, m.shift)),
            ComposerKey::Other => quiet(s),
        },
    }
}

/// What the composer accepts as the state before an event: the cursor
/// within the text, a paste never asks to remove more than the text, and a
/// vertical move lands within the text.
pub open spec fn event_allowed(s: EditView, event: ComposerEvent) -> bool {
    &&& 0 <= s.cursor <= s.text.len()
    &&& event matches ComposerEvent::Paste(_) ==> selected_len(s) <= s.text.len()
    &&& event matches ComposerEvent::Key { key: ComposerKey::ArrowUp(Some(t)), .. } ==> t
        <= s.text.len()
    &&& event matches ComposerEvent::Key { key: ComposerKey::ArrowDown(Some(t)), .. } ==> t
        <= s.text.len()
}


/// The view of the composer's state.
pub open spec fn edit_view(text: Seq<char>, cursor: usize, anchor: Option<usize>) -> EditView {
    EditView { text, cursor: cursor as int, anchor }
}

/// The view of an optional text.
pub open spec fn opt_text_view(t: Option<String>) -> Option<Seq<char>> {
    match t {
        Some(s) => Some(s@),
        None => None,
    }
}

/// `r` reports what `step` asks.
pub open spec fn outcome_matches(r: ComposerOutcome, step: StepView) -> bool {
    &&& r.changed == step.changed
    &&& r.submit == step.submit
    &&& opt_text_view(r.overflow_paste) == step.overflow_paste
    &&& opt_text_view(r.copied) == step.copied
}

fn outcome(changed: bool, submit: bool) -> (r: ComposerOutcome)
    ensures
        r.changed == changed,
        r.submit == submit,
        r.overflow_paste is None,
        r.copied is None,
{
    ComposerOutcome { changed, submit, overflow_paste: None, copied: None }
}

fn contains_char(t: &str, c: char) -> (r: bool)
    ensures
        r == t@.contains(c),
{
    let chars = to_chars(t);
    let mut i: usize = 0;
    while i < chars.len()
        invariant
            i <= chars@.len(),
            chars@ == t@,
            forall|j: int| 0 <= j < i ==> chars@[j] != c,
        decreases chars@.len() - i,
    {
        if chars[i] == c {
            assert(t@[i as int] == c);
            return true;
        }
        i = i + 1;
    }
    false
}

/// Typed text replaces the selection, then as much of it as the cap allows
/// is inserted.
fn apply_typed(input: &mut String, cursor_char: &mut usize, selection_anchor: &mut Option<usize>, t: &str)
    requires
        *old(cursor_char) <= old(input)@.len(),
    ensures
        edit_view(final(input)@, *final(cursor_char), *final(selection_anchor)) == typed(
            edit_view(old(input)@, *old(cursor_char), *old(selection_anchor)),
            t@,
        ).state,
{
    proof {
        reveal_strlit("");
    }
    replace_selection(input, cursor_char, selection_anchor, "");
    let len = input.as_str().unicode_len();
    let room = MAX_INPUT_CHARS.saturating_sub(len);
    let to_insert = char_prefix(t, room);
    if !to_insert.is_empty() {
        insert_text_at_cursor(input, cursor_char, to_insert);
    }
}


/// Moves the cursor to `target` with the anchor rules of the arrow keys.
fn apply_move(cursor_char: &mut usize, selection_anchor: &mut Option<usize>, target: usize, shift: bool)
    ensures
        *final(cursor_char) == target,
        *final(selection_anchor) == settled_anchor(
            anchor_for_move(*old(selection_anchor), *old(cursor_char) as int, shift),
            target as int,
        ),
{
    if shift {
        if selection_anchor.is_none() {
            *selection_anchor = Some(*cursor_char);
        }
    } else {
        clear_selection(selection_anchor);
    }
    *cursor_char = target;
    if selection_range(*selection_anchor, *cursor_char).is_none() {
        clear_selection(selection_anchor);
    }
}

/// Deletes the characters `[a, b)` and puts the cursor at `a`.
fn delete_range(input: &mut String, cursor_char: &mut usize, a: usize, b: usize)
    requires
        a <= b <= old(input)@.len(),
    ensures
        final(input)@ == splice_chars(old(input)@, a as int, b as int, Seq::empty()),
        *final(cursor_char) == a,
{
    proof {
        reveal_strlit("");
    }
    replace_char_range(input, cursor_char, a, b, "");
}

/// Replaces the shortcode `[start, cursor)` by `emoji` unless the text
/// would then pass the input cap; says whether it did.
fn complete_shortcode(input: &mut String, cursor_char: &mut usize, start: usize, emoji: &str) -> (r:
    bool)
    requires
        start <= *old(cursor_char) <= old(input)@.len(),
    ensures
        ({
            let s = edit_view(old(input)@, *old(cursor_char), None);
            let w = with_replacement(s, start as int, s.cursor, emoji@);
            &&& r == (w.text.len() <= MAX_INPUT_CHARS)
            &&& r ==> final(input)@ == w.text && *final(cursor_char) == w.cursor
            &&& !r ==> final(input)@ == old(input)@ && *final(cursor_char) == *old(cursor_char)
        }),
{
    let len = input.as_str().unicode_len();
    let keep = len - (*cursor_char - start);
    let emoji_len = emoji.unicode_len();
    if emoji_len <= MAX_INPUT_CHARS && keep <= MAX_INPUT_CHARS - emoji_len {
        replace_char_range(input, cursor_char, start, *cursor_char, emoji);
        true
    } else {
        false
    }
}

/// `r` and the new state are what `composer_step` gives for `event`.
pub open spec fn step_done(
    text: Seq<char>,
    cursor: usize,
    anchor: Option<usize>,
    new_text: Seq<char>,
    new_cursor: usize,
    new_anchor: Option<usize>,
    r: ComposerOutcome,
    event: ComposerEvent,
    menu_open: bool,
    alias_to_char: &TextMap<String>,
    aliases: Seq<String>,
    selected: usize,
) -> bool {
    let step = composer_step(
        edit_view(text, cursor, anchor),
        event,
        menu_open,
        alias_view(alias_to_char),
        texts_view(aliases),
        selected as int,
    );
    &&& edit_view(new_text, new_cursor, new_anchor) == step.state
    &&& outcome_matches(r, step)
}

fn step_typed(
    input: &mut String,
    cursor_char: &mut usize,
    selection_anchor: &mut Option<usize>,
    event: &ComposerEvent,
    shortcode_menu_open: bool,
    emoji_alias_to_char: &TextMap<String>,
    emoji_aliases: &[String],
    shortcode_selected: usize,
) -> (r: ComposerOutcome)
    requires
        event_allowed(edit_view(old(input)@, *old(cursor_char), *old(selection_anchor)), *event),
        fits_after(emoji_alias_to_char, old(input)@.len() as int),
        *event matches ComposerEvent::Text(_) || *event matches ComposerEvent::ImeCommit(_),
    ensures
        step_done(
            old(input)@,
            *old(cursor_char),
            *old(selection_anchor),
            final(input)@,
            *final(cursor_char),
            *final(selection_anchor),
            r,
            *event,
            shortcode_menu_open,
            emoji_alias_to_char,
            emoji_aliases@,
            shortcode_selected,
        ),
        *final(cursor_char) <= final(input)@.len(),
{
    let ghost s0 = edit_view(input@, *cursor_char, *selection_anchor);
    match event {
        ComposerEvent::Text(t) => {
            if contains_char(t.as_str(), '\n') || contains_char(t.as_str(), '\r') {
                outcome(false, false)
            } else {
                apply_typed(input, cursor_char, selection_anchor, t.as_str());
                outcome(true, false)
            }
        },
        ComposerEvent::ImeCommit(t) => {
            if contains_char(t.as_str(), '\n') || contains_char(t.as_str(), '\r')
                || t.as_str().is_empty() {
                outcome(false, false)
            } else {
                apply_typed(input, cursor_char, selection_anchor, t.as_str());
                outcome(true, false)
            }
        },
        _ => outcome(false, false),
    }
}

fn step_paste(
    input: &mut String,
    cursor_char: &mut usize,
    selection_anchor: &mut Option<usize>,
    event: &ComposerEvent,
    shortcode_menu_open: bool,
    emoji_alias_to_char: &TextMap<String>,
    emoji_aliases: &[String],
    shortcode_selected: usize,
) -> (r: ComposerOutcome)
    requires
        event_allowed(edit_view(old(input)@, *old(cursor_char), *old(selection_anchor)), *event),
        fits_after(emoji_alias_to_char, old(input)@.len() as int),
        *event matches ComposerEvent::Paste(_),
    ensures
        step_done(
            old(input)@,
            *old(cursor_char),
            *old(selection_anchor),
            final(input)@,
            *final(cursor_char),
            *final(selection_anchor),
            r,
            *event,
            shortcode_menu_open,
            emoji_alias_to_char,
            emoji_aliases@,
            shortcode_selected,
        ),
        *final(cursor_char) <= final(input)@.len(),
{
    let ghost s0 = edit_view(input@, *cursor_char, *selection_anchor);
    match event {
        ComposerEvent::Paste(t) => {
            let pasted = normalize_paste(t.as_str());
            let selected = match selection_range(*selection_anchor, *cursor_char) {
                Some((start, end)) => end - start,
                None => 0,
            };
            let len = input.as_str().unicode_len();
            let base = len - selected;
            let extra = pasted.as_str().unicode_len();
            if base > MAX_INPUT_CHARS || extra > MAX_INPUT_CHARS - base {
                ComposerOutcome {
                    changed: false,
                    submit: false,
                    overflow_paste: Some(pasted),
                    copied: None,
                }
            } else {
                proof {
                    reveal_strlit("");
                }
                replace_selection(input, cursor_char, selection_anchor, "");
                insert_text_at_cursor(input, cursor_char, pasted.as_str());
                outcome(true, false)
            }
        },
        _ => outcome(false, false),
    }
}

fn step_clipboard(
    input: &mut String,
    cursor_char: &mut usize,
    selection_anchor: &mut Option<usize>,
    event: &ComposerEvent,
    shortcode_menu_open: bool,
    emoji_alias_to_char: &TextMap<String>,
    emoji_aliases: &[String],
    shortcode_selected: usize,
) -> (r: ComposerOutcome)
    requires
        event_allowed(edit_view(old(input)@, *old(cursor_char), *old(selection_anchor)), *event),
        fits_after(emoji_alias_to_char, old(input)@.len() as int),
        *event matches ComposerEvent::Copy || *event matches ComposerEvent::Cut,
    ensures
        step_done(
            old(input)@,
            *old(cursor_char),
            *old(selection_anchor),
            final(input)@,
            *final(cursor_char),
            *final(selection_anchor),
            r,
            *event,
            shortcode_menu_open,
            emoji_alias_to_char,
            emoji_aliases@,
            shortcode_selected,
        ),
        *final(cursor_char) <= final(input)@.len(),
{
    let ghost s0 = edit_view(input@, *cursor_char, *selection_anchor);
    match event {
        ComposerEvent::Copy => {
            match selection_range(*selection_anchor, *cursor_char) {
                Some((start, end)) => ComposerOutcome {
                    changed: false,
                    submit: false,
                    overflow_paste: None,
                    copied: Some(char_range_string(input.as_str(), start, end)),
                },
                None => outcome(false, false),
            }
        },
        ComposerEvent::Cut => {
            match selection_range(*selection_anchor, *cursor_char) {
                Some((start, end)) => {
                    let copied = char_range_string(input.as_str(), start, end);
                    let len = input.as_str().unicode_len();
                    let b = if end < len {
                        end
                    } else {
                        len
                    };
                    delete_range(input, cursor_char, start, b);
                    clear_selection(selection_anchor);
                    ComposerOutcome {
                        changed: true,
                        submit: false,
                        overflow_paste: None,
                        copied: Some(copied),
                    }
                },
                None => outcome(false, false),
            }
        },
        _ => outcome(false, false),
    }
}

fn step_select_all(
    input: &mut String,
    cursor_char: &mut usize,
    selection_anchor: &mut Option<usize>,
    event: &ComposerEvent,
    shortcode_menu_open: bool,
    emoji_alias_to_char: &TextMap<String>,
    emoji_aliases: &[String],
    shortcode_selected: usize,
) -> (r: ComposerOutcome)
    requires
        event_allowed(edit_view(old(input)@, *old(cursor_char), *old(selection_anchor)), *event),
        fits_after(emoji_alias_to_char, old(input)@.len() as int),
        *event matches ComposerEvent::Key { key: ComposerKey::A, .. },
    ensures
        step_done(
            old(input)@,
            *old(cursor_char),
            *old(selection_anchor),
            final(input)@,
            *final(cursor_char),
            *final(selection_anchor),
            r,
            *event,
            shortcode_menu_open,
            emoji_alias_to_char,
            emoji_aliases@,
            shortcode_selected,
        ),
        *final(cursor_char) <= final(input)@.len(),
{
    let ghost s0 = edit_view(input@, *cursor_char, *selection_anchor);
    match event {
        ComposerEvent::Key { key, modifiers } => match *key {
            ComposerKey::A => {
                if (*modifiers).ctrl || (*modifiers).command {
                    let total = input.as_str().unicode_len();
                    if total > 0 {
                        *selection_anchor = Some(0);
                        *cursor_char = total;
                    } else {
                        clear_selection(selection_anchor);
                    }
                }
                outcome(false, false)
            },
            _ => outcome(false, false),
        },
        _ => outcome(false, false),
    }
}

fn step_enter(
    input: &mut String,
    cursor_char: &mut usize,
    selection_anchor: &mut Option<usize>,
    event: &ComposerEvent,
    shortcode_menu_open: bool,
    emoji_alias_to_char: &TextMap<String>,
    emoji_aliases: &[String],
    shortcode_selected: usize,
) -> (r: ComposerOutcome)
    requires
        event_allowed(edit_view(old(input)@, *old(cursor_char), *old(selection_anchor)), *event),
        fits_after(emoji_alias_to_char, old(input)@.len() as int),
        *event matches ComposerEvent::Key { key: ComposerKey::Enter, .. },
    ensures
        step_done(
            old(input)@,
            *old(cursor_char),
            *old(selection_anchor),
            final(input)@,
            *final(cursor_char),
            *final(selection_anchor),
            r,
            *event,
            shortcode_menu_open,
            emoji_alias_to_char,
            emoji_aliases@,
            shortcode_selected,
        ),
        *final(cursor_char) <= final(input)@.len(),
{
    let ghost s0 = edit_view(input@, *cursor_char, *selection_anchor);
    match event {
        ComposerEvent::Key { key, modifiers } => match *key {
            ComposerKey::Enter => match enter_key_action(shortcode_menu_open, *modifiers) {
                EnterKeyAction::InsertNewline => {
                    proof {
                        reveal_strlit("");
                        reveal_strlit("\n");
                    }
                    replace_selection(input, cursor_char, selection_anchor, "");
                    assert(""@ =~= Seq::<char>::empty());
                    assert("\n"@ =~= seq!['\n']);
                    assert(edit_view(input@, *cursor_char, *selection_anchor) == without_selection(s0));
                    if input.as_str().unicode_len() < MAX_INPUT_CHARS {
                        insert_text_at_cursor(input, cursor_char, "\n");
                    }
                    outcome(true, false)
                },
                EnterKeyAction::AcceptShortcode => {
                    assert(enter_action_of(shortcode_menu_open, *modifiers) == EnterKeyAction::AcceptShortcode);
                    match selected_shortcode(
                        input.as_str(),
                        *cursor_char,
                        emoji_alias_to_char,
                        emoji_aliases,
                        shortcode_selected,
                    ) {
                        Some((start, emoji)) => {
                            let changed = complete_shortcode(input, cursor_char, start, emoji.as_str());
                            outcome(changed, false)
                        },
                        None => outcome(false, false),
                    }
                },
                EnterKeyAction::Submit => outcome(false, true),
            },
            _ => outcome(false, false),
        },
        _ => outcome(false, false),
    }
}

fn step_tab(
    input: &mut String,
    cursor_char: &mut usize,
    selection_anchor: &mut Option<usize>,
    event: &ComposerEvent,
    shortcode_menu_open: bool,
    emoji_alias_to_char: &TextMap<String>,
    emoji_aliases: &[String],
    shortcode_selected: usize,
) -> (r: ComposerOutcome)
    requires
        event_allowed(edit_view(old(input)@, *old(cursor_char), *old(selection_anchor)), *event),
        fits_after(emoji_alias_to_char, old(input)@.len() as int),
        *event matches ComposerEvent::Key { key: ComposerKey::Tab, .. },
    ensures
        step_done(
            old(input)@,
            *old(cursor_char),
            *old(selection_anchor),
            final(input)@,
            *final(cursor_char),
            *final(selection_anchor),
            r,
            *event,
            shortcode_menu_open,
            emoji_alias_to_char,
            emoji_aliases@,
            shortcode_selected,
        ),
        *final(cursor_char) <= final(input)@.len(),
{
    let ghost s0 = edit_view(input@, *cursor_char, *selection_anchor);
    match event {
        ComposerEvent::Key { key, modifiers } => match *key {
            ComposerKey::Tab => {
                let suggestions = shortcode_suggestions(
                    input.as_str(),
                    *cursor_char,
                    emoji_alias_to_char,
                    emoji_aliases,
                    1,
                );
                if suggestions.len() > 0 {
                    match emoji_shortcode_trigger(input.as_str(), *cursor_char) {
                        Some((start, _query)) => {
                            proof {
                                crate::shortcode::lemma_shortcode_trigger(s0.text, s0.cursor);
                                let query = shortcode_trigger(s0.text, s0.cursor)->Some_0.1;
                                let matching = crate::shortcode::aliases_with_prefix(
                                    texts_view(emoji_aliases@),
                                    query,
                                );
                                crate::shortcode::lemma_bound_pairs(
                                    matching.take(clamp_index(1, matching.len() as int)),
                                    alias_view(emoji_alias_to_char),
                                    0,
                                );
                                assert(suggestions@[0].1@ == crate::shortcode::pairs_view(
                                    suggestions@,
                                )[0].1);
                            }
                            let changed = complete_shortcode(
                                input,
                                cursor_char,
                                start,
                                suggestions[0].1.as_str(),
                            );
                            outcome(changed, false)
                        },
                        None => outcome(false, false),
                    }
                } else {
                    outcome(false, false)
                }
            },
            _ => outcome(false, false),
        },
        _ => outcome(false, false),
    }
}

fn step_erase(
    input: &mut String,
    cursor_char: &mut usize,
    selection_anchor: &mut Option<usize>,
    event: &ComposerEvent,
    shortcode_menu_open: bool,
    emoji_alias_to_char: &TextMap<String>,
    emoji_aliases: &[String],
    shortcode_selected: usize,
) -> (r: ComposerOutcome)
    requires
        event_allowed(edit_view(old(input)@, *old(cursor_char), *old(selection_anchor)), *event),
        fits_after(emoji_alias_to_char, old(input)@.len() as int),
        *event matches ComposerEvent::Key { key: ComposerKey::Backspace, .. } || *event matches ComposerEvent::Key { key: ComposerKey::Delete, .. },
    ensures
        step_done(
            old(input)@,
            *old(cursor_char),
            *old(selection_anchor),
            final(input)@,
            *final(cursor_char),
            *final(selection_anchor),
            r,
            *event,
            shortcode_menu_open,
            emoji_alias_to_char,
            emoji_aliases@,
            shortcode_selected,
        ),
        *final(cursor_char) <= final(input)@.len(),
{
    let ghost s0 = edit_view(input@, *cursor_char, *selection_anchor);
    match event {
        ComposerEvent::Key { key, modifiers } => match *key {
            ComposerKey::Backspace => {
                proof {
                    reveal_strlit("");
                }
                if replace_selection(input, cursor_char, selection_anchor, "") {
                    outcome(true, false)
                } else {
                    let target = if (*modifiers).mac_cmd {
                        line_start(input.as_str(), *cursor_char)
                    } else if (*modifiers).alt || (*modifiers).ctrl {
                        prev_word_start(input.as_str(), *cursor_char)
                    } else {
                        cursor_char.saturating_sub(1)
                    };
                    proof {
                        crate::text_ops::lemma_word_start_before(s0.text, s0.cursor);
                        crate::text_ops::lemma_line_start_of(s0.text, s0.cursor);
                    }
                    if target < *cursor_char {
                        let c = *cursor_char;
                        delete_range(input, cursor_char, target, c);
                        outcome(true, false)
                    } else {
                        outcome(false, false)
                    }
                }
            },
            ComposerKey::Delete => {
                proof {
                    reveal_strlit("");
                }
                if replace_selection(input, cursor_char, selection_anchor, "") {
                    outcome(true, false)
                } else {
                    let len = input.as_str().unicode_len();
                    let target = if (*modifiers).alt || (*modifiers).ctrl {
                        next_word_end(input.as_str(), *cursor_char)
                    } else if *cursor_char < len {
                        *cursor_char + 1
                    } else {
                        len
                    };
                    proof {
                        crate::text_ops::lemma_word_end_after(s0.text, s0.cursor);
                    }
                    if target > *cursor_char {
                        let c = *cursor_char;
                        delete_range(input, cursor_char, c, target);
                        outcome(true, false)
                    } else {
                        outcome(false, false)
                    }
                }
            },
            _ => outcome(false, false),
        },
        _ => outcome(false, false),
    }
}

fn step_move(
    input: &mut String,
    cursor_char: &mut usize,
    selection_anchor: &mut Option<usize>,
    event: &ComposerEvent,
    shortcode_menu_open: bool,
    emoji_alias_to_char: &TextMap<String>,
    emoji_aliases: &[String],
    shortcode_selected: usize,
) -> (r: ComposerOutcome)
    requires
        event_allowed(edit_view(old(input)@, *old(cursor_char), *old(selection_anchor)), *event),
        fits_after(emoji_alias_to_char, old(input)@.len() as int),
        *event matches ComposerEvent::Key { key: ComposerKey::ArrowLeft, .. } || *event matches ComposerEvent::Key { key: ComposerKey::ArrowRight, .. } || *event matches ComposerEvent::Key { key: ComposerKey::ArrowUp(_), .. } || *event matches ComposerEvent::Key { key: ComposerKey::ArrowDown(_), .. } || *event matches ComposerEvent::Key { key: ComposerKey::Home, .. } || *event matches ComposerEvent::Key { key: ComposerKey::End, .. },
    ensures
        step_done(
            old(input)@,
            *old(cursor_char),
            *old(selection_anchor),
            final(input)@,
            *final(cursor_char),
            *final(selection_anchor),
            r,
            *event,
            shortcode_menu_open,
            emoji_alias_to_char,
            emoji_aliases@,
            shortcode_selected,
        ),
        *final(cursor_char) <= final(input)@.len(),
{
    let ghost s0 = edit_view(input@, *cursor_char, *selection_anchor);
    match event {
        ComposerEvent::Key { key, modifiers } => match *key {
            ComposerKey::ArrowLeft => {
                let target = if (*modifiers).mac_cmd {
                    line_start(input.as_str(), *cursor_char)
                } else if (*modifiers).alt || (*modifiers).ctrl {
                    prev_word_start(input.as_str(), *cursor_char)
                } else {
                    cursor_char.saturating_sub(1)
                };
                proof {
                    crate::text_ops::lemma_word_start_before(s0.text, s0.cursor);
                    crate::text_ops::lemma_line_start_of(s0.text, s0.cursor);
                }
                apply_move(cursor_char, selection_anchor, target, (*modifiers).shift);
                outcome(false, false)
            },
            ComposerKey::ArrowRight => {
                let len = input.as_str().unicode_len();
                let target = if (*modifiers).mac_cmd {
                    line_end(input.as_str(), *cursor_char)
                } else if (*modifiers).alt || (*modifiers).ctrl {
                    next_word_end(input.as_str(), *cursor_char)
                } else if *cursor_char < len {
                    *cursor_char + 1
                } else {
                    len
                };
                proof {
                    crate::text_ops::lemma_word_end_after(s0.text, s0.cursor);
                }
                apply_move(cursor_char, selection_anchor, target, (*modifiers).shift);
                outcome(false, false)
            },
            ComposerKey::ArrowUp(vertical) => {
                if !shortcode_menu_open {
                    let target = match vertical {
                        Some(t) => t,
                        None => *cursor_char,
                    };
                    apply_move(cursor_char, selection_anchor, target, (*modifiers).shift);
                }
                outcome(false, false)
            },
            ComposerKey::ArrowDown(vertical) => {
                if !shortcode_menu_open {
                    let target = match vertical {
                        Some(t) => t,
                        None => *cursor_char,
                    };
                    apply_move(cursor_char, selection_anchor, target, (*modifiers).shift);
                }
                outcome(false, false)
            },
            ComposerKey::Home => {
                apply_move(cursor_char, selection_anchor, 0, (*modifiers).shift);
                outcome(false, false)
            },
            ComposerKey::End => {
                let total = input.as_str().unicode_len();
                apply_move(cursor_char, selection_anchor, total, (*modifiers).shift);
                outcome(false, false)
            },
            _ => outcome(false, false),
        },
        _ => outcome(false, false),
    }
}

/// Applies one input event to the composer's text, cursor and selection
/// anchor, and reports what the event asks of the caller.
pub fn apply_composer_event(
    input: &mut String,
    cursor_char: &mut usize,
    selection_anchor: &mut Option<usize>,
    event: ComposerEvent,
    shortcode_menu_open: bool,
    emoji_alias_to_char: &TextMap<String>,
    emoji_aliases: &[String],
    shortcode_selected: usize,
) -> (r: ComposerOutcome)
    requires
        event_allowed(edit_view(old(input)@, *old(cursor_char), *old(selection_anchor)), event),
        fits_after(emoji_alias_to_char, old(input)@.len() as int),
    ensures
        step_done(
            old(input)@,
            *old(cursor_char),
            *old(selection_anchor),
            final(input)@,
            *final(cursor_char),
            *final(selection_anchor),
            r,
            event,
            shortcode_menu_open,
            emoji_alias_to_char,
            emoji_aliases@,
            shortcode_selected,
        ),
        *final(cursor_char) <= final(input)@.len(),
        valid_edit(edit_view(old(input)@, *old(cursor_char), *old(selection_anchor))) && old(
            input,
        )@.len() <= MAX_INPUT_CHARS ==> final(input)@.len() <= MAX_INPUT_CHARS,
{
    proof {
        if input@.len() <= MAX_INPUT_CHARS && valid_edit(edit_view(input@, *cursor_char, *selection_anchor)) {
            composer_steps_keep_the_cap(
                edit_view(input@, *cursor_char, *selection_anchor),
                event,
                shortcode_menu_open,
                alias_view(emoji_alias_to_char),
                texts_view(emoji_aliases@),
                shortcode_selected as int,
            );
        }
    }
    let ev = &event;
    match ev {
        ComposerEvent::Text(_) | ComposerEvent::ImeCommit(_) => step_typed(
            input, cursor_char, selection_anchor, ev, shortcode_menu_open, emoji_alias_to_char,
            emoji_aliases, shortcode_selected),
        ComposerEvent::Paste(_) => step_paste(
            input, cursor_char, selection_anchor, ev, shortcode_menu_open, emoji_alias_to_char,
            emoji_aliases, shortcode_selected),
        ComposerEvent::Copy | ComposerEvent::Cut => step_clipboard(
            input, cursor_char, selection_anchor, ev, shortcode_menu_open, emoji_alias_to_char,
            emoji_aliases, shortcode_selected),
        ComposerEvent::Key { key, .. } => match *key {
            ComposerKey::A => step_select_all(
                input, cursor_char, selection_anchor, ev, shortcode_menu_open, emoji_alias_to_char,
                emoji_aliases, shortcode_selected),
            ComposerKey::Enter => step_enter(
                input, cursor_char, selection_anchor, ev, shortcode_menu_open, emoji_alias_to_char,
                emoji_aliases, shortcode_selected),
            ComposerKey::Tab => step_tab(
                input, cursor_char, selection_anchor, ev, shortcode_menu_open, emoji_alias_to_char,
                emoji_aliases, shortcode_selected),
            ComposerKey::Backspace | ComposerKey::Delete => step_erase(
                input, cursor_char, selection_anchor, ev, shortcode_menu_open, emoji_alias_to_char,
                emoji_aliases, shortcode_selected),
            ComposerKey::Other => outcome(false, false),
            _ => step_move(
                input, cursor_char, selection_anchor, ev, shortcode_menu_open, emoji_alias_to_char,
                emoji_aliases, shortcode_selected),
        },
    }
}


/// The cursor and the selection anchor within the text.
pub open spec fn valid_edit(s: EditView) -> bool {
    &&& 0 <= s.cursor <= s.text.len()
    &&& s.anchor matches Some(a) ==> a <= s.text.len()
}

/// After a frame's events, the cursor and the anchor are brought back within
/// the text, which the events may have shortened.
pub fn settle_composer(input: &str, cursor_char: &mut usize, selection_anchor: &mut Option<usize>)
    ensures
        *final(cursor_char) == clamp_index(*old(cursor_char) as int, input@.len() as int),
        *final(selection_anchor) == match *old(selection_anchor) {
            Some(a) => Some(clamp_index(a as int, input@.len() as int) as usize),
            None => None,
        },
        valid_edit(edit_view(input@, *final(cursor_char), *final(selection_anchor))),
{
    let total = input.unicode_len();
    if *cursor_char > total {
        *cursor_char = total;
    }
    match *selection_anchor {
        Some(a) => {
            if a > total {
                *selection_anchor = Some(total);
            }
        },
        None => {},
    }
}

/// The state with the cursor and the anchor brought back within the text.
pub open spec fn settled(s: EditView) -> EditView {
    EditView {
        text: s.text,
        cursor: clamp_index(s.cursor, s.text.len() as int),
        anchor: match s.anchor {
            Some(a) => Some(clamp_index(a as int, s.text.len() as int) as usize),
            None => None,
        },
    }
}

/// The event with the target of a vertical move brought within a text of
/// `len` characters.
pub open spec fn within_text(event: ComposerEvent, len: int) -> ComposerEvent {
    match event {
        ComposerEvent::Key { key: ComposerKey::ArrowUp(Some(t)), modifiers } => ComposerEvent::Key {
            key: ComposerKey::ArrowUp(Some(clamp_index(t as int, len) as usize)),
            modifiers,
        },
        ComposerEvent::Key { key: ComposerKey::ArrowDown(Some(t)), modifiers } => ComposerEvent::Key {
            key: ComposerKey::ArrowDown(Some(clamp_index(t as int, len) as usize)),
            modifiers,
        },
        _ => event,
    }
}

/// One frame of the composer: before each event the state is settled and a
/// vertical move kept within the text; the frame stops early when an emoji
/// of the index could no longer be counted after the text. The final state
/// (settled) and the step of each event handled.
pub open spec fn frame_steps(
    s: EditView,
    events: Seq<ComposerEvent>,
    menu_open: bool,
    index: Map<Seq<char>, Seq<char>>,
    aliases: Seq<Seq<char>>,
    selected: int,
) -> (EditView, Seq<StepView>)
    decreases events.len(),
{
    let t = settled(s);
    if events.len() == 0 || !fits_index(index, t.text.len() as int) {
        (t, Seq::empty())
    } else {
        let step = composer_step(
            t,
            within_text(events[0], t.text.len() as int),
            menu_open,
            index,
            aliases,
            selected,
        );
        let rest = frame_steps(step.state, events.drop_first(), menu_open, index, aliases, selected);
        (rest.0, seq![step] + rest.1)
    }
}

/// The length of the longest emoji of the index, 0 when it is empty.
fn longest_emoji(index: &TextMap<String>) -> (r: usize)
    ensures
        forall|k: Seq<char>| #[trigger] alias_view(index).contains_key(k) ==> alias_view(index)[k].len() <= r,
        r == 0 || exists|k: Seq<char>| #[trigger] alias_view(index).contains_key(k) && alias_view(index)[k].len() == r,
{
    let keys = index.keys();
    let ghost m = alias_view(index);
    let mut best: usize = 0;
    let mut i: usize = 0;
    while i < keys.len()
        invariant
            i <= keys@.len(),
            m == alias_view(index),
            texts_view(keys@) == index.key_seq(),
            forall|j: int| 0 <= j < i ==> m[#[trigger] keys@[j]@].len() <= best,
            best == 0 || exists|k: Seq<char>| #[trigger] m.contains_key(k) && m[k].len() == best,
        decreases keys@.len() - i,
    {
        match index.get(keys[i].as_str()) {
            Some(e) => {
                let n = e.as_str().unicode_len();
                if n > best {
                    best = n;
                    assert(m.contains_key(keys@[i as int]@));
                }
            },
            None => {
                proof {
                    assert(texts_view(keys@)[i as int] == keys@[i as int]@);
                    assert(index.key_seq().contains(keys@[i as int]@));
                }
            },
        }
        i = i + 1;
    }
    proof {
        assert forall|k: Seq<char>| #[trigger] m.contains_key(k) implies m[k].len() <= best by {
            assert(index.key_seq().contains(k));
            let j = choose|j: int| 0 <= j < index.key_seq().len() && index.key_seq()[j] == k;
            assert(texts_view(keys@)[j] == keys@[j]@);
        }
    }
    best
}

/// The event with a vertical move's target brought within `len`.
fn event_within_text(event: ComposerEvent, len: usize) -> (r: ComposerEvent)
    ensures
        r == within_text(event, len as int),
{
    match event {
        ComposerEvent::Key { key: ComposerKey::ArrowUp(Some(t)), modifiers } => ComposerEvent::Key {
            key: ComposerKey::ArrowUp(Some(if t < len { t } else { len })),
            modifiers,
        },
        ComposerEvent::Key { key: ComposerKey::ArrowDown(Some(t)), modifiers } => ComposerEvent::Key {
            key: ComposerKey::ArrowDown(Some(if t < len { t } else { len })),
            modifiers,
        },
        other => other,
    }
}

/// Applies the events of one frame in turn, and reports what each asked:
/// the composer is settled before each event and at the end, a vertical move
/// lands within the text, and the frame stops when an emoji of the index
/// could no longer be counted after the text. A text within the input cap
/// stays within it.
pub fn composer_frame(
    input: &mut String,
    cursor_char: &mut usize,
    selection_anchor: &mut Option<usize>,
    events: Vec<ComposerEvent>,
    shortcode_menu_open: bool,
    emoji_alias_to_char: &TextMap<String>,
    emoji_aliases: &[String],
    shortcode_selected: usize,
) -> (r: Vec<ComposerOutcome>)
    ensures
        ({
            let f = frame_steps(
                edit_view(old(input)@, *old(cursor_char), *old(selection_anchor)),
                events@,
                shortcode_menu_open,
                alias_view(emoji_alias_to_char),
                texts_view(emoji_aliases@),
                shortcode_selected as int,
            );
            &&& edit_view(final(input)@, *final(cursor_char), *final(selection_anchor)) == f.0
            &&& r@.len() == f.1.len()
            &&& forall|i: int| 0 <= i < r@.len() ==> outcome_matches(#[trigger] r@[i], f.1[i])
        }),
        valid_edit(edit_view(final(input)@, *final(cursor_char), *final(selection_anchor))),
        old(input)@.len() <= MAX_INPUT_CHARS ==> final(input)@.len() <= MAX_INPUT_CHARS,
{
    let ghost index = alias_view(emoji_alias_to_char);
    let ghost aliases = texts_view(emoji_aliases@);
    let ghost sel = shortcode_selected as int;
    let ghost whole = frame_steps(
        edit_view(input@, *cursor_char, *selection_anchor),
        events@,
        shortcode_menu_open,
        index,
        aliases,
        sel,
    );
    let ghost start_len = input@.len();
    let longest = longest_emoji(emoji_alias_to_char);
    let mut events = events;
    let mut outcomes: Vec<ComposerOutcome> = Vec::new();
    let ghost mut steps: Seq<StepView> = Seq::empty();
    let mut stopped = false;
    while !stopped && events.len() > 0
        invariant
            index == alias_view(emoji_alias_to_char),
            aliases == texts_view(emoji_aliases@),
            sel == shortcode_selected as int,
            forall|k: Seq<char>| #[trigger] index.contains_key(k) ==> index[k].len() <= longest,
            longest == 0 || exists|k: Seq<char>| #[trigger] index.contains_key(k) && index[k].len() == longest,
            whole.0 == frame_steps(
                edit_view(input@, *cursor_char, *selection_anchor),
                events@,
                shortcode_menu_open,
                index,
                aliases,
                sel,
            ).0,
            whole.1 == steps + frame_steps(
                edit_view(input@, *cursor_char, *selection_anchor),
                events@,
                shortcode_menu_open,
                index,
                aliases,
                sel,
            ).1,
            stopped ==> events@.len() > 0 && !fits_index(index, input@.len() as int)
                && valid_edit(edit_view(input@, *cursor_char, *selection_anchor)),
            outcomes@.len() == steps.len(),
            forall|i: int| 0 <= i < outcomes@.len() ==> outcome_matches(#[trigger] outcomes@[i], steps[i]),
            start_len <= MAX_INPUT_CHARS ==> input@.len() <= MAX_INPUT_CHARS,
        decreases events@.len(), if stopped { 0int } else { 1int },
    {
        let ghost before = edit_view(input@, *cursor_char, *selection_anchor);
        settle_composer(input.as_str(), cursor_char, selection_anchor);
        let ghost now = edit_view(input@, *cursor_char, *selection_anchor);
        assert(now == settled(before));
        assert(settled(now) == now);
        let len = input.as_str().unicode_len();
        if longest > usize::MAX - len {
            proof {
                let k = choose|k: Seq<char>| #[trigger] index.contains_key(k) && index[k].len() == longest;
                assert(!fits_index(index, len as int));
            }
            stopped = true;
        } else {
            let ghost rest = events@;
            let event = events.remove(0);
            let event = event_within_text(event, len);
            let ghost step = composer_step(now, event, shortcode_menu_open, index, aliases, sel);
            assert(event == within_text(rest[0], len as int));
            let outcome = apply_composer_event(
                input,
                cursor_char,
                selection_anchor,
                event,
                shortcode_menu_open,
                emoji_alias_to_char,
                emoji_aliases,
                shortcode_selected,
            );
            proof {
                assert(rest.drop_first() =~= events@);
                let ghost old_steps = steps;
                steps = steps.push(step);
                assert(old_steps + (seq![step] + frame_steps(
                    edit_view(input@, *cursor_char, *selection_anchor),
                    events@,
                    shortcode_menu_open,
                    index,
                    aliases,
                    sel,
                ).1) =~= steps + frame_steps(
                    edit_view(input@, *cursor_char, *selection_anchor),
                    events@,
                    shortcode_menu_open,
                    index,
                    aliases,
                    sel,
                ).1);
            }
            outcomes.push(outcome);
        }
    }
    let ghost before = edit_view(input@, *cursor_char, *selection_anchor);
    settle_composer(input.as_str(), cursor_char, selection_anchor);
    proof {
        assert(edit_view(input@, *cursor_char, *selection_anchor) == settled(before));
        assert(steps + Seq::<StepView>::empty() =~= steps);
    }
    outcomes
}

proof fn lemma_without_selection(s: EditView)
    requires
        valid_edit(s),
    ensures
        valid_edit(without_selection(s)),
        without_selection(s).text.len() == s.text.len() - selected_len(s),
        selected_len(s) >= 0,
{
}

proof fn lemma_without_selection_len(s: EditView)
    requires
        0 <= s.cursor <= s.text.len(),
    ensures
        without_selection(s).text.len() <= s.text.len(),
        0 <= without_selection(s).cursor <= without_selection(s).text.len(),
{
}

/// No event takes a text within the input cap past it (the cursor and the
/// anchor within the text, as `settle_composer` leaves them): typing keeps to the
/// room left, an oversized paste is handed back, Enter adds no line break
/// at the cap, and a shortcode completion that would pass it is refused.
#[verifier::spinoff_prover]
#[verifier::rlimit(40)]
pub proof fn composer_steps_keep_the_cap(
    s: EditView,
    event: ComposerEvent,
    menu_open: bool,
    index: Map<Seq<char>, Seq<char>>,
    aliases: Seq<Seq<char>>,
    selected: int,
)
    requires
        valid_edit(s),
        event_allowed(s, event),
        s.text.len() <= MAX_INPUT_CHARS,
    ensures
        composer_step(s, event, menu_open, index, aliases, selected).state.text.len()
            <= MAX_INPUT_CHARS,
{
    lemma_without_selection_len(s);
    match event {
        ComposerEvent::Key { key, modifiers: m } => {
            lemma_targets(s, m);
            if key == ComposerKey::Backspace {
                let t = backspace_target(s, m);
                assert(with_replacement(s, t, s.cursor, Seq::empty()).text.len() == s.text.len()
                    - (s.cursor - t));
            } else if key == ComposerKey::Delete {
                let d = delete_target(s, m);
                assert(with_replacement(s, s.cursor, d, Seq::empty()).text.len() == s.text.len()
                    - (d - s.cursor));
            }
        },
        _ => {
            lemma_without_selection(s);
        },
    }
}

proof fn lemma_targets(s: EditView, m: KeyModifiers)
    requires
        0 <= s.cursor <= s.text.len(),
    ensures
        0 <= backspace_target(s, m) <= s.cursor,
        s.cursor <= delete_target(s, m) <= s.text.len(),
        0 <= left_target(s, m) <= s.text.len(),
        0 <= right_target(s, m) <= s.text.len(),
{
    crate::text_ops::lemma_line_start_of(s.text, s.cursor);
    crate::text_ops::lemma_line_end_of(s.text, s.cursor);
    crate::text_ops::lemma_word_start_before(s.text, s.cursor);
    crate::text_ops::lemma_word_end_after(s.text, s.cursor);
}

proof fn lemma_replacement_cursor(s: EditView, a: int, mid: Seq<char>)
    requires
        valid_edit(s),
        0 <= a <= s.cursor,
    ensures
        0 <= with_replacement(s, a, s.cursor, mid).cursor <= with_replacement(
            s,
            a,
            s.cursor,
            mid,
        ).text.len(),
        with_replacement(s, a, s.cursor, mid).text.len() == s.text.len() - (s.cursor - a)
            + mid.len(),
{
}

proof fn lemma_shortcode_steps(
    s: EditView,
    event: ComposerEvent,
    menu_open: bool,
    index: Map<Seq<char>, Seq<char>>,
    aliases: Seq<Seq<char>>,
    selected: int,
)
    requires
        valid_edit(s),
        event matches ComposerEvent::Key { key, .. } && (key == ComposerKey::Enter || key
            == ComposerKey::Tab),
    ensures
        ({
            let step = composer_step(s, event, menu_open, index, aliases, selected);
            &&& 0 <= step.state.cursor <= step.state.text.len()
            &&& !step.changed ==> step.state.text == s.text
            &&& step.submit ==> step.state == s && !step.changed
        }),
{
    crate::shortcode::lemma_shortcode_trigger(s.text, s.cursor);
    lemma_without_selection(s);
    match accepted_suggestion(s.text, s.cursor, index, aliases, selected) {
        Some((start, emoji)) => {
            lemma_replacement_cursor(s, start, emoji);
        },
        None => {},
    }
    match shortcode_trigger(s.text, s.cursor) {
        Some((start, query)) => {
            let list = suggestions_for(query, index, aliases, 1);
            if list.len() > 0 {
                lemma_replacement_cursor(s, start, list[0].1);
            }
        },
        None => {},
    }
}

/// Whatever the event, the cursor stays within the text, the text changes
/// only when the step says so, sending and an oversized paste leave the
/// composer as it was, copying changes nothing, and typing or pasting never
/// takes the text past the input cap.
pub proof fn composer_steps_keep_the_state_sound(
    s: EditView,
    event: ComposerEvent,
    menu_open: bool,
    index: Map<Seq<char>, Seq<char>>,
    aliases: Seq<Seq<char>>,
    selected: int,
)
    requires
        valid_edit(s),
        event_allowed(s, event),
    ensures
        ({
            let step = composer_step(s, event, menu_open, index, aliases, selected);
            &&& 0 <= step.state.cursor <= step.state.text.len()
            &&& !step.changed ==> step.state.text == s.text
            &&& step.submit ==> step.state == s && !step.changed
            &&& step.overflow_paste is Some ==> step.state == s && !step.changed
            &&& event is Copy ==> step.state == s && !step.changed
            &&& (event is Text || event is ImeCommit || event is Paste) && s.text.len()
                <= MAX_INPUT_CHARS ==> step.state.text.len() <= MAX_INPUT_CHARS
        }),
{
    lemma_without_selection(s);
    match event {
        ComposerEvent::Key { key, modifiers: m } => {
            lemma_targets(s, m);
            if key == ComposerKey::Enter || key == ComposerKey::Tab {
                lemma_shortcode_steps(s, event, menu_open, index, aliases, selected);
            } else if key == ComposerKey::Backspace {
                lemma_replacement_cursor(s, backspace_target(s, m), Seq::empty());
            } else if key == ComposerKey::Delete {
                let d = delete_target(s, m);
                let u = with_replacement(s, s.cursor, d, Seq::empty());
                assert(u.text.len() == s.text.len() - (d - s.cursor));
            }
        },
        _ => {},
    }
}

/// Typing one character and then pressing Backspace gives the composer
/// back as it was, when nothing is selected and the text is under the cap.
pub proof fn backspace_undoes_typing(
    s: EditView,
    typed_text: String,
    menu_open: bool,
    index: Map<Seq<char>, Seq<char>>,
    aliases: Seq<Seq<char>>,
    selected: int,
)
    requires
        valid_edit(s),
        s.anchor is None,
        s.text.len() < MAX_INPUT_CHARS,
        typed_text@.len() == 1,
        typed_text@[0] != '\n' && typed_text@[0] != '\r',
    ensures
        ({
            let plain = KeyModifiers { alt: false, ctrl: false, shift: false, mac_cmd: false, command: false };
            let after_typing = composer_step(s, ComposerEvent::Text(typed_text), menu_open, index, aliases, selected).state;
            let after_backspace = composer_step(
                after_typing,
                ComposerEvent::Key { key: ComposerKey::Backspace, modifiers: plain },
                menu_open,
                index,
                aliases,
                selected,
            ).state;
            &&& after_backspace.text == s.text
            &&& after_backspace.cursor == s.cursor
            &&& after_backspace.anchor is None
        }),
{
    let t = typed_text@;
    assert(!has_line_break(t)) by {
        if t.contains('\n') || t.contains('\r') {
            let k = choose|k: int| 0 <= k < t.len() && (t[k] == '\n' || t[k] == '\r');
            assert(k == 0);
        }
    }
    assert(without_selection(s) == s);
    assert(t.take(1) =~= t);
    let u = with_insertion(s, t);
    crate::text_ops::insertion_is_undone_by_removal(s.text, s.cursor, t);
}

/// The composer after key `key` with modifiers `m`.
pub open spec fn after_key(
    s: EditView,
    key: ComposerKey,
    m: KeyModifiers,
    menu_open: bool,
    index: Map<Seq<char>, Seq<char>>,
    aliases: Seq<Seq<char>>,
    selected: int,
) -> EditView {
    composer_step(s, ComposerEvent::Key { key, modifiers: m }, menu_open, index, aliases, selected).state
}

/// The cursor keys move the cursor as their names say and leave the text
/// alone. Cmd+Right goes to the end of the cursor's line: the first line
/// break at or after the cursor, or the end of the text; Cmd+Left to its
/// start, just after the last line break before the cursor, or the start of
/// the text. Without Cmd, Alt or Ctrl, Right and Left move by one character
/// within the text. Home goes to the start of the text and End to its end.
pub proof fn cursor_keys_move_as_named(
    s: EditView,
    m: KeyModifiers,
    menu_open: bool,
    index: Map<Seq<char>, Seq<char>>,
    aliases: Seq<Seq<char>>,
    selected: int,
)
    requires
        valid_edit(s),
    ensures
        ({
            let right = after_key(s, ComposerKey::ArrowRight, m, menu_open, index, aliases, selected);
            let left = after_key(s, ComposerKey::ArrowLeft, m, menu_open, index, aliases, selected);
            let home = after_key(s, ComposerKey::Home, m, menu_open, index, aliases, selected);
            let end = after_key(s, ComposerKey::End, m, menu_open, index, aliases, selected);
            &&& right.text == s.text && left.text == s.text && home.text == s.text && end.text == s.text
            &&& m.mac_cmd ==> {
                &&& s.cursor <= right.cursor <= s.text.len()
                &&& forall|k: int| s.cursor <= k < right.cursor ==> s.text[k] != '\n'
                &&& right.cursor == s.text.len() || s.text[right.cursor] == '\n'
            }
            &&& m.mac_cmd ==> {
                &&& 0 <= left.cursor <= s.cursor
                &&& forall|k: int| left.cursor <= k < s.cursor ==> s.text[k] != '\n'
                &&& left.cursor == 0 || s.text[left.cursor - 1] == '\n'
            }
            &&& !m.mac_cmd && !m.alt && !m.ctrl ==> right.cursor == if s.cursor < s.text.len() {
                s.cursor + 1
            } else {
                s.cursor
            }
            &&& !m.mac_cmd && !m.alt && !m.ctrl ==> left.cursor == if s.cursor > 0 {
                s.cursor - 1
            } else {
                0
            }
            &&& home.cursor == 0
            &&& end.cursor == s.text.len()
        }),
{
    crate::text_ops::lemma_line_end_exact(s.text, s.cursor);
    crate::text_ops::lemma_line_start_exact(s.text, s.cursor);
}

/// Erasing without a selection: Backspace removes the character before the
/// cursor and Delete the one after it (nothing at the start, or the end, of
/// the text); Cmd+Backspace removes everything from the start of the
/// cursor's line up to the cursor. The cursor ends where the removed
/// characters were.
pub proof fn erasing_removes_what_the_key_names(
    s: EditView,
    m: KeyModifiers,
    menu_open: bool,
    index: Map<Seq<char>, Seq<char>>,
    aliases: Seq<Seq<char>>,
    selected: int,
)
    requires
        valid_edit(s),
        selection_of(s.anchor, s.cursor as usize) is None,
    ensures
        ({
            let back = after_key(s, ComposerKey::Backspace, m, menu_open, index, aliases, selected);
            let del = after_key(s, ComposerKey::Delete, m, menu_open, index, aliases, selected);
            &&& !m.mac_cmd && !m.alt && !m.ctrl && s.cursor > 0 ==> back.text == s.text.take(
                s.cursor - 1,
            ) + s.text.skip(s.cursor) && back.cursor == s.cursor - 1
            &&& !m.mac_cmd && !m.alt && !m.ctrl && s.cursor == 0 ==> back.text == s.text
                && back.cursor == 0
            &&& !m.alt && !m.ctrl && s.cursor < s.text.len() ==> del.text == s.text.take(s.cursor)
                + s.text.skip(s.cursor + 1) && del.cursor == s.cursor
            &&& !m.alt && !m.ctrl && s.cursor == s.text.len() ==> del.text == s.text
                && del.cursor == s.cursor
            &&& m.mac_cmd ==> exists|l: int|
                #![trigger s.text.take(l)]
                0 <= l <= s.cursor && (l == 0 || s.text[l - 1] == '\n') && (forall|k: int|
                    l <= k < s.cursor ==> s.text[k] != '\n') && back.text == s.text.take(l)
                    + s.text.skip(s.cursor) && back.cursor == l
        }),
{
    crate::text_ops::lemma_line_start_exact(s.text, s.cursor);
    let l = line_start_of(s.text, s.cursor);
    assert(s.text.take(s.cursor) + s.text.skip(s.cursor) =~= s.text);
    if m.mac_cmd && l == s.cursor {
        assert(s.text.take(l) + s.text.skip(s.cursor) =~= s.text);
    }
}

/// Alt (or Ctrl) with Left or Right moves by words: Left passes the white
/// space before the cursor, then the word before it, and stops at its
/// start (after white space, or at the start of the text); Right passes the
/// white space after the cursor, then the word after it, and stops at its
/// end (before white space, or at the end of the text).
pub proof fn word_moves_pass_one_word(
    s: EditView,
    m: KeyModifiers,
    menu_open: bool,
    index: Map<Seq<char>, Seq<char>>,
    aliases: Seq<Seq<char>>,
    selected: int,
)
    requires
        valid_edit(s),
        !m.mac_cmd,
        m.alt || m.ctrl,
    ensures
        ({
            let left = after_key(s, ComposerKey::ArrowLeft, m, menu_open, index, aliases, selected).cursor;
            let right = after_key(s, ComposerKey::ArrowRight, m, menu_open, index, aliases, selected).cursor;
            &&& exists|p: int|
                #![trigger s.text.subrange(left, p)]
                left <= p <= s.cursor && (forall|k: int| p <= k < s.cursor ==> is_white_space(
                    #[trigger] s.text[k],
                )) && (forall|k: int| left <= k < p ==> !is_white_space(#[trigger] s.text[k])) && (
                left == 0 || is_white_space(s.text[left - 1])) && (p == 0 || !is_white_space(
                    s.text[p - 1],
                ) || p == left)
            &&& exists|p: int|
                #![trigger s.text.subrange(p, right)]
                s.cursor <= p <= right && (forall|k: int| s.cursor <= k < p ==> is_white_space(
                    #[trigger] s.text[k],
                )) && (forall|k: int| p <= k < right ==> !is_white_space(#[trigger] s.text[k])) && (
                right == s.text.len() || is_white_space(s.text[right]))
        }),
{
    let t = s.text;
    let c = s.cursor;
    crate::text_ops::lemma_skip_back_exact(t, c, true);
    let p = crate::text_ops::skip_back(t, c, true);
    crate::text_ops::lemma_skip_back_exact(t, p, false);
    let l = crate::text_ops::skip_back(t, p, false);
    assert(after_key(s, ComposerKey::ArrowLeft, m, menu_open, index, aliases, selected).cursor == l);
    assert(t.subrange(l, p) == t.subrange(l, p));
    crate::text_ops::lemma_skip_forward_exact(t, c, true);
    let q = crate::text_ops::skip_forward(t, c, true);
    crate::text_ops::lemma_skip_forward_exact(t, q, false);
    let r = crate::text_ops::skip_forward(t, q, false);
    assert(after_key(s, ComposerKey::ArrowRight, m, menu_open, index, aliases, selected).cursor == r);
    assert(t.subrange(q, r) == t.subrange(q, r));
}

/// A pasted text keeps every character but carriage returns: each `\r\n`
/// and each lone `\r` becomes one `\n`, so no `\r` is left, and a text
/// without `\r` is kept as it is.
pub proof fn pasted_line_ends_are_normalized(t: Seq<char>)
    ensures
        !normalized_paste(t).contains('\r'),
        !t.contains('\r') ==> normalized_paste(t) == t,
    decreases t.len(),
{
    if t.len() > 0 {
        let rest = if t[0] == '\r' && t.len() > 1 && t[1] == '\n' {
            t.skip(2)
        } else {
            t.skip(1)
        };
        pasted_line_ends_are_normalized(rest);
        let head = if t[0] == '\r' {
            seq!['\n']
        } else {
            seq![t[0]]
        };
        let r = normalized_paste(t);
        assert(r =~= head + normalized_paste(rest));
        if r.contains('\r') {
            let k = choose|k: int| 0 <= k < r.len() && r[k] == '\r';
            if k > 0 {
                assert(normalized_paste(rest)[k - 1] == '\r');
            }
        }
        if !t.contains('\r') {
            assert(t[0] != '\r');
            assert(!rest.contains('\r')) by {
                if rest.contains('\r') {
                    let k = choose|k: int| 0 <= k < rest.len() && rest[k] == '\r';
                    assert(t[k + 1] == '\r');
                }
            }
            assert(t =~= seq![t[0]] + rest);
        }
    }
}

/// With nothing selected, typing and pasting put the text at the cursor and
/// move the cursor after it, when the input cap leaves room for all of it;
/// a paste that does not fit is handed back and changes nothing. Enter
/// without Cmd or Ctrl, with the suggestion menu closed, puts a line break
/// at the cursor below the cap; Cmd+Enter or Ctrl+Enter asks to send and
/// changes nothing.
pub proof fn typing_and_pasting_insert_at_the_cursor(
    s: EditView,
    t: String,
    m: KeyModifiers,
    index: Map<Seq<char>, Seq<char>>,
    aliases: Seq<Seq<char>>,
    selected: int,
)
    requires
        valid_edit(s),
        selection_of(s.anchor, s.cursor as usize) is None,
    ensures
        ({
            let c = s.cursor;
            let typed_step = composer_step(s, ComposerEvent::Text(t), false, index, aliases, selected);
            let paste_step = composer_step(s, ComposerEvent::Paste(t), false, index, aliases, selected);
            let p = normalized_paste(t@);
            let enter = composer_step(
                s,
                ComposerEvent::Key { key: ComposerKey::Enter, modifiers: m },
                false,
                index,
                aliases,
                selected,
            );
            &&& !has_line_break(t@) && s.text.len() + t@.len() <= MAX_INPUT_CHARS ==> {
                &&& typed_step.state.text == s.text.take(c) + t@ + s.text.skip(c)
                &&& typed_step.state.cursor == c + t@.len()
            }
            &&& s.text.len() + p.len() <= MAX_INPUT_CHARS ==> {
                &&& paste_step.state.text == s.text.take(c) + p + s.text.skip(c)
                &&& paste_step.state.cursor == c + p.len()
                &&& paste_step.overflow_paste is None
            }
            &&& s.text.len() + p.len() > MAX_INPUT_CHARS ==> {
                &&& paste_step.state == s
                &&& paste_step.overflow_paste == Some(p)
            }
            &&& !m.command && !m.ctrl && s.text.len() < MAX_INPUT_CHARS ==> {
                &&& enter.state.text == s.text.take(c) + seq!['\n'] + s.text.skip(c)
                &&& enter.state.cursor == c + 1
                &&& !enter.submit
            }
            &&& (m.command || m.ctrl) ==> enter.submit && enter.state == s
        }),
{
    assert(without_selection(s) == s);
    assert(t@.take(t@.len() as int) =~= t@);
}

} // verus!
