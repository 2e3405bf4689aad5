use vstd::prelude::*;
use vstd::utf8::*;
use vstd::string::*;

use crate::chars::{
    is_white_space, lemma_encode_prefix_le, lemma_encode_prefix_step, to_chars, utf8_width,
    white_space,
};

verus! {

/// `i` clamped to `[0, len]`.
pub open spec fn clamp_index(i: int, len: int) -> int {
    if i < len {
        i
    } else {
        len
    }
}

/// `s[0..i]` with `s[i..]` replaced: the first `a` characters, then `mid`,
/// then everything from character `b` on.
pub open spec fn splice_chars(s: Seq<char>, a: int, b: int, mid: Seq<char>) -> Seq<char> {
    s.take(a) + mid + s.skip(b)
}

/// Byte offset of character `char_idx` in the UTF-8 encoding of `s`
/// (the byte length of `s` when the index is past the end).
pub open spec fn byte_offset_of(s: Seq<char>, char_idx: int) -> int {
    encode_utf8(s.take(clamp_index(char_idx, s.len() as int))).len() as int
}

/// Converts a character index into a byte index of `text`.
pub fn char_to_byte_idx(text: &str, char_idx: usize) -> (r: usize)
    ensures
        r == byte_offset_of(text@, char_idx as int),
        text@.len() <= usize::MAX,
        char_idx < text@.len() ==> r < encode_utf8(text@).len(),
        char_idx >= text@.len() ==> r == encode_utf8(text@).len(),
{
    let count = text.unicode_len();
    if char_idx < count {
        let _width = utf8_width(text.get_char(char_idx));
    }
    proof {
        if char_idx < text@.len() {
            lemma_encode_prefix_step(text@, char_idx as int);
            lemma_encode_prefix_le(text@, char_idx + 1);
        } else {
            assert(text@.take(text@.len() as int) =~= text@);
        }
    }
    let total_bytes = text.as_bytes().len();
    let mut bytes: usize = 0;
    let mut n: usize = 0;
    for c in it: text.chars()
        invariant
            it.seq() == text@,
            n == it.index(),
            n <= text@.len(),
            n <= char_idx,
            bytes == encode_utf8(text@.take(n as int)).len(),
            total_bytes == encode_utf8(text@).len(),
            text@.len() <= usize::MAX,
            char_idx < text@.len() ==> encode_utf8(text@.take(char_idx as int)).len() < encode_utf8(
                text@,
            ).len(),
    {
        if n == char_idx {
            return bytes;
        }
        proof {
            lemma_encode_prefix_step(text@, n as int);
            lemma_encode_prefix_le(text@, n + 1);
        }
        bytes = bytes + utf8_width(c);
        n = n + 1;
    }
    proof {
        assert(text@.take(n as int) =~= text@);
    }
    bytes
}

/// The characters of `s` from `a` up to `b`.
fn substring(s: &str, a: usize, b: usize) -> (r: String)
    requires
        a <= b <= s@.len(),
    ensures
        r@ == s@.subrange(a as int, b as int),
{
    String::from_str(s.substring_char(a, b))
}

/// `text` with the characters `[a, b)` replaced by `mid`.
pub fn splice(text: &str, a: usize, b: usize, mid: &str) -> (r: String)
    requires
        a <= b <= text@.len(),
    ensures
        r@ == splice_chars(text@, a as int, b as int, mid@),
{
    let len = text.unicode_len();
    let mut r = substring(text, 0, a);
    r.append(mid);
    r.append(text.substring_char(b, len));
    proof {
        assert(text@.subrange(0, a as int) =~= text@.take(a as int));
        assert(text@.subrange(b as int, len as int) =~= text@.skip(b as int));
    }
    r
}


/// Inserts `to_insert` at character position `*cursor` of `text` (at the end
/// when the cursor is past it) and moves the cursor past the inserted text.
pub fn insert_text_at_cursor(text: &mut String, cursor: &mut usize, to_insert: &str)
    requires
        *old(cursor) + to_insert@.len() <= usize::MAX,
    ensures
        final(text)@ == splice_chars(
            old(text)@,
            clamp_index(*old(cursor) as int, old(text)@.len() as int),
            clamp_index(*old(cursor) as int, old(text)@.len() as int),
            to_insert@,
        ),
        *final(cursor) == *old(cursor) + to_insert@.len(),
{
    let len = text.as_str().unicode_len();
    let at = if *cursor < len {
        *cursor
    } else {
        len
    };
    let updated = splice(text.as_str(), at, at, to_insert);
    *text = updated;
    *cursor = *cursor + to_insert.unicode_len();
}

/// Inserts an emoji at the cursor, exactly as `insert_text_at_cursor` does.
pub fn insert_emoji_at_cursor(text: &mut String, cursor: &mut usize, emoji: &str)
    requires
        *old(cursor) + emoji@.len() <= usize::MAX,
    ensures
        final(text)@ == splice_chars(
            old(text)@,
            clamp_index(*old(cursor) as int, old(text)@.len() as int),
            clamp_index(*old(cursor) as int, old(text)@.len() as int),
            emoji@,
        ),
        *final(cursor) == *old(cursor) + emoji@.len(),
{
    insert_text_at_cursor(text, cursor, emoji);
}

/// Replaces the characters `[start, end)` of `text` by `replacement` (both
/// bounds clamped to the text) and puts the cursor after the replacement.
pub fn replace_char_range(
    text: &mut String,
    cursor: &mut usize,
    start: usize,
    end: usize,
    replacement: &str,
)
    requires
        clamp_index(start as int, old(text)@.len() as int) <= clamp_index(
            end as int,
            old(text)@.len() as int,
        ),
        start + replacement@.len() <= usize::MAX,
    ensures
        final(text)@ == splice_chars(
            old(text)@,
            clamp_index(start as int, old(text)@.len() as int),
            clamp_index(end as int, old(text)@.len() as int),
            replacement@,
        ),
        *final(cursor) == start + replacement@.len(),
{
    let len = text.as_str().unicode_len();
    let a = if start < len {
        start
    } else {
        len
    };
    let b = if end < len {
        end
    } else {
        len
    };
    let updated = splice(text.as_str(), a, b, replacement);
    *text = updated;
    *cursor = start + replacement.unicode_len();
}

/// The characters `[start, end)` of `text` (clamped; empty when `end <= start`).
pub fn char_range_string(text: &str, start: usize, end: usize) -> (r: String)
    ensures
        r@ == text@.subrange(
            clamp_index(start as int, text@.len() as int),
            if end <= start {
                clamp_index(start as int, text@.len() as int)
            } else {
                clamp_index(end as int, text@.len() as int)
            },
        ),
{
    let len = text.unicode_len();
    let a = if start < len {
        start
    } else {
        len
    };
    let b = if end <= start {
        a
    } else if end < len {
        end
    } else {
        len
    };
    substring(text, a, b)
}

/// The first `max_chars` characters of `text` (all of it when shorter).
pub fn char_prefix(text: &str, max_chars: usize) -> (r: &str)
    ensures
        r@ == text@.take(clamp_index(max_chars as int, text@.len() as int)),
{
    let len = text.unicode_len();
    let n = if max_chars < len {
        max_chars
    } else {
        len
    };
    proof {
        assert(text@.subrange(0, n as int) =~= text@.take(n as int));
    }
    text.substring_char(0, n)
}

/// Going back from `i`, the first position before which the characters are
/// not all white space (when `ws`) or not all non-white space (otherwise).
pub open spec fn skip_back(s: Seq<char>, i: int, ws: bool) -> int
    decreases i,
{
    if 0 < i <= s.len() && is_white_space(s[i - 1]) == ws {
        skip_back(s, i - 1, ws)
    } else {
        i
    }
}

/// Going forward from `i`, the first position at which the character is not
/// white space (when `ws`) or not non-white space (otherwise).
pub open spec fn skip_forward(s: Seq<char>, i: int, ws: bool) -> int
    decreases s.len() - i,
{
    if 0 <= i < s.len() && is_white_space(s[i]) == ws {
        skip_forward(s, i + 1, ws)
    } else {
        i
    }
}

/// Start of the word before position `i`: white space first, then the word.
pub open spec fn word_start_before(s: Seq<char>, i: int) -> int {
    skip_back(s, skip_back(s, clamp_index(i, s.len() as int), true), false)
}

/// End of the word after position `i`: white space first, then the word.
pub open spec fn word_end_after(s: Seq<char>, i: int) -> int {
    skip_forward(s, skip_forward(s, clamp_index(i, s.len() as int), true), false)
}

fn skip_back_exec(chars: &Vec<char>, i: usize, ws: bool) -> (r: usize)
    requires
        i <= chars@.len(),
    ensures
        r == skip_back(chars@, i as int, ws),
        r <= i,
{
    let mut j = i;
    while j > 0 && white_space(chars[j - 1]) == ws
        invariant
            j <= i <= chars@.len(),
            skip_back(chars@, j as int, ws) == skip_back(chars@, i as int, ws),
        decreases j,
    {
        j = j - 1;
    }
    j
}

fn skip_forward_exec(chars: &Vec<char>, i: usize, ws: bool) -> (r: usize)
    requires
        i <= chars@.len(),
    ensures
        r == skip_forward(chars@, i as int, ws),
        i <= r <= chars@.len(),
{
    let mut j = i;
    while j < chars.len() && white_space(chars[j]) == ws
        invariant
            i <= j <= chars@.len(),
            skip_forward(chars@, j as int, ws) == skip_forward(chars@, i as int, ws),
        decreases chars@.len() - j,
    {
        j = j + 1;
    }
    j
}

/// Start of the word before the cursor: skips white space, then the word.
pub fn prev_word_start(text: &str, cursor: usize) -> (r: usize)
    ensures
        r == word_start_before(text@, cursor as int),
{
    let chars = to_chars(text);
    let i = if cursor < chars.len() {
        cursor
    } else {
        chars.len()
    };
    let j = skip_back_exec(&chars, i, true);
    skip_back_exec(&chars, j, false)
}

/// End of the word after the cursor: skips white space, then the word.
pub fn next_word_end(text: &str, cursor: usize) -> (r: usize)
    ensures
        r == word_end_after(text@, cursor as int),
{
    let chars = to_chars(text);
    let i = if cursor < chars.len() {
        cursor
    } else {
        chars.len()
    };
    let j = skip_forward_exec(&chars, i, true);
    skip_forward_exec(&chars, j, false)
}

/// Going back from `i`, the position just after the previous `\n`.
pub open spec fn back_to_newline(s: Seq<char>, i: int) -> int
    decreases i,
{
    if 0 < i <= s.len() && s[i - 1] != '\n' {
        back_to_newline(s, i - 1)
    } else {
        i
    }
}

/// Going forward from `i`, the position of the next `\n` (or the end).
pub open spec fn forward_to_newline(s: Seq<char>, i: int) -> int
    decreases s.len() - i,
{
    if 0 <= i < s.len() && s[i] != '\n' {
        forward_to_newline(s, i + 1)
    } else {
        i
    }
}

/// Start of the line holding position `i`.
pub open spec fn line_start_of(s: Seq<char>, i: int) -> int {
    back_to_newline(s, clamp_index(i, s.len() as int))
}

/// End of the line holding position `i`.
pub open spec fn line_end_of(s: Seq<char>, i: int) -> int {
    forward_to_newline(s, clamp_index(i, s.len() as int))
}

/// Going back never passes the start; going forward never passes the end.
pub proof fn lemma_skip_bounds(s: Seq<char>, i: int, ws: bool)
    requires
        0 <= i <= s.len(),
    ensures
        0 <= skip_back(s, i, ws) <= i,
        i <= skip_forward(s, i, ws) <= s.len(),
    decreases s.len() + i,
{
    if 0 < i && is_white_space(s[i - 1]) == ws {
        lemma_skip_bounds(s, i - 1, ws);
    }
    if i < s.len() && is_white_space(s[i]) == ws {
        lemma_skip_forward_bounds(s, i + 1, ws);
    }
}

proof fn lemma_skip_forward_bounds(s: Seq<char>, i: int, ws: bool)
    requires
        0 <= i <= s.len(),
    ensures
        i <= skip_forward(s, i, ws) <= s.len(),
    decreases s.len() - i,
{
    if i < s.len() && is_white_space(s[i]) == ws {
        lemma_skip_forward_bounds(s, i + 1, ws);
    }
}

/// The start of the previous word lies between 0 and the cursor.
pub proof fn lemma_word_start_before(s: Seq<char>, i: int)
    requires
        0 <= i <= s.len(),
    ensures
        0 <= word_start_before(s, i) <= i,
{
    lemma_skip_bounds(s, i, true);
    lemma_skip_bounds(s, skip_back(s, i, true), false);
}

/// The end of the next word lies between the cursor and the end.
pub proof fn lemma_word_end_after(s: Seq<char>, i: int)
    requires
        0 <= i <= s.len(),
    ensures
        i <= word_end_after(s, i) <= s.len(),
{
    lemma_skip_forward_bounds(s, i, true);
    lemma_skip_forward_bounds(s, skip_forward(s, i, true), false);
}

proof fn lemma_back_to_newline(s: Seq<char>, i: int)
    requires
        0 <= i <= s.len(),
    ensures
        0 <= back_to_newline(s, i) <= i,
    decreases i,
{
    if 0 < i && s[i - 1] != '\n' {
        lemma_back_to_newline(s, i - 1);
    }
}

proof fn lemma_forward_to_newline(s: Seq<char>, i: int)
    requires
        0 <= i <= s.len(),
    ensures
        i <= forward_to_newline(s, i) <= s.len(),
    decreases s.len() - i,
{
    if i < s.len() && s[i] != '\n' {
        lemma_forward_to_newline(s, i + 1);
    }
}

/// The start of the cursor's line lies between 0 and the cursor.
pub proof fn lemma_line_start_of(s: Seq<char>, i: int)
    requires
        0 <= i <= s.len(),
    ensures
        0 <= line_start_of(s, i) <= i,
{
    lemma_back_to_newline(s, i);
}

/// The end of the cursor's line lies between the cursor and the end.
pub proof fn lemma_line_end_of(s: Seq<char>, i: int)
    requires
        0 <= i <= s.len(),
    ensures
        i <= line_end_of(s, i) <= s.len(),
{
    lemma_forward_to_newline(s, i);
}

proof fn lemma_forward_to_newline_exact(s: Seq<char>, i: int)
    requires
        0 <= i <= s.len(),
    ensures
        forward_to_newline(s, i) == s.len() || s[forward_to_newline(s, i)] == '\n',
        forall|k: int| i <= k < forward_to_newline(s, i) ==> s[k] != '\n',
    decreases s.len() - i,
{
    if i < s.len() && s[i] != '\n' {
        lemma_forward_to_newline_exact(s, i + 1);
    }
}

proof fn lemma_back_to_newline_exact(s: Seq<char>, i: int)
    requires
        0 <= i <= s.len(),
    ensures
        back_to_newline(s, i) == 0 || s[back_to_newline(s, i) - 1] == '\n',
        forall|k: int| back_to_newline(s, i) <= k < i ==> s[k] != '\n',
    decreases i,
{
    if 0 < i && s[i - 1] != '\n' {
        lemma_back_to_newline_exact(s, i - 1);
    }
}

/// `line_end_of` is the end of the line: the first line break at or after
/// the position (the end of the text when there is none).
pub proof fn lemma_line_end_exact(s: Seq<char>, i: int)
    requires
        0 <= i <= s.len(),
    ensures
        is_line_end(s, i, line_end_of(s, i)),
{
    lemma_forward_to_newline(s, i);
    lemma_forward_to_newline_exact(s, i);
}

/// `line_start_of` is the start of the line: just after the last line
/// break before the position (the start of the text when there is none).
pub proof fn lemma_line_start_exact(s: Seq<char>, i: int)
    requires
        0 <= i <= s.len(),
    ensures
        is_line_start(s, i, line_start_of(s, i)),
{
    lemma_back_to_newline(s, i);
    lemma_back_to_newline_exact(s, i);
}

/// Going back over a run: every character passed is of the kind skipped,
/// and the one before the stop is not.
pub proof fn lemma_skip_back_exact(s: Seq<char>, i: int, ws: bool)
    requires
        0 <= i <= s.len(),
    ensures
        0 <= skip_back(s, i, ws) <= i,
        forall|k: int| skip_back(s, i, ws) <= k < i ==> is_white_space(#[trigger] s[k]) == ws,
        skip_back(s, i, ws) == 0 || is_white_space(s[skip_back(s, i, ws) - 1]) != ws,
    decreases i,
{
    if 0 < i && is_white_space(s[i - 1]) == ws {
        lemma_skip_back_exact(s, i - 1, ws);
    }
}

/// Going forward over a run: every character passed is of the kind
/// skipped, and the one at the stop is not.
pub proof fn lemma_skip_forward_exact(s: Seq<char>, i: int, ws: bool)
    requires
        0 <= i <= s.len(),
    ensures
        i <= skip_forward(s, i, ws) <= s.len(),
        forall|k: int| i <= k < skip_forward(s, i, ws) ==> is_white_space(#[trigger] s[k]) == ws,
        skip_forward(s, i, ws) == s.len() || is_white_space(s[skip_forward(s, i, ws)]) != ws,
    decreases s.len() - i,
{
    if i < s.len() && is_white_space(s[i]) == ws {
        lemma_skip_forward_exact(s, i + 1, ws);
    }
}

/// `r` is the start of the line that holds position `i` of `s`.
pub open spec fn is_line_start(s: Seq<char>, i: int, r: int) -> bool {
    &&& 0 <= r <= clamp_index(i, s.len() as int)
    &&& r == 0 || s[r - 1] == '\n'
    &&& forall|k: int| r <= k < clamp_index(i, s.len() as int) ==> s[k] != '\n'
}

/// `r` is the end of the line that holds position `i` of `s`.
pub open spec fn is_line_end(s: Seq<char>, i: int, r: int) -> bool {
    &&& clamp_index(i, s.len() as int) <= r <= s.len()
    &&& r == s.len() || s[r] == '\n'
    &&& forall|k: int| clamp_index(i, s.len() as int) <= k < r ==> s[k] != '\n'
}

/// Start of the line holding the cursor (just after the previous `\n`).
pub fn line_start(text: &str, cursor: usize) -> (r: usize)
    ensures
        r == line_start_of(text@, cursor as int),
        is_line_start(text@, cursor as int, r as int),
{
    let chars = to_chars(text);
    let top = if cursor < chars.len() {
        cursor
    } else {
        chars.len()
    };
    let mut i = top;
    while i > 0 && chars[i - 1] != '\n'
        invariant
            i <= top <= chars@.len(),
            top == clamp_index(cursor as int, chars@.len() as int),
            back_to_newline(chars@, i as int) == back_to_newline(chars@, top as int),
            forall|k: int| i <= k < top ==> chars@[k] != '\n',
        decreases i,
    {
        i = i - 1;
    }
    i
}

/// End of the line holding the cursor (just before the next `\n`).
pub fn line_end(text: &str, cursor: usize) -> (r: usize)
    ensures
        r == line_end_of(text@, cursor as int),
        is_line_end(text@, cursor as int, r as int),
{
    let chars = to_chars(text);
    let total = chars.len();
    let bottom = if cursor < total {
        cursor
    } else {
        total
    };
    let mut i = bottom;
    while i < total && chars[i] != '\n'
        invariant
            bottom <= i <= total,
            total == chars@.len(),
            bottom == clamp_index(cursor as int, chars@.len() as int),
            forward_to_newline(chars@, i as int) == forward_to_newline(chars@, bottom as int),
            forall|k: int| bottom <= k < i ==> chars@[k] != '\n',
        decreases total - i,
    {
        i = i + 1;
    }
    i
}


/// Inserting `t` at position `c` lengthens the text by `t`, puts `t` at
/// `[c, c + |t|)` and keeps what was before and after it; removing that range
/// again gives back the text as it was.
pub proof fn insertion_is_undone_by_removal(s: Seq<char>, c: int, t: Seq<char>)
    requires
        0 <= c <= s.len(),
    ensures
        splice_chars(s, c, c, t).len() == s.len() + t.len(),
        splice_chars(s, c, c, t).subrange(c, c + t.len()) == t,
        splice_chars(s, c, c, t).take(c) == s.take(c),
        splice_chars(s, c, c, t).skip(c + t.len()) == s.skip(c),
        splice_chars(splice_chars(s, c, c, t), c, c + t.len(), Seq::empty()) == s,
{
    let u = splice_chars(s, c, c, t);
    assert(u.subrange(c, c + t.len()) =~= t);
    assert(u.take(c) =~= s.take(c));
    assert(u.skip(c + t.len()) =~= s.skip(c));
    assert(splice_chars(u, c, c + t.len(), Seq::empty()) =~= s);
}

/// Replacing `[a, b)` by `mid` keeps the text before `a` and after `b`, and
/// the text then holds `mid` at `[a, a + |mid|)`.
pub proof fn replacement_keeps_the_rest(s: Seq<char>, a: int, b: int, mid: Seq<char>)
    requires
        0 <= a <= b <= s.len(),
    ensures
        splice_chars(s, a, b, mid).len() == s.len() - (b - a) + mid.len(),
        splice_chars(s, a, b, mid).take(a) == s.take(a),
        splice_chars(s, a, b, mid).subrange(a, a + mid.len()) == mid,
        splice_chars(s, a, b, mid).skip(a + mid.len()) == s.skip(b),
{
    let u = splice_chars(s, a, b, mid);
    assert(u.take(a) =~= s.take(a));
    assert(u.subrange(a, a + mid.len()) =~= mid);
    assert(u.skip(a + mid.len()) =~= s.skip(b));
}

/// The UTF-8 encoding of a non-empty sequence has at least one byte.
proof fn lemma_encode_nonempty(s: Seq<char>)
    requires
        s.len() > 0,
    ensures
        encode_utf8(s).len() >= 1,
{
    assert(encode_scalar(s[0] as u32).len() >= 1);
}

/// Character positions map to byte positions in strictly increasing order,
/// and the position just past the last character is the text's byte length.
pub proof fn byte_offsets_increase(s: Seq<char>, i: int, j: int)
    requires
        0 <= i < j <= s.len(),
    ensures
        byte_offset_of(s, i) < byte_offset_of(s, j),
        byte_offset_of(s, s.len() as int) == encode_utf8(s).len(),
{
    assert(s.take(j) =~= s.take(i) + s.subrange(i, j));
    crate::chars::lemma_encode_utf8_append(s.take(i), s.subrange(i, j));
    lemma_encode_nonempty(s.subrange(i, j));
    assert(s.take(s.len() as int) =~= s);
}

/// The start of the previous word is at the start of the text or just after
/// white space, and nothing but one word and the white space skipped before
/// it lies between it and the cursor.
pub proof fn word_start_is_a_boundary(s: Seq<char>, i: int)
    requires
        0 <= i <= s.len(),
    ensures
        word_start_before(s, i) == 0 || is_white_space(s[word_start_before(s, i) - 1]),
        forall|k: int|
            word_start_before(s, i) <= k < skip_back(s, i, true) ==> !is_white_space(
                #[trigger] s[k],
            ),
        forall|k: int| skip_back(s, i, true) <= k < i ==> is_white_space(#[trigger] s[k]),
{
    lemma_skip_back_shape(s, i, true);
    lemma_skip_bounds(s, i, true);
    lemma_skip_back_shape(s, skip_back(s, i, true), false);
}

/// The end of the next word is at the end of the text or just before white
/// space, and nothing but the white space skipped after the cursor and one
/// word lies between the cursor and it.
pub proof fn word_end_is_a_boundary(s: Seq<char>, i: int)
    requires
        0 <= i <= s.len(),
    ensures
        word_end_after(s, i) == s.len() || is_white_space(s[word_end_after(s, i)]),
        forall|k: int| i <= k < skip_forward(s, i, true) ==> is_white_space(#[trigger] s[k]),
        forall|k: int|
            skip_forward(s, i, true) <= k < word_end_after(s, i) ==> !is_white_space(
                #[trigger] s[k],
            ),
{
    lemma_skip_forward_shape(s, i, true);
    lemma_skip_forward_bounds(s, i, true);
    lemma_skip_forward_shape(s, skip_forward(s, i, true), false);
}

proof fn lemma_skip_back_shape(s: Seq<char>, i: int, ws: bool)
    requires
        0 <= i <= s.len(),
    ensures
        skip_back(s, i, ws) == 0 || is_white_space(s[skip_back(s, i, ws) - 1]) != ws,
        forall|k: int| skip_back(s, i, ws) <= k < i ==> is_white_space(#[trigger] s[k]) == ws,
    decreases i,
{
    if 0 < i && is_white_space(s[i - 1]) == ws {
        lemma_skip_back_shape(s, i - 1, ws);
    }
}

proof fn lemma_skip_forward_shape(s: Seq<char>, i: int, ws: bool)
    requires
        0 <= i <= s.len(),
    ensures
        skip_forward(s, i, ws) == s.len() || is_white_space(s[skip_forward(s, i, ws)]) != ws,
        forall|k: int| i <= k < skip_forward(s, i, ws) ==> is_white_space(#[trigger] s[k]) == ws,
    decreases s.len() - i,
{
    if i < s.len() && is_white_space(s[i]) == ws {
        lemma_skip_forward_shape(s, i + 1, ws);
    }
}

/// The line holding a position runs from its start to its end, around the
/// position and without a `\n`; the start of the line holding the start is
/// the same start, and likewise for the end.
pub proof fn line_bounds_enclose_the_position(s: Seq<char>, i: int)
    requires
        0 <= i <= s.len(),
    ensures
        0 <= line_start_of(s, i) <= i <= line_end_of(s, i) <= s.len(),
        forall|k: int| line_start_of(s, i) <= k < line_end_of(s, i) ==> s[k] != '\n',
        line_start_of(s, line_start_of(s, i)) == line_start_of(s, i),
        line_end_of(s, line_end_of(s, i)) == line_end_of(s, i),
{
    lemma_line_start_of(s, i);
    lemma_line_end_of(s, i);
    lemma_back_shape(s, i);
    lemma_forward_shape(s, i);
}

proof fn lemma_back_shape(s: Seq<char>, i: int)
    requires
        0 <= i <= s.len(),
    ensures
        back_to_newline(s, i) == 0 || s[back_to_newline(s, i) - 1] == '\n',
        forall|k: int| back_to_newline(s, i) <= k < i ==> s[k] != '\n',
    decreases i,
{
    if 0 < i && s[i - 1] != '\n' {
        lemma_back_shape(s, i - 1);
    }
}

proof fn lemma_forward_shape(s: Seq<char>, i: int)
    requires
        0 <= i <= s.len(),
    ensures
        forward_to_newline(s, i) == s.len() || s[forward_to_newline(s, i)] == '\n',
        forall|k: int| i <= k < forward_to_newline(s, i) ==> s[k] != '\n',
    decreases s.len() - i,
{
    if i < s.len() && s[i] != '\n' {
        lemma_forward_shape(s, i + 1);
    }
}

} // verus!
