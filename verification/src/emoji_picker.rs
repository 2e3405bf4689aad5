use vstd::prelude::*;
use vstd::utf8::*;

use crate::chars::{
    char_from_code, lemma_lex_total, lex_le, lex_le_exec, push_char, string_of, texts_view,
    to_chars,
};
use crate::shortcode::{
    emoji_shortcode_trigger, pairs_view, shortcode_trigger, suggestions_for, suggestions_for_query,
};
use crate::text_map::TextMap;

verus! {

/// Value of a hexadecimal digit, or -1 for any other character.
pub open spec fn hex_digit_value(c: char) -> int {
    if '0' <= c && c <= '9' {
        (c as u32 - '0' as u32) as int
    } else if 'a' <= c && c <= 'f' {
        (c as u32 - 'a' as u32 + 10) as int
    } else if 'A' <= c && c <= 'F' {
        (c as u32 - 'A' as u32 + 10) as int
    } else {
        -1
    }
}

/// Whether every character of `s` is a hexadecimal digit.
pub open spec fn all_hex_digits(s: Seq<char>) -> bool {
    forall|k: int| 0 <= k < s.len() ==> hex_digit_value(#[trigger] s[k]) >= 0
}

/// The number that the hexadecimal digits `s` denote.
pub open spec fn hex_number(s: Seq<char>) -> int
    decreases s.len(),
{
    if s.len() == 0 {
        0
    } else {
        hex_number(s.drop_last()) * 16 + hex_digit_value(s.last())
    }
}

/// What `u32::from_str_radix(s, 16)` gives: an optional `+`, then at least
/// one hexadecimal digit, denoting a value that fits in a `u32`.
pub open spec fn parse_hex_u32(s: Seq<char>) -> Option<u32> {
    let digits = if s.len() > 0 && s[0] == '+' {
        s.drop_first()
    } else {
        s
    };
    if digits.len() == 0 || !all_hex_digits(digits) || hex_number(digits) > u32::MAX {
        None
    } else {
        Some(hex_number(digits) as u32)
    }
}

proof fn lemma_hex_number_prefix(s: Seq<char>, i: int)
    requires
        0 <= i <= s.len(),
        all_hex_digits(s),
    ensures
        0 <= hex_number(s.take(i)) <= hex_number(s),
    decreases s.len() - i,
{
    if i < s.len() {
        lemma_hex_number_prefix(s, i + 1);
        assert(s.take(i + 1).drop_last() =~= s.take(i));
        assert(hex_digit_value(s[i]) >= 0);
    } else {
        assert(s.take(i) =~= s);
    }
    lemma_hex_number_nonneg(s.take(i));
}

proof fn lemma_hex_number_nonneg(s: Seq<char>)
    requires
        all_hex_digits(s),
    ensures
        hex_number(s) >= 0,
    decreases s.len(),
{
    if s.len() > 0 {
        assert(all_hex_digits(s.drop_last())) by {
            assert forall|k: int| 0 <= k < s.drop_last().len() implies hex_digit_value(
                #[trigger] s.drop_last()[k],
            ) >= 0 by {
                assert(s.drop_last()[k] == s[k]);
            }
        }
        lemma_hex_number_nonneg(s.drop_last());
        assert(hex_digit_value(s[s.len() - 1]) >= 0);
    }
}

fn hex_digit(c: char) -> (r: Option<u32>)
    ensures
        match r {
            Some(d) => hex_digit_value(c) == d as int && d < 16,
            None => hex_digit_value(c) < 0,
        },
{
    if '0' <= c && c <= '9' {
        Some(c as u32 - '0' as u32)
    } else if 'a' <= c && c <= 'f' {
        Some(c as u32 - 'a' as u32 + 10)
    } else if 'A' <= c && c <= 'F' {
        Some(c as u32 - 'A' as u32 + 10)
    } else {
        None
    }
}

/// Parses `s[a..b]` as `u32::from_str_radix(.., 16)` does.
fn parse_hex(s: &Vec<char>, a: usize, b: usize) -> (r: Option<u32>)
    requires
        a <= b <= s@.len(),
    ensures
        r == parse_hex_u32(s@.subrange(a as int, b as int)),
{
    let ghost part = s@.subrange(a as int, b as int);
    let mut i = a;
    if i < b && s[i] == '+' {
        i = i + 1;
    }
    let ghost digits = s@.subrange(i as int, b as int);
    proof {
        if part.len() > 0 && part[0] == '+' {
            assert(digits =~= part.drop_first());
        } else {
            assert(digits =~= part);
        }
    }
    if i == b {
        return None;
    }
    let start = i;
    let mut value: u64 = 0;
    while i < b
        invariant
            a <= start <= i <= b <= s@.len(),
            start < b,
            part == s@.subrange(a as int, b as int),
            digits == s@.subrange(start as int, b as int),
            digits == (if part.len() > 0 && part[0] == '+' {
                part.drop_first()
            } else {
                part
            }),
            value == hex_number(digits.take(i - start)),
            all_hex_digits(digits.take(i - start)),
            value <= u32::MAX,
        decreases b - i,
    {
        let d = match hex_digit(s[i]) {
            Some(d) => d,
            None => {
                proof {
                    assert(hex_digit_value(digits[i - start]) < 0);
                    assert(!all_hex_digits(digits));
                }
                return None;
            },
        };
        proof {
            assert(digits.take(i - start + 1).drop_last() =~= digits.take(i - start));
            assert(digits.take(i - start + 1).last() == s@[i as int]);
            assert(all_hex_digits(digits.take(i - start + 1))) by {
                assert forall|k: int| 0 <= k < i - start + 1 implies hex_digit_value(
                    #[trigger] digits.take(i - start + 1)[k],
                ) >= 0 by {
                    if k < i - start {
                        assert(digits.take(i - start + 1)[k] == digits.take(i - start)[k]);
                    }
                }
            }
        }
        value = value * 16 + d as u64;
        i = i + 1;
        if value > 0xffff_ffff {
            proof {
                if all_hex_digits(digits) {
                    lemma_hex_number_prefix(digits, i - start);
                }
            }
            return None;
        }
    }
    proof {
        assert(digits.take(i - start) =~= digits);
    }
    Some(value as u32)
}

/// `s` cut at every occurrence of `sep` (as `str::split` does).
pub open spec fn split_parts(s: Seq<char>, sep: char) -> Seq<Seq<char>>
    decreases s.len(),
{
    if s.len() == 0 {
        seq![Seq::empty()]
    } else {
        let parts = split_parts(s.drop_last(), sep);
        if s.last() == sep {
            parts.push(Seq::empty())
        } else {
            parts.update(parts.len() - 1, parts.last().push(s.last()))
        }
    }
}

proof fn lemma_split_parts_nonempty(s: Seq<char>, sep: char)
    ensures
        split_parts(s, sep).len() >= 1,
    decreases s.len(),
{
    if s.len() > 0 {
        lemma_split_parts_nonempty(s.drop_last(), sep);
    }
}

/// Once a prefix of the parts fails, the whole fails.
proof fn lemma_code_points_prefix_none(all: Seq<Seq<char>>, pre: Seq<Seq<char>>)
    requires
        pre.len() <= all.len(),
        all.take(pre.len() as int) == pre,
        code_points_text(pre) is None,
    ensures
        code_points_text(all) is None,
    decreases all.len(),
{
    if all.len() > pre.len() {
        assert(all.drop_last().take(pre.len() as int) =~= all.take(pre.len() as int));
        lemma_code_points_prefix_none(all.drop_last(), pre);
    } else {
        assert(all =~= all.take(pre.len() as int));
    }
}

/// The finished parts of a prefix stay parts of every longer prefix.
proof fn lemma_split_parts_prefix(s: Seq<char>, sep: char, i: int, j: int)
    requires
        0 <= i <= j <= s.len(),
    ensures
        split_parts(s.take(i), sep).len() <= split_parts(s.take(j), sep).len(),
        split_parts(s.take(j), sep).take(split_parts(s.take(i), sep).len() - 1)
            == split_parts(s.take(i), sep).drop_last(),
    decreases j - i,
{
    lemma_split_parts_nonempty(s.take(i), sep);
    if i < j {
        lemma_split_parts_prefix(s, sep, i, j - 1);
        lemma_split_parts_nonempty(s.take(j - 1), sep);
        let pj = split_parts(s.take(j - 1), sep);
        assert(s.take(j).drop_last() =~= s.take(j - 1));
        let n = split_parts(s.take(i), sep).len() - 1;
        assert(split_parts(s.take(j), sep).take(n) =~= pj.take(n));
    } else {
        assert(split_parts(s.take(j), sep).take(split_parts(s.take(i), sep).len() - 1)
            =~= split_parts(s.take(i), sep).drop_last());
    }
}

/// The characters whose code points the hexadecimal `parts` denote, if
/// every part is a valid code point.
pub open spec fn code_points_text(parts: Seq<Seq<char>>) -> Option<Seq<char>>
    decreases parts.len(),
{
    if parts.len() == 0 {
        Some(Seq::empty())
    } else {
        match code_points_text(parts.drop_last()) {
            None => None,
            Some(text) => match parse_hex_u32(parts.last()) {
                Some(code) => if is_scalar(code) {
                    Some(text.push(code as char))
                } else {
                    None
                },
                None => None,
            },
        }
    }
}

/// The emoji that a GitHub emoji key names: hexadecimal code points joined
/// by `-` (for instance `1f468-200d-1f4bb`).
pub open spec fn github_key_emoji(key: Seq<char>) -> Option<Seq<char>> {
    code_points_text(split_parts(key, '-'))
}

/// A key fails when the parts finished at a separator already fail.
proof fn lemma_key_fails(key: Seq<char>, i: int, finished: Seq<Seq<char>>)
    requires
        0 <= i < key.len(),
        key[i] == '-',
        split_parts(key.take(i + 1), '-').drop_last() == finished,
        code_points_text(finished) is None,
    ensures
        github_key_emoji(key) is None,
{
    lemma_split_parts_prefix(key, '-', i + 1, key.len() as int);
    assert(key.take(key.len() as int) =~= key);
    lemma_code_points_prefix_none(split_parts(key, '-'), finished);
}

/// Converts a GitHub emoji key into the emoji it names.
pub fn github_key_to_emoji(key: &str) -> (r: Option<String>)
    ensures
        match r {
            Some(e) => github_key_emoji(key@) == Some(e@),
            None => github_key_emoji(key@) is None,
        },
{
    let chars = to_chars(key);
    let mut out = String::new();
    let mut part_start: usize = 0;
    let mut i: usize = 0;
    let ghost mut done: Seq<Seq<char>> = Seq::empty();
    proof {
        assert(chars@.take(0) =~= Seq::<char>::empty());
        assert(done.push(chars@.subrange(0, 0)) =~= seq![Seq::<char>::empty()]);
    }
    while i < chars.len()
        invariant
            part_start <= i <= chars@.len(),
            chars@ == key@,
            split_parts(chars@.take(i as int), '-') == done.push(
                chars@.subrange(part_start as int, i as int),
            ),
            code_points_text(done) == Some(out@),
        decreases chars@.len() - i,
    {
        let ghost cur = chars@.subrange(part_start as int, i as int);
        proof {
            assert(chars@.take(i + 1).drop_last() =~= chars@.take(i as int));
            assert(chars@.take(i + 1).last() == chars@[i as int]);
        }
        if chars[i] == '-' {
            proof {
                assert(done.push(cur).drop_last() =~= done);
                assert(split_parts(chars@.take(i + 1), '-') == done.push(cur).push(Seq::empty()));
                assert(done.push(cur).push(Seq::<char>::empty()).drop_last() =~= done.push(cur));
            }
            match parse_hex(&chars, part_start, i) {
                Some(code) => match char_from_code(code) {
                    Some(c) => {
                        let ghost before_out = out@;
                        push_char(&mut out, c);
                        proof {
                            char_u32_cast(c, code);
                            assert((code as char) == c);
                            assert(done.push(cur).last() == cur);
                            assert(code_points_text(done.push(cur)) == Some(before_out.push(c)));
                            done = done.push(cur);
                        }
                    },
                    None => {
                        proof {
                            lemma_key_fails(key@, i as int, done.push(cur));
                        }
                        return None;
                    },
                },
                None => {
                    proof {
                        lemma_key_fails(key@, i as int, done.push(cur));
                    }
                    return None;
                },
            }
            part_start = i + 1;
            proof {
                assert(chars@.subrange(part_start as int, i + 1) =~= Seq::<char>::empty());
            }
        } else {
            proof {
                let parts = split_parts(chars@.take(i as int), '-');
                assert(chars@.subrange(part_start as int, i + 1) =~= cur.push(chars@[i as int]));
                assert(parts.update(parts.len() - 1, parts.last().push(chars@[i as int])) =~= done.push(
                    cur.push(chars@[i as int]),
                ));
            }
        }
        i = i + 1;
    }
    proof {
        assert(chars@.take(i as int) =~= key@);
    }
    let ghost last = chars@.subrange(part_start as int, i as int);
    proof {
        assert(done.push(last).drop_last() =~= done);
        assert(split_parts(key@, '-') == done.push(last));
    }
    match parse_hex(&chars, part_start, i) {
        Some(code) => match char_from_code(code) {
            Some(c) => {
                let ghost before_out = out@;
                push_char(&mut out, c);
                proof {
                    char_u32_cast(c, code);
                    assert((code as char) == c);
                    assert(done.push(last).last() == last);
                    assert(code_points_text(done.push(last)) == Some(before_out.push(c)));
                }
                Some(out)
            },
            None => None,
        },
        None => None,
    }
}


/// The emoji of the index that starts at position `i` of `s`: two
/// characters are tried before one. Gives the length matched and what the
/// index binds to it.
pub open spec fn emoji_at(s: Seq<char>, i: int, index: Map<Seq<char>, usize>) -> Option<(int, usize)> {
    if 0 <= i && i + 2 <= s.len() && index.contains_key(s.subrange(i, i + 2)) {
        Some((2, index[s.subrange(i, i + 2)]))
    } else if 0 <= i && i + 1 <= s.len() && index.contains_key(s.subrange(i, i + 1)) {
        Some((1, index[s.subrange(i, i + 1)]))
    } else {
        None
    }
}

/// Matches an emoji of the index at position `i` of `chars`, trying two
/// characters first, then one; returns the length matched and its entry.
pub fn match_emoji_at(chars: &[char], i: usize, emoji_map: &TextMap<usize>) -> (r: Option<(usize, usize)>)
    ensures
        match r {
            Some((len, idx)) => emoji_at(chars@, i as int, emoji_map.as_map()) == Some(
                (len as int, idx),
            ),
            None => emoji_at(chars@, i as int, emoji_map.as_map()) is None,
        },
{
    if i < chars.len() && chars.len() - i >= 2 {
        let s = string_of(chars, i, i + 2);
        match emoji_map.get(s.as_str()) {
            Some(idx) => {
                return Some((2, *idx));
            },
            None => {},
        }
    }
    if i < chars.len() {
        let s = string_of(chars, i, i + 1);
        match emoji_map.get(s.as_str()) {
            Some(idx) => {
                return Some((1, *idx));
            },
            None => {},
        }
    }
    None
}

/// Shortcode suggestions of the emoji picker: up to `limit` aliases that
/// start with the query typed after the colon, even an empty query.
pub fn shortcode_suggestions(
    input: &str,
    cursor_char: usize,
    alias_to_char: &TextMap<String>,
    aliases: &[String],
    limit: usize,
) -> (r: Vec<(String, String)>)
    ensures
        pairs_view(r@) == match shortcode_trigger(input@, cursor_char as int) {
            Some((_, query)) => suggestions_for(
                query,
                alias_to_char.as_map().map_values(|c: String| c@),
                texts_view(aliases@),
                limit as int,
            ),
            None => Seq::empty(),
        },
{
    match emoji_shortcode_trigger(input, cursor_char) {
        None => {
            let r: Vec<(String, String)> = Vec::new();
            assert(pairs_view(r@) =~= Seq::empty());
            r
        },
        Some((_start, query)) => suggestions_for_query(query.as_str(), alias_to_char, aliases, limit),
    }
}

/// `index` with every alias of `aliases` bound to `emoji`, in order.
pub open spec fn bind_aliases(
    index: Map<Seq<char>, Seq<char>>,
    aliases: Seq<Seq<char>>,
    emoji: Seq<char>,
) -> Map<Seq<char>, Seq<char>>
    decreases aliases.len(),
{
    if aliases.len() == 0 {
        index
    } else {
        bind_aliases(index, aliases.drop_last(), emoji).insert(aliases.last(), emoji)
    }
}

/// The alias index built from GitHub emoji entries (a key and its aliases),
/// in order: an entry counts when its key names an emoji that is available.
pub open spec fn alias_index(
    entries: Seq<(Seq<char>, Seq<Seq<char>>)>,
    available: Seq<Seq<char>>,
) -> Map<Seq<char>, Seq<char>>
    decreases entries.len(),
{
    if entries.len() == 0 {
        Map::empty()
    } else {
        let index = alias_index(entries.drop_last(), available);
        match github_key_emoji(entries.last().0) {
            Some(emoji) => if available.contains(emoji) {
                bind_aliases(index, entries.last().1, emoji)
            } else {
                index
            },
            None => index,
        }
    }
}

/// What the GitHub emoji table gives for one key: a list of values (each a
/// text or something else), a single text, or something else.
pub enum TableAliases {
    List(Vec<Option<String>>),
    One(String),
    Other,
}

/// The view of `TableAliases`.
pub enum AliasesView {
    List(Seq<Option<Seq<char>>>),
    One(Seq<char>),
    Other,
}

/// The view of an optional text.
pub open spec fn opt_view(o: Option<String>) -> Option<Seq<char>> {
    match o {
        Some(s) => Some(s@),
        None => None,
    }
}

impl View for TableAliases {
    type V = AliasesView;

    open spec fn view(&self) -> AliasesView {
        match self {
            TableAliases::List(v) => AliasesView::List(v@.map_values(|o: Option<String>| opt_view(o))),
            TableAliases::One(s) => AliasesView::One(s@),
            TableAliases::Other => AliasesView::Other,
        }
    }
}

/// The texts among `v`, in order.
pub open spec fn texts_among(v: Seq<Option<Seq<char>>>) -> Seq<Seq<char>>
    decreases v.len(),
{
    if v.len() == 0 {
        Seq::empty()
    } else {
        match v.last() {
            Some(t) => texts_among(v.drop_last()).push(t),
            None => texts_among(v.drop_last()),
        }
    }
}

/// The aliases that a table value lists: the texts of a list, or the single
/// text; none for anything else.
pub open spec fn listed_of(a: AliasesView) -> Seq<Seq<char>> {
    match a {
        AliasesView::List(v) => texts_among(v),
        AliasesView::One(t) => seq![t],
        AliasesView::Other => Seq::empty(),
    }
}

/// The view of the emoji table.
pub open spec fn table_view(v: Seq<(String, TableAliases)>) -> Seq<(Seq<char>, AliasesView)> {
    v.map_values(|e: (String, TableAliases)| (e.0@, e.1@))
}

/// The emoji table as keys with the aliases they list.
pub open spec fn table_entries(t: Seq<(Seq<char>, AliasesView)>) -> Seq<(Seq<char>, Seq<Seq<char>>)> {
    t.map_values(|e: (Seq<char>, AliasesView)| (e.0, listed_of(e.1)))
}

/// What `serde_json::from_str` reads from `json` as a JSON object, its
/// entries in the order in which `serde_json::Map` gives them back, each value
/// told apart as `TableAliases` does; none when `json` is not a JSON object.
pub uninterp spec fn emoji_table_of(json: Seq<char>) -> Option<Seq<(Seq<char>, AliasesView)>>;

/// Reads the GitHub emoji table; a wrapper of `serde_json::from_str` into a
/// `serde_json::Map`, whose values are then told apart by variant. The
/// contract names the result: a function of the text alone.
#[verifier::external_body]
fn parse_emoji_table(json: &str) -> (r: Option<Vec<(String, TableAliases)>>)
    ensures
        match r {
            Some(v) => emoji_table_of(json@) == Some(table_view(v@)),
            None => emoji_table_of(json@) is None,
        },
{
    match serde_json::from_str::<serde_json::Map<String, serde_json::Value>>(json) {
        Ok(map) => Some(map.into_iter().map(|(key, value)| (key, match value {
            serde_json::Value::Array(items) => TableAliases::List(items.into_iter().map(|item| match item {
                serde_json::Value::String(text) => Some(text),
                _ => None,
            }).collect()),
            serde_json::Value::String(text) => TableAliases::One(text),
            _ => TableAliases::Other,
        })).collect()),
        Err(_) => None,
    }
}

/// The aliases that one table value lists.
fn listed_aliases(a: &TableAliases) -> (r: Vec<String>)
    ensures
        texts_view(r@) == listed_of(a@),
{
    let mut r: Vec<String> = Vec::new();
    match a {
        TableAliases::List(items) => {
            let ghost iv = items@.map_values(|o: Option<String>| opt_view(o));
            let mut i: usize = 0;
            proof {
                assert(iv.take(0) =~= Seq::<Option<Seq<char>>>::empty());
            }
            while i < items.len()
                invariant
                    i <= items@.len(),
                    iv == items@.map_values(|o: Option<String>| opt_view(o)),
                    texts_view(r@) == texts_among(iv.take(i as int)),
                decreases items@.len() - i,
            {
                proof {
                    assert(iv.take(i + 1).drop_last() =~= iv.take(i as int));
                    assert(iv.take(i + 1).last() == opt_view(items@[i as int]));
                }
                match &items[i] {
                    Some(t) => {
                        let ghost before = r@;
                        r.push(t.clone());
                        proof {
                            assert(texts_view(r@) =~= texts_view(before).push(t@));
                        }
                    },
                    None => {},
                }
                i = i + 1;
            }
            proof {
                assert(iv.take(i as int) =~= iv);
            }
        },
        TableAliases::One(t) => {
            r.push(t.clone());
            proof {
                assert(texts_view(r@) =~= seq![t@]);
            }
        },
        TableAliases::Other => {
            proof {
                assert(texts_view(r@) =~= Seq::<Seq<char>>::empty());
            }
        },
    }
    r
}

/// Consecutive texts are in lexicographic order.
pub open spec fn sorted_texts(v: Seq<Seq<char>>) -> bool {
    forall|j: int| 0 <= j < v.len() - 1 ==> lex_le(#[trigger] v[j], v[j + 1])
}

pub(crate) fn contains_text(list: &[String], text: &str) -> (r: bool)
    ensures
        r == texts_view(list@).contains(text@),
{
    let mut i: usize = 0;
    while i < list.len()
        invariant
            i <= list@.len(),
            forall|j: int| 0 <= j < i ==> list@[j]@ != text@,
        decreases list@.len() - i,
    {
        if crate::chars::text_eq(list[i].as_str(), text) {
            proof {
                assert(texts_view(list@)[i as int] == text@);
            }
            return true;
        }
        i = i + 1;
    }
    proof {
        if texts_view(list@).contains(text@) {
            let j = choose|j: int| 0 <= j < texts_view(list@).len() && texts_view(list@)[j] == text@;
            assert(list@[j]@ == text@);
        }
    }
    false
}

pub(crate) proof fn lemma_insert_sorted(ov: Seq<Seq<char>>, p: int, x: Seq<char>)
    requires
        0 <= p <= ov.len(),
        sorted_texts(ov),
        forall|j: int| 0 <= j < p ==> lex_le(#[trigger] ov[j], x),
        p < ov.len() ==> !lex_le(ov[p], x),
    ensures
        sorted_texts(ov.insert(p, x)),
{
    let rv = ov.insert(p, x);
    assert forall|j: int| 0 <= j < rv.len() - 1 implies lex_le(#[trigger] rv[j], rv[j + 1]) by {
        if j + 1 < p {
            assert(rv[j] == ov[j] && rv[j + 1] == ov[j + 1]);
        } else if j + 1 == p {
            assert(rv[j] == ov[j]);
        } else if j == p {
            lemma_lex_total(ov[j], x);
            assert(rv[j + 1] == ov[j]);
        } else {
            assert(rv[j] == ov[j - 1] && rv[j + 1] == ov[j]);
        }
    }
}

pub(crate) proof fn lemma_insert_contains(ov: Seq<Seq<char>>, p: int, x: Seq<char>, t: Seq<char>)
    requires
        0 <= p <= ov.len(),
    ensures
        ov.insert(p, x).contains(t) <==> (ov.contains(t) || t == x),
{
    let rv = ov.insert(p, x);
    if rv.contains(t) {
        let j = choose|j: int| 0 <= j < rv.len() && rv[j] == t;
        if j < p {
            assert(ov[j] == t);
        } else if j > p {
            assert(ov[j - 1] == t);
        }
    }
    if ov.contains(t) {
        let k = choose|k: int| 0 <= k < ov.len() && ov[k] == t;
        if k < p {
            assert(rv[k] == t);
        } else {
            assert(rv[k + 1] == t);
        }
    }
    if t == x {
        assert(rv[p] == t);
    }
}

pub(crate) proof fn lemma_push_contains(v: Seq<Seq<char>>, x: Seq<char>, t: Seq<char>)
    ensures
        v.push(x).contains(t) <==> (v.contains(t) || t == x),
{
    if v.push(x).contains(t) {
        let j = choose|j: int| 0 <= j < v.push(x).len() && v.push(x)[j] == t;
        if j < v.len() {
            assert(v[j] == t);
        }
    }
    if v.contains(t) {
        let k = choose|k: int| 0 <= k < v.len() && v[k] == t;
        assert(v.push(x)[k] == t);
    }
    if t == x {
        assert(v.push(x)[v.len() as int] == t);
    }
}

/// `v` sorted in lexicographic order (insertion sort).
fn sort_texts(v: Vec<String>) -> (r: Vec<String>)
    ensures
        sorted_texts(texts_view(r@)),
        texts_view(r@).len() == texts_view(v@).len(),
        forall|t: Seq<char>| texts_view(r@).contains(t) <==> texts_view(v@).contains(t),
{
    let mut r: Vec<String> = Vec::new();
    let mut i: usize = 0;
    while i < v.len()
        invariant
            i <= v@.len(),
            sorted_texts(texts_view(r@)),
            r@.len() == i,
            forall|t: Seq<char>| texts_view(r@).contains(t) <==> texts_view(v@.take(i as int)).contains(t),
        decreases v@.len() - i,
    {
        let x = to_chars(v[i].as_str());
        let mut p: usize = 0;
        while p < r.len() && lex_le_exec(&to_chars(r[p].as_str()), &x)
            invariant
                p <= r@.len(),
                x@ == v@[i as int]@,
                forall|j: int| 0 <= j < p ==> lex_le(#[trigger] r@[j]@, x@),
            decreases r@.len() - p,
        {
            p = p + 1;
        }
        let ghost old_r = r@;
        r.insert(p, v[i].clone());
        proof {
            let rv = texts_view(r@);
            let ov = texts_view(old_r);
            assert(rv =~= ov.insert(p as int, x@));
            if p < ov.len() {
                assert(!lex_le(ov[p as int], x@));
            }
            lemma_insert_sorted(ov, p as int, x@);
            assert(v@.take(i + 1) =~= v@.take(i as int).push(v@[i as int]));
            assert(texts_view(v@.take(i + 1)) =~= texts_view(v@.take(i as int)).push(x@));
            assert forall|t: Seq<char>| rv.contains(t) <==> texts_view(v@.take(i + 1)).contains(t) by {
                lemma_insert_contains(ov, p as int, x@, t);
                lemma_push_contains(texts_view(v@.take(i as int)), x@, t);
            }
        }
        i = i + 1;
    }
    proof {
        assert(v@.take(i as int) =~= v@);
    }
    r
}

/// Builds the shortcode index from the entries of the emoji table: each
/// alias of an entry whose key names an available emoji is bound to that
/// emoji (a later entry wins); the aliases come back sorted.
pub fn index_from_table(
    entries: &[(String, TableAliases)],
    available: &[String],
) -> (r: (TextMap<String>, Vec<String>))
    ensures
        r.0.as_map().map_values(|c: String| c@) == alias_index(
            table_entries(table_view(entries@)),
            texts_view(available@),
        ),
        sorted_texts(texts_view(r.1@)),
        forall|t: Seq<char>| texts_view(r.1@).contains(t) <==> r.0.as_map().contains_key(t),
{
    let mut index: TextMap<String> = TextMap::new();
    let ghost ev = table_entries(table_view(entries@));
    let mut i: usize = 0;
    proof {
        assert(index.as_map().map_values(|c: String| c@) =~= Map::<Seq<char>, Seq<char>>::empty());
    }
    while i < entries.len()
        invariant
            i <= entries@.len(),
            ev == table_entries(table_view(entries@)),
            index.as_map().map_values(|c: String| c@) == alias_index(
                ev.take(i as int),
                texts_view(available@),
            ),
        decreases entries@.len() - i,
    {
        proof {
            assert(ev.take(i + 1).drop_last() =~= ev.take(i as int));
            assert(ev.take(i + 1).last() == ev[i as int]);
        }
        match github_key_to_emoji(entries[i].0.as_str()) {
            Some(emoji) => {
                if contains_text(available, emoji.as_str()) {
                    let aliases = &listed_aliases(&entries[i].1);
                    let ghost av = texts_view(aliases@);
                    let ghost start = index.as_map().map_values(|c: String| c@);
                    let mut j: usize = 0;
                    proof {
                        assert(av.take(0) =~= Seq::<Seq<char>>::empty());
                    }
                    while j < aliases.len()
                        invariant
                            j <= aliases@.len(),
                            av == texts_view(aliases@),
                            index.as_map().map_values(|c: String| c@) == bind_aliases(
                                start,
                                av.take(j as int),
                                emoji@,
                            ),
                        decreases aliases@.len() - j,
                    {
                        let ghost before = index.as_map();
                        index.insert(aliases[j].clone(), emoji.clone());
                        proof {
                            assert(av.take(j + 1).drop_last() =~= av.take(j as int));
                            assert(av.take(j + 1).last() == aliases@[j as int]@);
                            assert(index.as_map().map_values(|c: String| c@) =~= before.map_values(
                                |c: String| c@,
                            ).insert(aliases@[j as int]@, emoji@));
                        }
                        j = j + 1;
                    }
                    proof {
                        assert(av.take(j as int) =~= av);
                    }
                }
            },
            None => {},
        }
        i = i + 1;
    }
    proof {
        assert(ev.take(i as int) =~= ev);
    }
    let keys = index.keys();
    let sorted = sort_texts(keys);
    (index, sorted)
}

/// Builds the shortcode index from the GitHub emoji table written in JSON:
/// each alias of a key that names an available emoji is bound to that emoji,
/// and the aliases come back sorted; both are empty when the table cannot be
/// read.
pub fn build_emoji_shortcode_index(available: &[String], table_json: &str) -> (r: (
    TextMap<String>,
    Vec<String>,
))
    ensures
        match emoji_table_of(table_json@) {
            Some(t) => {
                &&& r.0.as_map().map_values(|c: String| c@) == alias_index(
                    table_entries(t),
                    texts_view(available@),
                )
                &&& sorted_texts(texts_view(r.1@))
                &&& forall|a: Seq<char>| texts_view(r.1@).contains(a) <==> r.0.as_map().contains_key(a)
            },
            None => r.0.as_map() == Map::<Seq<char>, String>::empty() && r.1@.len() == 0,
        },
{
    match parse_emoji_table(table_json) {
        Some(entries) => index_from_table(entries.as_slice(), available),
        None => (TextMap::new(), Vec::new()),
    }
}

} // verus!
