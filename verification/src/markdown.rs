use vstd::prelude::*;

use crate::chars::{is_white_space, string_of, white_space};
use crate::text::{
    all_white, all_white_exec, concat, find, find_from, find_from_exec, has_char, last_index,
    last_index_exec, lemma_last_index, lemma_last_index_exact, lemma_leading_ws, lemma_trailing_ws, lemma_trim_empty,
    lemma_find_from, lemma_find_skip, lines_of, occurs_at, split_lines, subvec, trim, trim_chars,
    trim_start, trim_start_chars,
};

verus! {

/// An inline piece of a message.
#[derive(Clone, Debug, PartialEq, Eq)]
pub enum MarkdownSpan {
    Text(String),
    Strong(String),
    Emphasis(String),
    Strikethrough(String),
    Code(String),
    Link { label: String, url: String },
}

/// Alignment of a table column, from the delimiter row (`:---`, `:---:`, `---:`).
#[derive(Clone, Copy, Debug, PartialEq, Eq)]
pub enum ColumnAlignment {
    Unaligned,
    Left,
    Center,
    Right,
}

/// A block of a message.
#[derive(Clone, Debug, PartialEq, Eq)]
pub enum MarkdownBlock {
    Paragraph(Vec<MarkdownSpan>),
    Heading { level: usize, spans: Vec<MarkdownSpan> },
    Bullet(Vec<MarkdownSpan>),
    OrderedBullet { number: usize, spans: Vec<MarkdownSpan> },
    TaskItem { checked: bool, spans: Vec<MarkdownSpan> },
    Blockquote(Vec<MarkdownSpan>),
    CodeBlock { language: Option<String>, code: String },
    Table {
        alignments: Vec<ColumnAlignment>,
        header: Vec<Vec<MarkdownSpan>>,
        rows: Vec<Vec<Vec<MarkdownSpan>>>,
    },
    ThematicBreak,
    Blank,
}

/// An inline piece, with its texts as character sequences.
pub enum SpanView {
    Text(Seq<char>),
    Strong(Seq<char>),
    Emphasis(Seq<char>),
    Strikethrough(Seq<char>),
    Code(Seq<char>),
    Link { label: Seq<char>, url: Seq<char> },
}

/// A block, with its texts as character sequences.
pub enum BlockView {
    Paragraph(Seq<SpanView>),
    Heading { level: usize, spans: Seq<SpanView> },
    Bullet(Seq<SpanView>),
    OrderedBullet { number: usize, spans: Seq<SpanView> },
    TaskItem { checked: bool, spans: Seq<SpanView> },
    Blockquote(Seq<SpanView>),
    CodeBlock { language: Option<Seq<char>>, code: Seq<char> },
    Table {
        alignments: Seq<ColumnAlignment>,
        header: Seq<Seq<SpanView>>,
        rows: Seq<Seq<Seq<SpanView>>>,
    },
    ThematicBreak,
    Blank,
}

impl View for MarkdownSpan {
    type V = SpanView;

    open spec fn view(&self) -> SpanView {
        match self {
            MarkdownSpan::Text(t) => SpanView::Text(t@),
            MarkdownSpan::Strong(t) => SpanView::Strong(t@),
            MarkdownSpan::Emphasis(t) => SpanView::Emphasis(t@),
            MarkdownSpan::Strikethrough(t) => SpanView::Strikethrough(t@),
            MarkdownSpan::Code(t) => SpanView::Code(t@),
            MarkdownSpan::Link { label, url } => SpanView::Link { label: label@, url: url@ },
        }
    }
}

/// The views of a list of spans.
pub open spec fn spans_view(v: Seq<MarkdownSpan>) -> Seq<SpanView> {
    v.map_values(|s: MarkdownSpan| s@)
}

/// The views of a table row.
pub open spec fn row_view(v: Seq<Vec<MarkdownSpan>>) -> Seq<Seq<SpanView>> {
    v.map_values(|c: Vec<MarkdownSpan>| spans_view(c@))
}

/// The views of table rows.
pub open spec fn rows_view(v: Seq<Vec<Vec<MarkdownSpan>>>) -> Seq<Seq<Seq<SpanView>>> {
    v.map_values(|r: Vec<Vec<MarkdownSpan>>| row_view(r@))
}

impl View for MarkdownBlock {
    type V = BlockView;

    open spec fn view(&self) -> BlockView {
        match self {
            MarkdownBlock::Paragraph(s) => BlockView::Paragraph(spans_view(s@)),
            MarkdownBlock::Heading { level, spans } => BlockView::Heading {
                level: *level,
                spans: spans_view(spans@),
            },
            MarkdownBlock::Bullet(s) => BlockView::Bullet(spans_view(s@)),
            MarkdownBlock::OrderedBullet { number, spans } => BlockView::OrderedBullet {
                number: *number,
                spans: spans_view(spans@),
            },
            MarkdownBlock::TaskItem { checked, spans } => BlockView::TaskItem {
                checked: *checked,
                spans: spans_view(spans@),
            },
            MarkdownBlock::Blockquote(s) => BlockView::Blockquote(spans_view(s@)),
            MarkdownBlock::CodeBlock { language, code } => BlockView::CodeBlock {
                language: match language {
                    Some(l) => Some(l@),
                    None => None,
                },
                code: code@,
            },
            MarkdownBlock::Table { alignments, header, rows } => BlockView::Table {
                alignments: alignments@,
                header: row_view(header@),
                rows: rows_view(rows@),
            },
            MarkdownBlock::ThematicBreak => BlockView::ThematicBreak,
            MarkdownBlock::Blank => BlockView::Blank,
        }
    }
}

/// The views of a list of blocks.
pub open spec fn blocks_view(v: Seq<MarkdownBlock>) -> Seq<BlockView> {
    v.map_values(|b: MarkdownBlock| b@)
}

/// Whether `s` starts with `p`.
pub open spec fn starts_with(s: Seq<char>, p: Seq<char>) -> bool {
    p.len() <= s.len() && s.take(p.len() as int) == p
}

/// Whether `s` ends with `p`.
pub open spec fn ends_with(s: Seq<char>, p: Seq<char>) -> bool {
    p.len() <= s.len() && s.skip(s.len() - p.len()) == p
}

fn starts_with_exec(s: &Vec<char>, p: &[char]) -> (r: bool)
    ensures
        r == starts_with(s@, p@),
{
    if p.len() > s.len() {
        return false;
    }
    let mut i: usize = 0;
    while i < p.len()
        invariant
            p@.len() <= s@.len(),
            i <= p@.len(),
            forall|j: int| 0 <= j < i ==> s@[j] == p@[j],
        decreases p@.len() - i,
    {
        if s[i] != p[i] {
            assert(s@.take(p@.len() as int)[i as int] != p@[i as int]);
            return false;
        }
        i = i + 1;
    }
    assert(s@.take(p@.len() as int) =~= p@);
    true
}

/// Number of leading characters of `s` equal to `c`.
pub open spec fn leading_count(s: Seq<char>, c: char) -> int
    decreases s.len(),
{
    if s.len() > 0 && s[0] == c {
        1 + leading_count(s.drop_first(), c)
    } else {
        0
    }
}

proof fn lemma_leading_count(s: Seq<char>, c: char, n: int)
    requires
        0 <= n <= s.len(),
        forall|k: int| 0 <= k < n ==> s[k] == c,
        n < s.len() ==> s[n] != c,
    ensures
        leading_count(s, c) == n,
    decreases n,
{
    if n > 0 {
        assert forall|k: int| 0 <= k < n - 1 implies s.drop_first()[k] == c by {
            assert(s.drop_first()[k] == s[k + 1]);
        }
        if n < s.len() {
            assert(s.drop_first()[n - 1] == s[n]);
        }
        lemma_leading_count(s.drop_first(), c, n - 1);
    }
}

fn count_leading(s: &Vec<char>, c: char) -> (r: usize)
    ensures
        r == leading_count(s@, c),
        r <= s@.len(),
{
    let mut i: usize = 0;
    while i < s.len() && s[i] == c
        invariant
            i <= s@.len(),
            forall|k: int| 0 <= k < i ==> s@[k] == c,
        decreases s@.len() - i,
    {
        i = i + 1;
    }
    proof {
        lemma_leading_count(s@, c, i as int);
    }
    i
}

/// A heading line: one to six `#`, a space, then the text.
pub open spec fn heading_of(line: Seq<char>) -> Option<(usize, Seq<char>)> {
    let level = leading_count(line, '#');
    if !(1 <= level <= 6) {
        None
    } else {
        let rest = line.skip(level);
        if rest.len() > 0 && rest[0] == ' ' {
            Some((level as usize, rest.skip(1)))
        } else {
            None
        }
    }
}

/// The level and text of a heading line.
pub fn heading_text(line: &Vec<char>) -> (r: Option<(usize, Vec<char>)>)
    ensures
        match r {
            Some((level, text)) => heading_of(line@) == Some((level, text@)),
            None => heading_of(line@) is None,
        },
{
    let level = count_leading(line, '#');
    if level < 1 || level > 6 {
        return None;
    }
    if level < line.len() && line[level] == ' ' {
        proof {
            assert(line@.skip(level as int).skip(1) =~= line@.subrange(level + 1, line@.len() as int));
        }
        Some((level, subvec(line, level + 1, line.len())))
    } else {
        None
    }
}

proof fn lemma_hashes_count(n: nat, rest: Seq<char>)
    requires
        rest.len() == 0 || rest[0] != '#',
    ensures
        leading_count(Seq::new(n, |i: int| '#') + rest, '#') == n,
    decreases n,
{
    let s = Seq::new(n, |i: int| '#') + rest;
    if n > 0 {
        assert(s.drop_first() =~= Seq::new((n - 1) as nat, |i: int| '#') + rest);
        lemma_hashes_count((n - 1) as nat, rest);
    } else {
        assert(s =~= rest);
    }
}

/// A line of one to six `#`, a space and a text is a heading of that many
/// levels holding the text; seven `#` or more make no heading.
pub proof fn headings_count_their_hashes(n: nat, text: Seq<char>)
    ensures
        1 <= n <= 6 ==> heading_of(Seq::new(n, |i: int| '#') + seq![' '] + text) == Some(
            (n as usize, text),
        ),
        n > 6 ==> heading_of(Seq::new(n, |i: int| '#') + seq![' '] + text) is None,
{
    let line = Seq::new(n, |i: int| '#') + seq![' '] + text;
    assert(line =~= Seq::new(n, |i: int| '#') + (seq![' '] + text));
    lemma_hashes_count(n, seq![' '] + text);
    assert(line.skip(n as int) =~= seq![' '] + text);
    assert((seq![' '] + text).skip(1) =~= text);
}

/// A bullet line: after leading white space, `- `, `* ` or `+ `.
pub open spec fn bullet_of(line: Seq<char>) -> Option<Seq<char>> {
    let t = trim_start(line);
    if starts_with(t, seq!['-', ' ']) || starts_with(t, seq!['*', ' ']) || starts_with(
        t,
        seq!['+', ' '],
    ) {
        Some(t.skip(2))
    } else {
        None
    }
}

/// The text of a bullet line.
pub fn bullet_text(line: &Vec<char>) -> (r: Option<Vec<char>>)
    ensures
        match r {
            Some(text) => bullet_of(line@) == Some(text@),
            None => bullet_of(line@) is None,
        },
{
    let t = trim_start_chars(line);
    if t.len() >= 2 && (t[0] == '-' || t[0] == '*' || t[0] == '+') && t[1] == ' ' {
        proof {
            assert(t@.skip(2) =~= t@.subrange(2, t@.len() as int));
            if t@[0] == '-' {
                assert(t@.take(2) =~= seq!['-', ' ']);
            } else if t@[0] == '*' {
                assert(t@.take(2) =~= seq!['*', ' ']);
            } else {
                assert(t@.take(2) =~= seq!['+', ' ']);
            }
        }
        Some(subvec(&t, 2, t.len()))
    } else {
        proof {
            if t@.len() >= 2 {
                assert(t@.take(2)[0] == t@[0] && t@.take(2)[1] == t@[1]);
            }
        }
        None
    }
}

/// Whether `c` is an ASCII digit.
pub open spec fn is_digit(c: char) -> bool {
    '0' <= c && c <= '9'
}

/// Number of leading ASCII digits of `s`.
pub open spec fn leading_digits(s: Seq<char>) -> int
    decreases s.len(),
{
    if s.len() > 0 && is_digit(s[0]) {
        1 + leading_digits(s.drop_first())
    } else {
        0
    }
}

/// The number that the decimal digits `s` denote.
pub open spec fn decimal_value(s: Seq<char>) -> int
    decreases s.len(),
{
    if s.len() == 0 {
        0
    } else {
        decimal_value(s.drop_last()) * 10 + (s.last() as int - '0' as int)
    }
}

/// A numbered line: after leading white space, digits, `. `, then the text;
/// the number must fit in a `usize`.
pub open spec fn ordered_of(line: Seq<char>) -> Option<(usize, Seq<char>)> {
    let t = trim_start(line);
    let d = leading_digits(t);
    if d == 0 || !starts_with(t.skip(d), seq!['.', ' ']) || decimal_value(t.take(d)) > usize::MAX {
        None
    } else {
        Some((decimal_value(t.take(d)) as usize, t.skip(d + 2)))
    }
}

proof fn lemma_leading_digits(s: Seq<char>, n: int)
    requires
        0 <= n <= s.len(),
        forall|k: int| 0 <= k < n ==> is_digit(#[trigger] s[k]),
        n < s.len() ==> !is_digit(s[n]),
    ensures
        leading_digits(s) == n,
    decreases n,
{
    if n > 0 {
        assert forall|k: int| 0 <= k < n - 1 implies is_digit(#[trigger] s.drop_first()[k]) by {
            assert(s.drop_first()[k] == s[k + 1]);
        }
        if n < s.len() {
            assert(s.drop_first()[n - 1] == s[n]);
        }
        lemma_leading_digits(s.drop_first(), n - 1);
        assert(is_digit(s[0]));
    }
}

proof fn lemma_decimal_value_mono(s: Seq<char>, i: int)
    requires
        0 <= i <= s.len(),
        forall|k: int| 0 <= k < s.len() ==> is_digit(#[trigger] s[k]),
    ensures
        0 <= decimal_value(s.take(i)) <= decimal_value(s),
    decreases s.len() - i,
{
    if i < s.len() {
        lemma_decimal_value_mono(s, i + 1);
        assert(s.take(i + 1).drop_last() =~= s.take(i));
        assert(is_digit(s[i]));
    } else {
        assert(s.take(i) =~= s);
        lemma_decimal_value_nonneg(s);
    }
}

proof fn lemma_decimal_value_nonneg(s: Seq<char>)
    requires
        forall|k: int| 0 <= k < s.len() ==> is_digit(#[trigger] s[k]),
    ensures
        decimal_value(s) >= 0,
    decreases s.len(),
{
    if s.len() > 0 {
        assert forall|k: int| 0 <= k < s.drop_last().len() implies is_digit(#[trigger] s.drop_last()[k]) by {
            assert(s.drop_last()[k] == s[k]);
        }
        lemma_decimal_value_nonneg(s.drop_last());
        assert(is_digit(s[s.len() - 1]));
    }
}

/// The number and text of a numbered line.
pub fn ordered_bullet_text(line: &Vec<char>) -> (r: Option<(usize, Vec<char>)>)
    ensures
        match r {
            Some((number, text)) => ordered_of(line@) == Some((number, text@)),
            None => ordered_of(line@) is None,
        },
{
    let t = trim_start_chars(line);
    let mut d: usize = 0;
    while d < t.len() && '0' <= t[d] && t[d] <= '9'
        invariant
            d <= t@.len(),
            forall|k: int| 0 <= k < d ==> is_digit(#[trigger] t@[k]),
        decreases t@.len() - d,
    {
        d = d + 1;
    }
    proof {
        lemma_leading_digits(t@, d as int);
    }
    if d == 0 {
        return None;
    }
    if !(t.len() - d >= 2 && t[d] == '.' && t[d + 1] == ' ') {
        proof {
            if starts_with(t@.skip(d as int), seq!['.', ' ']) {
                assert(t@.skip(d as int).take(2)[0] == t@[d as int]);
                assert(t@.skip(d as int).take(2)[1] == t@[d + 1]);
            }
        }
        return None;
    }
    proof {
        assert(t@.skip(d as int).take(2) =~= seq!['.', ' ']);
    }
    let ghost digits = t@.take(d as int);
    let mut value: usize = 0;
    let mut i: usize = 0;
    while i < d
        invariant
            i <= d < t@.len(),
            t@ == trim_start(line@),
            d == leading_digits(t@),
            starts_with(t@.skip(d as int), seq!['.', ' ']),
            digits == t@.take(d as int),
            forall|k: int| 0 <= k < d ==> is_digit(#[trigger] t@[k]),
            value == decimal_value(digits.take(i as int)),
        decreases d - i,
    {
        proof {
            assert(digits.take(i + 1).drop_last() =~= digits.take(i as int));
            assert(digits.take(i + 1).last() == t@[i as int]);
            assert(is_digit(t@[i as int]));
        }
        let digit = (t[i] as u32 - '0' as u32) as usize;
        assert(decimal_value(digits.take(i + 1)) == value * 10 + digit);
        if value > (usize::MAX - digit) / 10 {
            proof {
                assert forall|k: int| 0 <= k < digits.len() implies is_digit(#[trigger] digits[k]) by {
                    assert(digits[k] == t@[k]);
                }
                lemma_decimal_value_mono(digits, i + 1);
                assert(value * 10 + digit > usize::MAX) by (nonlinear_arith)
                    requires
                        value > (usize::MAX - digit) / 10,
                        digit <= 9,
                ;
                assert(decimal_value(digits) > usize::MAX);
            }
            return None;
        }
        proof {
            assert(value * 10 + digit <= usize::MAX) by (nonlinear_arith)
                requires
                    value <= (usize::MAX - digit) / 10,
                    digit <= 9,
            ;
        }
        value = value * 10 + digit;
        i = i + 1;
    }
    proof {
        assert(digits.take(d as int) =~= digits);
        assert(t@.skip(d + 2) =~= t@.subrange(d + 2, t@.len() as int));
    }
    Some((value, subvec(&t, d + 2, t.len())))
}

/// A task line: a bullet whose text starts with `[ ] `, `[x] ` or `[X] `.
pub open spec fn task_of(line: Seq<char>) -> Option<(bool, Seq<char>)> {
    match bullet_of(line) {
        None => None,
        Some(b) => if starts_with(b, seq!['[', ' ', ']', ' ']) {
            Some((false, b.skip(4)))
        } else if starts_with(b, seq!['[', 'x', ']', ' ']) || starts_with(
            b,
            seq!['[', 'X', ']', ' '],
        ) {
            Some((true, b.skip(4)))
        } else {
            None
        },
    }
}

/// Whether a task line is checked, and its text.
pub fn task_item_text(line: &Vec<char>) -> (r: Option<(bool, Vec<char>)>)
    ensures
        match r {
            Some((checked, text)) => task_of(line@) == Some((checked, text@)),
            None => task_of(line@) is None,
        },
{
    let b = match bullet_text(line) {
        Some(b) => b,
        None => {
            return None;
        },
    };
    let open_box = ['[', ' ', ']', ' '];
    let x_box = ['[', 'x', ']', ' '];
    let big_x_box = ['[', 'X', ']', ' '];
    proof {
        assert(open_box@ =~= seq!['[', ' ', ']', ' ']);
        assert(x_box@ =~= seq!['[', 'x', ']', ' ']);
        assert(big_x_box@ =~= seq!['[', 'X', ']', ' ']);
        assert(b@.skip(4) =~= b@.subrange(4, b@.len() as int));
    }
    if starts_with_exec(&b, open_box.as_slice()) {
        Some((false, subvec(&b, 4, b.len())))
    } else if starts_with_exec(&b, x_box.as_slice()) || starts_with_exec(&b, big_x_box.as_slice()) {
        Some((true, subvec(&b, 4, b.len())))
    } else {
        None
    }
}

/// A quote line: after leading white space, `>`, then the text without its
/// leading white space.
pub open spec fn blockquote_of(line: Seq<char>) -> Option<Seq<char>> {
    let t = trim_start(line);
    if t.len() > 0 && t[0] == '>' {
        Some(trim_start(t.skip(1)))
    } else {
        None
    }
}

/// The text of a quote line.
pub fn blockquote_text(line: &Vec<char>) -> (r: Option<Vec<char>>)
    ensures
        match r {
            Some(text) => blockquote_of(line@) == Some(text@),
            None => blockquote_of(line@) is None,
        },
{
    let t = trim_start_chars(line);
    if t.len() > 0 && t[0] == '>' {
        let rest = subvec(&t, 1, t.len());
        proof {
            assert(rest@ =~= t@.skip(1));
        }
        Some(trim_start_chars(&rest))
    } else {
        None
    }
}


/// The cell part of a table line: trimmed, without an opening `|` and
/// without a closing `|` that is not escaped as `\|`.
pub open spec fn table_body(line: Seq<char>) -> Seq<char> {
    let t = trim(line);
    let b = if t.len() > 0 && t[0] == '|' {
        t.skip(1)
    } else {
        t
    };
    if ends_with(b, seq!['|']) && !ends_with(b, seq!['\\', '|']) {
        b.drop_last()
    } else {
        b
    }
}

/// Cutting `s` from position `i` at each unescaped `|`, with the finished
/// `cells` and the `current` one so far; `\|` stands for a literal `|`.
pub open spec fn cells_from(s: Seq<char>, i: int, cells: Seq<Seq<char>>, current: Seq<char>) -> Seq<
    Seq<char>,
>
    decreases s.len() - i,
{
    if i < 0 || i >= s.len() {
        cells.push(current)
    } else if s[i] == '\\' && i + 1 < s.len() && s[i + 1] == '|' {
        cells_from(s, i + 2, cells, current.push('|'))
    } else if s[i] == '|' {
        cells_from(s, i + 1, cells.push(current), Seq::empty())
    } else {
        cells_from(s, i + 1, cells, current.push(s[i]))
    }
}

/// The cells of a table line.
pub open spec fn table_cells(line: Seq<char>) -> Seq<Seq<char>> {
    cells_from(table_body(line), 0, Seq::empty(), Seq::empty())
}

/// The views of a list of character vectors.
pub open spec fn char_rows(v: Seq<Vec<char>>) -> Seq<Seq<char>> {
    v.map_values(|c: Vec<char>| c@)
}

/// Splits a table line into its cells, at each `|` that is not escaped.
pub fn split_table_cells(line: &Vec<char>) -> (r: Vec<Vec<char>>)
    ensures
        char_rows(r@) == table_cells(line@),
        r@.len() >= 1,
{
    let t = trim_chars(line);
    let start: usize = if t.len() > 0 && t[0] == '|' {
        1
    } else {
        0
    };
    let mut end = t.len();
    if end > start && t[end - 1] == '|' && !(end - start >= 2 && t[end - 2] == '\\') {
        end = end - 1;
    }
    let body = subvec(&t, start, end);
    proof {
        let b = if t@.len() > 0 && t@[0] == '|' {
            t@.skip(1)
        } else {
            t@
        };
        assert(b =~= t@.subrange(start as int, t@.len() as int));
        if b.len() >= 1 {
            assert(b.skip(b.len() - 1)[0] == b[b.len() - 1]);
            if ends_with(b, seq!['|']) {
                assert(b[b.len() - 1] == '|');
            }
            if b[b.len() - 1] == '|' {
                assert(b.skip(b.len() - 1) =~= seq!['|']);
            }
        }
        if b.len() >= 2 {
            assert(b.skip(b.len() - 2)[0] == b[b.len() - 2]);
            assert(b.skip(b.len() - 2)[1] == b[b.len() - 1]);
            if b[b.len() - 2] == '\\' && b[b.len() - 1] == '|' {
                assert(b.skip(b.len() - 2) =~= seq!['\\', '|']);
            }
        }
        if b.len() > 0 {
            assert(b.drop_last() =~= t@.subrange(start as int, t@.len() - 1));
        }
        assert(body@ == table_body(line@));
    }
    let mut cells: Vec<Vec<char>> = Vec::new();
    let mut current: Vec<char> = Vec::new();
    let mut i: usize = 0;
    proof {
        assert(char_rows(cells@) =~= Seq::<Seq<char>>::empty());
        assert(current@ =~= Seq::<char>::empty());
    }
    while i < body.len()
        invariant
            i <= body@.len() + 1,
            cells_from(body@, i as int, char_rows(cells@), current@) == table_cells(line@),
            body@ == table_body(line@),
        decreases body@.len() + 1 - i,
    {
        let c = body[i];
        if c == '\\' && i + 1 < body.len() && body[i + 1] == '|' {
            current.push('|');
            i = i + 2;
        } else if c == '|' {
            let ghost before = char_rows(cells@);
            let done = current;
            cells.push(done);
            current = Vec::new();
            proof {
                assert(char_rows(cells@) =~= before.push(done@));
                assert(current@ =~= Seq::<char>::empty());
            }
            i = i + 1;
        } else {
            current.push(c);
            i = i + 1;
        }
    }
    let ghost before = char_rows(cells@);
    let last = current;
    cells.push(last);
    proof {
        assert(char_rows(cells@) =~= before.push(last@));
    }
    cells
}

/// A delimiter cell: trimmed, at most one `:` at each end, then one or more `-`.
pub open spec fn is_delimiter_cell_of(cell: Seq<char>) -> bool {
    let c2 = delimiter_core(cell);
    c2.len() > 0 && all_dashes(c2)
}

/// Whether every character of `s` is `-`.
pub open spec fn all_dashes(s: Seq<char>) -> bool {
    forall|k: int| 0 <= k < s.len() ==> #[trigger] s[k] == '-'
}

/// A cell, trimmed, without one `:` at each end.
pub open spec fn delimiter_core(cell: Seq<char>) -> Seq<char> {
    let c = trim(cell);
    let c1 = if c.len() > 0 && c[0] == ':' {
        c.skip(1)
    } else {
        c
    };
    if c1.len() > 0 && c1.last() == ':' {
        c1.drop_last()
    } else {
        c1
    }
}

/// Whether a table cell is a delimiter (`---`, `:---`, `---:`, `:---:`).
pub fn is_delimiter_cell(cell: &Vec<char>) -> (r: bool)
    ensures
        r == is_delimiter_cell_of(cell@),
{
    let c = trim_chars(cell);
    let a: usize = if c.len() > 0 && c[0] == ':' {
        1
    } else {
        0
    };
    let mut b = c.len();
    if b > a && c[b - 1] == ':' {
        b = b - 1;
    }
    let ghost c2 = c@.subrange(a as int, b as int);
    proof {
        let c1 = if c@.len() > 0 && c@[0] == ':' {
            c@.skip(1)
        } else {
            c@
        };
        assert(c1 =~= c@.subrange(a as int, c@.len() as int));
        if c1.len() > 0 {
            assert(c1.last() == c@[c@.len() - 1]);
            assert(c1.drop_last() =~= c@.subrange(a as int, c@.len() - 1));
        }
        let c2s = if c1.len() > 0 && c1.last() == ':' {
            c1.drop_last()
        } else {
            c1
        };
        assert(c2s =~= c2);
    }
    if a >= b {
        return false;
    }
    let mut i = a;
    while i < b
        invariant
            a <= i <= b <= c@.len(),
            c2 == c@.subrange(a as int, b as int),
            c2 == delimiter_core(cell@),
            forall|k: int| a <= k < i ==> c@[k] == '-',
        decreases b - i,
    {
        if c[i] != '-' {
            proof {
                assert(c@.subrange(a as int, b as int)[i - a] != '-');
            }
            return false;
        }
        i = i + 1;
    }
    proof {
        assert forall|k: int| 0 <= k < b - a implies c@.subrange(a as int, b as int)[k] == '-' by {
            assert(c@.subrange(a as int, b as int)[k] == c@[a + k]);
        }
    }
    true
}

/// A table delimiter line: it holds a `-` and every cell is a delimiter.
pub open spec fn is_table_delimiter_of(line: Seq<char>) -> bool {
    &&& line.contains('-')
    &&& table_cells(line).len() > 0
    &&& forall|k: int| 0 <= k < table_cells(line).len() ==> is_delimiter_cell_of(
        #[trigger] table_cells(line)[k],
    )
}

/// Whether a line is the delimiter row of a table.
pub fn is_table_delimiter(line: &Vec<char>) -> (r: bool)
    ensures
        r == is_table_delimiter_of(line@),
{
    if !has_char(line, '-') {
        return false;
    }
    let cells = split_table_cells(line);
    let mut i: usize = 0;
    while i < cells.len()
        invariant
            i <= cells@.len(),
            char_rows(cells@) == table_cells(line@),
            forall|k: int| 0 <= k < i ==> is_delimiter_cell_of(#[trigger] table_cells(line@)[k]),
        decreases cells@.len() - i,
    {
        proof {
            assert(table_cells(line@)[i as int] == cells@[i as int]@);
        }
        if !is_delimiter_cell(&cells[i]) {
            return false;
        }
        i = i + 1;
    }
    true
}

/// The alignment a delimiter cell gives its column.
pub open spec fn alignment_of(cell: Seq<char>) -> ColumnAlignment {
    let c = trim(cell);
    let left = c.len() > 0 && c[0] == ':';
    let right = c.len() > 0 && c.last() == ':';
    if left && right {
        ColumnAlignment::Center
    } else if right {
        ColumnAlignment::Right
    } else if left {
        ColumnAlignment::Left
    } else {
        ColumnAlignment::Unaligned
    }
}

/// The column alignments of a delimiter row.
pub open spec fn alignments_of(line: Seq<char>) -> Seq<ColumnAlignment> {
    table_cells(line).map_values(|c: Seq<char>| alignment_of(c))
}

/// The alignment of each column of a delimiter row.
pub fn parse_table_alignments(line: &Vec<char>) -> (r: Vec<ColumnAlignment>)
    ensures
        r@ == alignments_of(line@),
{
    let cells = split_table_cells(line);
    let mut r: Vec<ColumnAlignment> = Vec::new();
    let mut i: usize = 0;
    while i < cells.len()
        invariant
            i <= cells@.len(),
            char_rows(cells@) == table_cells(line@),
            r@ == alignments_of(line@).take(i as int),
        decreases cells@.len() - i,
    {
        let c = trim_chars(&cells[i]);
        let left = c.len() > 0 && c[0] == ':';
        let right = c.len() > 0 && c[c.len() - 1] == ':';
        let a = if left && right {
            ColumnAlignment::Center
        } else if right {
            ColumnAlignment::Right
        } else if left {
            ColumnAlignment::Left
        } else {
            ColumnAlignment::Unaligned
        };
        proof {
            assert(table_cells(line@)[i as int] == cells@[i as int]@);
            assert(a == alignment_of(cells@[i as int]@));
        }
        r.push(a);
        proof {
            assert(r@ =~= alignments_of(line@).take(i + 1));
        }
        i = i + 1;
    }
    proof {
        assert(alignments_of(line@).take(i as int) =~= alignments_of(line@));
    }
    r
}

/// The characters of `s` that are not white space.
pub open spec fn non_white(s: Seq<char>) -> Seq<char>
    decreases s.len(),
{
    if s.len() == 0 {
        Seq::empty()
    } else if is_white_space(s.last()) {
        non_white(s.drop_last())
    } else {
        non_white(s.drop_last()).push(s.last())
    }
}

/// A thematic break: apart from white space, three or more of the same
/// character among `-`, `*` and `_`.
pub open spec fn is_thematic_break_of(line: Seq<char>) -> bool {
    is_rule_chars(non_white(line))
}

/// Three or more of the same character among `-`, `*` and `_`.
pub open spec fn is_rule_chars(c: Seq<char>) -> bool {
    &&& c.len() >= 3
    &&& forall|k: int| 0 <= k < c.len() ==> (c[k] == '-' || c[k] == '*' || c[k] == '_')
    &&& forall|k: int| 0 <= k < c.len() ==> #[trigger] c[k] == c[0]
}

/// Whether a line is a thematic break.
pub fn is_thematic_break(line: &Vec<char>) -> (r: bool)
    ensures
        r == is_thematic_break_of(line@),
{
    let mut compact: Vec<char> = Vec::new();
    let mut i: usize = 0;
    while i < line.len()
        invariant
            i <= line@.len(),
            compact@ == non_white(line@.take(i as int)),
        decreases line@.len() - i,
    {
        proof {
            assert(line@.take(i + 1).drop_last() =~= line@.take(i as int));
            assert(line@.take(i + 1).last() == line@[i as int]);
        }
        if !white_space(line[i]) {
            compact.push(line[i]);
        }
        i = i + 1;
    }
    proof {
        assert(line@.take(i as int) =~= line@);
    }
    if compact.len() < 3 {
        return false;
    }
    let first = compact[0];
    let mut k: usize = 0;
    while k < compact.len()
        invariant
            k <= compact@.len(),
            compact@ == non_white(line@),
            compact@.len() >= 3,
            first == compact@[0],
            forall|j: int| 0 <= j < k ==> (compact@[j] == '-' || compact@[j] == '*' || compact@[j] == '_'),
            forall|j: int| 0 <= j < k ==> compact@[j] == first,
        decreases compact@.len() - k,
    {
        let c = compact[k];
        if !(c == '-' || c == '*' || c == '_') || c != first {
            proof {
                assert(compact@[k as int] == c);
            }
            return false;
        }
        k = k + 1;
    }
    true
}

/// The language of an opening code fence: after leading white space,
/// three backquotes, then a trimmed language name that holds no backquote.
pub open spec fn fence_language_of(line: Seq<char>) -> Option<Option<Seq<char>>> {
    let t = trim_start(line);
    if !starts_with(t, seq!['`', '`', '`']) {
        None
    } else {
        let language = trim(t.skip(3));
        if language.contains('`') {
            None
        } else if language.len() == 0 {
            Some(None)
        } else {
            Some(Some(language))
        }
    }
}

/// A closing code fence: after leading white space, three backquotes.
pub open spec fn is_code_fence_of(line: Seq<char>) -> bool {
    starts_with(trim_start(line), seq!['`', '`', '`'])
}

/// Whether a line closes a code block.
pub fn is_code_fence(line: &Vec<char>) -> (r: bool)
    ensures
        r == is_code_fence_of(line@),
{
    let t = trim_start_chars(line);
    let fence = ['`', '`', '`'];
    proof {
        assert(fence@ =~= seq!['`', '`', '`']);
    }
    starts_with_exec(&t, fence.as_slice())
}

/// The language of a line that opens a code block (`None` when the line
/// opens none; `Some(None)` when it names no language).
pub fn fenced_code_language(line: &Vec<char>) -> (r: Option<Option<String>>)
    ensures
        match r {
            None => fence_language_of(line@) is None,
            Some(None) => fence_language_of(line@) == Some(None::<Seq<char>>),
            Some(Some(l)) => fence_language_of(line@) == Some(Some(l@)),
        },
{
    if !is_code_fence(line) {
        return None;
    }
    let t = trim_start_chars(line);
    let rest = subvec(&t, 3, t.len());
    proof {
        assert(rest@ =~= t@.skip(3));
    }
    let language = trim_chars(&rest);
    if has_char(&language, '`') {
        None
    } else if language.len() == 0 {
        Some(None)
    } else {
        Some(Some(string_of(language.as_slice(), 0, language.len())))
    }
}


/// `s` without its trailing `\n`s.
pub open spec fn without_trailing_newlines(s: Seq<char>) -> Seq<char>
    decreases s.len(),
{
    if s.len() > 0 && s.last() == '\n' {
        without_trailing_newlines(s.drop_last())
    } else {
        s
    }
}

/// `s` without its last lines while they are blank; an all-blank text
/// becomes empty.
pub open spec fn without_blank_last_lines(s: Seq<char>) -> Seq<char>
    decreases s.len(),
{
    let k = last_index(s, '\n');
    if k < 0 {
        if trim(s).len() == 0 {
            Seq::empty()
        } else {
            s
        }
    } else if trim(s.skip(k + 1)).len() == 0 {
        proof {
            lemma_last_index(s, '\n');
        }
        without_blank_last_lines(s.take(k))
    } else {
        s
    }
}

/// A code block's text without its trailing blank lines.
pub open spec fn trimmed_code(s: Seq<char>) -> Seq<char> {
    without_blank_last_lines(without_trailing_newlines(s))
}

proof fn lemma_without_trailing_newlines(s: Seq<char>)
    ensures
        ({
            let r = without_trailing_newlines(s);
            &&& r.len() <= s.len()
            &&& r == s.take(r.len() as int)
            &&& forall|k: int| r.len() <= k < s.len() ==> #[trigger] s[k] == '\n'
            &&& r.len() == 0 || r.last() != '\n'
        }),
    decreases s.len(),
{
    if s.len() > 0 && s.last() == '\n' {
        lemma_without_trailing_newlines(s.drop_last());
        let r = without_trailing_newlines(s);
        assert(r =~= s.take(r.len() as int));
        assert forall|k: int| r.len() <= k < s.len() implies #[trigger] s[k] == '\n' by {
            if k < s.len() - 1 {
                assert(s[k] == s.drop_last()[k]);
            }
        }
    } else {
        assert(s =~= s.take(s.len() as int));
    }
}

proof fn lemma_without_blank_last_lines(s: Seq<char>)
    ensures
        ({
            let r = without_blank_last_lines(s);
            &&& r.len() <= s.len()
            &&& r == s.take(r.len() as int)
            &&& forall|k: int| r.len() <= k < s.len() ==> is_white_space(#[trigger] s[k])
            &&& r.len() == 0 || ((r.len() == s.len() || s[r.len() as int] == '\n') && trim(
                r.skip(last_index(r, '\n') + 1),
            ).len() > 0)
        }),
    decreases s.len(),
{
    lemma_last_index(s, '\n');
    let k = last_index(s, '\n');
    let r = without_blank_last_lines(s);
    if k < 0 {
        lemma_trim_empty(s);
        if trim(s).len() != 0 {
            assert(s =~= s.take(s.len() as int));
            assert(s.skip(0) =~= s);
        }
    } else if trim(s.skip(k + 1)).len() == 0 {
        let t = s.take(k);
        lemma_without_blank_last_lines(t);
        lemma_trim_empty(s.skip(k + 1));
        assert(r == without_blank_last_lines(t));
        assert(r =~= s.take(r.len() as int)) by {
            assert forall|j: int| 0 <= j < r.len() implies r[j] == s[j] by {
                assert(r[j] == t.take(r.len() as int)[j]);
            }
        }
        assert forall|j: int| r.len() <= j < s.len() implies is_white_space(#[trigger] s[j]) by {
            if j < k {
                assert(s[j] == t[j]);
            } else if j > k {
                assert(s[j] == s.skip(k + 1)[j - k - 1]);
            }
        }
        if r.len() > 0 && r.len() < t.len() {
            assert(s[r.len() as int] == t[r.len() as int]);
        }
    } else {
        assert(s =~= s.take(s.len() as int));
    }
}

/// The trimmed code of a block is the start of its text, what it leaves
/// out is white space, and unless it is empty it stops at the end of a line
/// of the text, with no line break at its end and a last line that is not
/// blank.
pub proof fn trimmed_code_keeps_the_last_written_line(c: Seq<char>)
    ensures
        ({
            let r = trimmed_code(c);
            &&& r.len() <= c.len()
            &&& r == c.take(r.len() as int)
            &&& forall|k: int| r.len() <= k < c.len() ==> is_white_space(#[trigger] c[k])
            &&& trim(c.skip(r.len() as int)).len() == 0
            &&& r.len() == 0 || ((r.len() == c.len() || c[r.len() as int] == '\n') && r.last()
                != '\n' && trim(r.skip(last_index(r, '\n') + 1)).len() > 0)
        }),
{
    let w = without_trailing_newlines(c);
    let r = trimmed_code(c);
    lemma_without_trailing_newlines(c);
    lemma_without_blank_last_lines(w);
    assert(r =~= c.take(r.len() as int)) by {
        assert forall|j: int| 0 <= j < r.len() implies r[j] == c[j] by {
            assert(r[j] == w.take(r.len() as int)[j]);
            assert(w[j] == c[j]);
        }
    }
    assert forall|k: int| r.len() <= k < c.len() implies is_white_space(#[trigger] c[k]) by {
        if k < w.len() {
            assert(w[k] == c[k]);
        } else {
            assert(c[k] == '\n');
        }
    }
    lemma_trim_empty(c.skip(r.len() as int));
    assert forall|k: int| 0 <= k < c.skip(r.len() as int).len() implies is_white_space(
        #[trigger] c.skip(r.len() as int)[k],
    ) by {
        assert(c.skip(r.len() as int)[k] == c[r.len() + k]);
    }
    if r.len() > 0 {
        if r.len() < w.len() {
            assert(w[r.len() as int] == c[r.len() as int]);
        }
        lemma_last_index(r, '\n');
        if r.last() == '\n' {
            lemma_last_index_exact(r, '\n', r.len() - 1);
            assert(r.skip(r.len() as int) =~= Seq::<char>::empty());
            lemma_trim_empty(Seq::<char>::empty());
        }
    }
}

/// Removes the trailing blank lines of a code block.
pub fn trim_trailing_blank_lines(code: &mut Vec<char>)
    ensures
        final(code)@ == trimmed_code(old(code)@),
{
    while code.len() > 0 && code[code.len() - 1] == '\n'
        invariant
            without_trailing_newlines(code@) == without_trailing_newlines(old(code)@),
        decreases code@.len(),
    {
        let ghost before = code@;
        code.pop();
        proof {
            assert(code@ =~= before.drop_last());
        }
    }
    let mut n = code.len();
    let ghost base = code@;
    proof {
        assert(base.take(n as int) =~= base);
    }
    loop
        invariant
            n <= base.len(),
            code@ == base,
            base == without_trailing_newlines(old(code)@),
            without_blank_last_lines(base.take(n as int)) == trimmed_code(old(code)@),
        decreases n,
    {
        let ghost s = base.take(n as int);
        match last_index_exec(code, n, '\n') {
            None => {
                proof {
                    lemma_trim_empty(s);
                    assert(s =~= code@.subrange(0, n as int));
                }
                if all_white_exec(code, 0, n) {
                    code.clear();
                    proof {
                        assert(code@ =~= Seq::<char>::empty());
                    }
                } else {
                    code.truncate(n);
                    proof {
                        assert(code@ =~= s);
                    }
                }
                return;
            },
            Some(k) => {
                proof {
                    lemma_last_index(s, '\n');
                    lemma_trim_empty(s.skip(k + 1));
                    assert(s.skip(k + 1) =~= code@.subrange(k + 1, n as int));
                }
                if all_white_exec(code, k + 1, n) {
                    proof {
                        assert(s.take(k as int) =~= base.take(k as int));
                    }
                    n = k;
                } else {
                    code.truncate(n);
                    proof {
                        assert(code@ =~= s);
                    }
                    return;
                }
            },
        }
    }
}


/// A link `[label](url)` at the start of `s`: the label, the url and the
/// number of characters it takes.
pub open spec fn link_at(s: Seq<char>) -> Option<(Seq<char>, Seq<char>, int)> {
    if s.len() == 0 || s[0] != '[' {
        None
    } else {
        let rest = s.skip(1);
        match find(rest, seq![']', '(']) {
            None => None,
            Some(label_end) => {
                let after = rest.skip(label_end + 2);
                match find(after, seq![')']) {
                    None => None,
                    Some(url_end) => Some(
                        (rest.take(label_end), after.take(url_end), label_end + url_end + 4),
                    ),
                }
            },
        }
    }
}

/// `n` backquotes.
pub open spec fn backquotes(n: int) -> Seq<char> {
    Seq::new(n as nat, |i: int| '`')
}

/// A code span at the start of `s`: a run of backquotes, the code, and the
/// same run again; the code and the number of characters it takes.
pub open spec fn code_span_at(s: Seq<char>) -> Option<(Seq<char>, int)> {
    let n = leading_count(s, '`');
    if n == 0 {
        None
    } else {
        let rest = s.skip(n);
        match find(rest, backquotes(n)) {
            None => None,
            Some(end) => Some((rest.take(end), n + end + n)),
        }
    }
}

/// The marker of strong text at the start of `s`.
pub open spec fn strong_marker(s: Seq<char>) -> Option<Seq<char>> {
    if starts_with(s, seq!['*', '*']) {
        Some(seq!['*', '*'])
    } else if starts_with(s, seq!['_', '_']) {
        Some(seq!['_', '_'])
    } else {
        None
    }
}

/// The marker of emphasized text at the start of `s`.
pub open spec fn emphasis_marker(s: Seq<char>) -> Option<Seq<char>> {
    if s.len() > 0 && s[0] == '*' {
        Some(seq!['*'])
    } else if s.len() > 0 && s[0] == '_' {
        Some(seq!['_'])
    } else {
        None
    }
}

/// Whether an inline marker (`` ` ``, `~~`, `*`, `_`, `[`) starts at position `k`.
pub open spec fn marker_at(s: Seq<char>, k: int) -> bool {
    ||| s[k] == '`'
    ||| s[k] == '*'
    ||| s[k] == '_'
    ||| s[k] == '['
    ||| (k + 1 < s.len() && s[k] == '~' && s[k + 1] == '~')
}

/// The first position at or after `k` where a marker starts (or the end).
pub open spec fn next_marker_from(s: Seq<char>, k: int) -> int
    decreases s.len() - k,
{
    if k < 0 || k >= s.len() {
        s.len() as int
    } else if marker_at(s, k) {
        k
    } else {
        next_marker_from(s, k + 1)
    }
}

pub proof fn lemma_next_marker_from(s: Seq<char>, k: int)
    requires
        0 <= k <= s.len(),
    ensures
        k <= next_marker_from(s, k) <= s.len(),
    decreases s.len() - k,
{
    if k < s.len() && !marker_at(s, k) {
        lemma_next_marker_from(s, k + 1);
    }
}

/// `t` added as plain text: merged into a preceding text span.
pub open spec fn push_text_spec(acc: Seq<SpanView>, t: Seq<char>) -> Seq<SpanView> {
    if t.len() == 0 {
        acc
    } else if acc.len() > 0 && acc.last() is Text {
        acc.update(acc.len() - 1, SpanView::Text(acc.last()->Text_0 + t))
    } else {
        acc.push(SpanView::Text(t))
    }
}

/// The inline spans of `rest`, after the spans `acc` already read.
pub open spec fn inline_from(acc: Seq<SpanView>, rest: Seq<char>) -> Seq<SpanView>
    decreases rest.len(),
{
    if rest.len() == 0 {
        acc
    } else {
        match link_at(rest) {
            Some((label, url, consumed)) => {
                proof {
                    lemma_link_at(rest);
                }
                inline_from(acc.push(SpanView::Link { label, url }), rest.skip(consumed))
            },
            None => match code_span_at(rest) {
                Some((code, consumed)) => {
                    proof {
                        lemma_code_span_at(rest);
                    }
                    inline_from(acc.push(SpanView::Code(code)), rest.skip(consumed))
                },
                None => if starts_with(rest, seq!['~', '~']) {
                    let strike = rest.skip(2);
                    match find(strike, seq!['~', '~']) {
                        Some(end) => {
                            proof {
                                lemma_find_from(strike, seq!['~', '~'], 0);
                            }
                            inline_from(
                                acc.push(SpanView::Strikethrough(strike.take(end))),
                                strike.skip(end + 2),
                            )
                        },
                        None => push_text_spec(acc, rest),
                    }
                } else {
                    match strong_marker(rest) {
                        Some(marker) => {
                            let strong = rest.skip(2);
                            match find(strong, marker) {
                                Some(end) => {
                                    proof {
                                        lemma_find_from(strong, marker, 0);
                                    }
                                    inline_from(
                                        acc.push(SpanView::Strong(strong.take(end))),
                                        strong.skip(end + 2),
                                    )
                                },
                                None => push_text_spec(acc, rest),
                            }
                        },
                        None => match emphasis_marker(rest) {
                            Some(marker) => {
                                let emphasis = rest.skip(1);
                                match find(emphasis, marker) {
                                    Some(end) => {
                                        proof {
                                            lemma_find_from(emphasis, marker, 0);
                                        }
                                        inline_from(
                                            acc.push(SpanView::Emphasis(emphasis.take(end))),
                                            emphasis.skip(end + 1),
                                        )
                                    },
                                    None => push_text_spec(acc, rest),
                                }
                            },
                            None => {
                                let k = next_marker_from(rest, 1);
                                proof {
                                    lemma_next_marker_from(rest, 1);
                                }
                                inline_from(push_text_spec(acc, rest.take(k)), rest.skip(k))
                            },
                        },
                    }
                },
            },
        }
    }
}

/// The inline spans of a text: links, code spans, strikethrough, strong and
/// emphasized text, and plain text between them.
pub open spec fn inline_spans(s: Seq<char>) -> Seq<SpanView> {
    inline_from(Seq::empty(), s)
}

/// No text span is empty, and no two text spans follow each other (plain
/// text is merged as it is read).
pub open spec fn merged_texts(v: Seq<SpanView>) -> bool {
    &&& forall|k: int| 0 <= k < v.len() && (#[trigger] v[k]) is Text ==> v[k]->Text_0.len() > 0
    &&& forall|k: int| 0 <= k < v.len() - 1 ==> !((#[trigger] v[k]) is Text && v[k + 1] is Text)
}

proof fn lemma_push_text_merged(acc: Seq<SpanView>, t: Seq<char>)
    requires
        merged_texts(acc),
    ensures
        merged_texts(push_text_spec(acc, t)),
{
    let r = push_text_spec(acc, t);
    if t.len() > 0 {
        if acc.len() > 0 && acc.last() is Text {
            assert forall|k: int| 0 <= k < r.len() - 1 implies !((#[trigger] r[k]) is Text && r[k + 1] is Text) by {
                assert(r[k] == acc[k]);
                if k + 1 < acc.len() - 1 {
                    assert(r[k + 1] == acc[k + 1]);
                }
            }
        } else {
            assert forall|k: int| 0 <= k < r.len() - 1 implies !((#[trigger] r[k]) is Text && r[k + 1] is Text) by {
                assert(r[k] == acc[k]);
                if k + 1 < acc.len() {
                    assert(r[k + 1] == acc[k + 1]);
                }
            }
        }
    }
}

proof fn lemma_push_span_merged(acc: Seq<SpanView>, s: SpanView)
    requires
        merged_texts(acc),
        !(s is Text),
    ensures
        merged_texts(acc.push(s)),
{
    let r = acc.push(s);
    assert forall|k: int| 0 <= k < r.len() - 1 implies !((#[trigger] r[k]) is Text && r[k + 1] is Text) by {
        assert(r[k] == acc[k]);
        if k + 1 < acc.len() {
            assert(r[k + 1] == acc[k + 1]);
        }
    }
}

proof fn lemma_inline_from_merged(acc: Seq<SpanView>, rest: Seq<char>)
    requires
        merged_texts(acc),
    ensures
        merged_texts(inline_from(acc, rest)),
    decreases rest.len(),
{
    if rest.len() > 0 {
        match link_at(rest) {
            Some((label, url, consumed)) => {
                lemma_link_at(rest);
                lemma_push_span_merged(acc, SpanView::Link { label, url });
                lemma_inline_from_merged(acc.push(SpanView::Link { label, url }), rest.skip(consumed));
            },
            None => match code_span_at(rest) {
                Some((code, consumed)) => {
                    lemma_code_span_at(rest);
                    lemma_push_span_merged(acc, SpanView::Code(code));
                    lemma_inline_from_merged(acc.push(SpanView::Code(code)), rest.skip(consumed));
                },
                None => if starts_with(rest, seq!['~', '~']) {
                    let strike = rest.skip(2);
                    match find(strike, seq!['~', '~']) {
                        Some(end) => {
                            lemma_find_from(strike, seq!['~', '~'], 0);
                            let sp = SpanView::Strikethrough(strike.take(end));
                            lemma_push_span_merged(acc, sp);
                            lemma_inline_from_merged(acc.push(sp), strike.skip(end + 2));
                        },
                        None => lemma_push_text_merged(acc, rest),
                    }
                } else {
                    match strong_marker(rest) {
                        Some(marker) => {
                            let strong = rest.skip(2);
                            match find(strong, marker) {
                                Some(end) => {
                                    lemma_find_from(strong, marker, 0);
                                    let sp = SpanView::Strong(strong.take(end));
                                    lemma_push_span_merged(acc, sp);
                                    lemma_inline_from_merged(acc.push(sp), strong.skip(end + 2));
                                },
                                None => lemma_push_text_merged(acc, rest),
                            }
                        },
                        None => match emphasis_marker(rest) {
                            Some(marker) => {
                                let emphasis = rest.skip(1);
                                match find(emphasis, marker) {
                                    Some(end) => {
                                        lemma_find_from(emphasis, marker, 0);
                                        let sp = SpanView::Emphasis(emphasis.take(end));
                                        lemma_push_span_merged(acc, sp);
                                        lemma_inline_from_merged(acc.push(sp), emphasis.skip(end + 1));
                                    },
                                    None => lemma_push_text_merged(acc, rest),
                                }
                            },
                            None => {
                                let k = next_marker_from(rest, 1);
                                lemma_next_marker_from(rest, 1);
                                lemma_push_text_merged(acc, rest.take(k));
                                lemma_inline_from_merged(push_text_spec(acc, rest.take(k)), rest.skip(k));
                            },
                        },
                    }
                },
            },
        }
    }
}

/// A closing marker `m` right after a text `x` without markers is found just
/// after `x`: `m` is one or two marker characters, and `x` does not end
/// with `~` when `m` is `~~`.
#[verifier::spinoff_prover]
proof fn lemma_find_closing(x: Seq<char>, m: Seq<char>)
    requires
        plain_inline(x),
        1 <= m.len() <= 2,
        m[0] == '`' || m[0] == '*' || m[0] == '_' || (m.len() == 2 && m[0] == '~' && m[1] == '~'),
        m[0] == '~' ==> x.len() == 0 || x.last() != '~',
    ensures
        find(x + m, m) == Some(x.len() as int),
{
    let s = x + m;
    let n = x.len() as int;
    lemma_find_from(s, m, 0);
    assert(s.subrange(n, n + m.len()) =~= m);
    assert(occurs_at(s, m, n));
    let r = find_from(s, m, 0);
    if r is None {
        assert(!occurs_at(s, m, n));
    } else {
        let j = r->Some_0;
        if j < n {
            lemma_no_marker_start(x, m, j);
        } else if j > n {
            assert(!occurs_at(s, m, n));
        }
    }
    assert(find(s, m) == r);
}

proof fn lemma_no_marker_start(x: Seq<char>, m: Seq<char>, k: int)
    requires
        plain_inline(x),
        1 <= m.len() <= 2,
        m[0] == '`' || m[0] == '*' || m[0] == '_' || (m.len() == 2 && m[0] == '~' && m[1] == '~'),
        m[0] == '~' ==> x.len() == 0 || x.last() != '~',
        0 <= k < x.len(),
    ensures
        !occurs_at(x + m, m, k),
{
    let s = x + m;
    assert(!marker_at(x, k));
    if occurs_at(s, m, k) {
        let w = s.subrange(k, k + m.len());
        assert(w[0] == s[k]);
        assert(s[k] == x[k]);
        if m[0] == '~' {
            assert(w[1] == s[k + 1]);
            if k + 1 < x.len() {
                assert(s[k + 1] == x[k + 1]);
            } else {
                assert(x.last() == x[k]);
            }
        }
    }
}

/// A pattern `m` after a text `x` that lacks its first character is found
/// just after `x`, whatever follows.
#[verifier::spinoff_prover]
proof fn lemma_find_after(x: Seq<char>, m: Seq<char>, y: Seq<char>)
    requires
        m.len() > 0,
        !x.contains(m[0]),
    ensures
        find(x + m + y, m) == Some(x.len() as int),
{
    let s = x + m + y;
    let n = x.len() as int;
    lemma_find_from(s, m, 0);
    assert(s.subrange(n, n + m.len()) =~= m);
    assert(occurs_at(s, m, n));
    let r = find_from(s, m, 0);
    if r is None {
        assert(!occurs_at(s, m, n));
    } else {
        let j = r->Some_0;
        if j < n {
            assert(s.subrange(j, j + m.len())[0] == s[j]);
            assert(s[j] == x[j]);
        } else if j > n {
            assert(!occurs_at(s, m, n));
        }
    }
    assert(find(s, m) == r);
}

/// A link written `[label](url)`, with no `]` in the label and no `)` in
/// the url, is read as one link span with that label and url.
pub proof fn link_is_one_span(label: Seq<char>, url: Seq<char>)
    requires
        !label.contains(']'),
        !url.contains(')'),
    ensures
        inline_spans(seq!['['] + label + seq![']', '('] + url + seq![')']) == seq![
            SpanView::Link { label, url },
        ],
{
    let s = seq!['['] + label + seq![']', '('] + url + seq![')'];
    let rest = s.skip(1);
    assert(rest =~= label + seq![']', '('] + (url + seq![')']));
    lemma_find_after(label, seq![']', '('], url + seq![')']);
    let after = rest.skip((label.len() + 2) as int);
    assert(after =~= url + seq![')'] + Seq::<char>::empty());
    lemma_find_after(url, seq![')'], Seq::<char>::empty());
    assert(rest.take(label.len() as int) =~= label);
    assert(after.take(url.len() as int) =~= url);
    assert(s[0] == '[');
    let consumed = label.len() + url.len() + 4;
    assert(link_at(s) == Some((label, url, consumed as int)));
    assert(s.skip(consumed as int) =~= Seq::<char>::empty());
    let one = seq![SpanView::Link { label, url }];
    assert(Seq::<SpanView>::empty().push(SpanView::Link { label, url }) =~= one);
    assert(inline_from(one, Seq::<char>::empty()) == one);
    assert(inline_from(Seq::empty(), s) == inline_from(one, s.skip(consumed as int)));
}

/// Text wrapped in a marker, with no marker inside, is read as one span:
/// `**x**` and `__x__` as strong text, `*x*` and `_x_` as emphasized text,
/// `~~x~~` (when `x` does not end with `~`) as struck-through text and
/// `` `x` `` as code, each holding exactly `x`.
pub proof fn wrapped_text_is_one_span(x: Seq<char>)
    requires
        plain_inline(x),
        x.len() > 0,
    ensures
        inline_spans(seq!['*', '*'] + x + seq!['*', '*']) == seq![SpanView::Strong(x)],
        inline_spans(seq!['_', '_'] + x + seq!['_', '_']) == seq![SpanView::Strong(x)],
        inline_spans(seq!['*'] + x + seq!['*']) == seq![SpanView::Emphasis(x)],
        inline_spans(seq!['_'] + x + seq!['_']) == seq![SpanView::Emphasis(x)],
        x.last() != '~' ==> inline_spans(seq!['~', '~'] + x + seq!['~', '~']) == seq![
            SpanView::Strikethrough(x),
        ],
        inline_spans(seq!['`'] + x + seq!['`']) == seq![SpanView::Code(x)],
{
    assert(!marker_at(x, 0));
    lemma_strong_wrapped(x, '*');
    lemma_strong_wrapped(x, '_');
    lemma_emphasis_wrapped(x, '*');
    lemma_emphasis_wrapped(x, '_');
    if x.last() != '~' {
        lemma_strike_wrapped(x);
    }
    lemma_code_wrapped(x);
}

proof fn lemma_strong_wrapped(x: Seq<char>, c: char)
    requires
        plain_inline(x),
        x.len() > 0,
        c == '*' || c == '_',
    ensures
        inline_spans(seq![c, c] + x + seq![c, c]) == seq![SpanView::Strong(x)],
{
    let m = seq![c, c];
    let s = m + x + m;
    assert(s[0] == c && s[1] == c);
    assert(link_at(s) is None);
    assert(leading_count(s, '`') == 0);
    assert(code_span_at(s) is None);
    assert(!starts_with(s, seq!['~', '~']));
    assert(s.take(2) =~= m);
    assert(strong_marker(s) == Some(m));
    let strong = s.skip(2);
    assert(strong =~= x + m);
    lemma_find_closing(x, m);
    assert(strong.take(x.len() as int) =~= x);
    assert(strong.skip((x.len() + 2) as int) =~= Seq::<char>::empty());
    assert(inline_from(seq![SpanView::Strong(x)], Seq::<char>::empty()) == seq![SpanView::Strong(x)]);
    assert(Seq::<SpanView>::empty().push(SpanView::Strong(x)) =~= seq![SpanView::Strong(x)]);
}

proof fn lemma_emphasis_wrapped(x: Seq<char>, c: char)
    requires
        plain_inline(x),
        x.len() > 0,
        c == '*' || c == '_',
    ensures
        inline_spans(seq![c] + x + seq![c]) == seq![SpanView::Emphasis(x)],
{
    let m = seq![c];
    let s = m + x + m;
    assert(s[0] == c);
    assert(s[1] == x[0]);
    assert(!marker_at(x, 0));
    assert(link_at(s) is None);
    assert(leading_count(s, '`') == 0);
    assert(code_span_at(s) is None);
    assert(!starts_with(s, seq!['~', '~']));
    assert(!starts_with(s, seq!['*', '*']));
    assert(!starts_with(s, seq!['_', '_']));
    assert(strong_marker(s) is None);
    assert(emphasis_marker(s) == Some(m));
    let emphasis = s.skip(1);
    assert(emphasis =~= x + m);
    lemma_find_closing(x, m);
    assert(emphasis.take(x.len() as int) =~= x);
    assert(emphasis.skip((x.len() + 1) as int) =~= Seq::<char>::empty());
    assert(inline_from(seq![SpanView::Emphasis(x)], Seq::<char>::empty()) == seq![SpanView::Emphasis(x)]);
    assert(Seq::<SpanView>::empty().push(SpanView::Emphasis(x)) =~= seq![SpanView::Emphasis(x)]);
}

proof fn lemma_strike_wrapped(x: Seq<char>)
    requires
        plain_inline(x),
        x.len() > 0,
        x.last() != '~',
    ensures
        inline_spans(seq!['~', '~'] + x + seq!['~', '~']) == seq![SpanView::Strikethrough(x)],
{
    let m = seq!['~', '~'];
    let s = m + x + m;
    assert(s[0] == '~' && s[1] == '~');
    assert(link_at(s) is None);
    assert(leading_count(s, '`') == 0);
    assert(code_span_at(s) is None);
    assert(s.take(2) =~= m);
    assert(starts_with(s, m));
    let strike = s.skip(2);
    assert(strike =~= x + m);
    lemma_find_closing(x, m);
    assert(strike.take(x.len() as int) =~= x);
    assert(strike.skip((x.len() + 2) as int) =~= Seq::<char>::empty());
    assert(inline_from(seq![SpanView::Strikethrough(x)], Seq::<char>::empty()) == seq![SpanView::Strikethrough(x)]);
    assert(Seq::<SpanView>::empty().push(SpanView::Strikethrough(x)) =~= seq![SpanView::Strikethrough(x)]);
}

proof fn lemma_code_wrapped(x: Seq<char>)
    requires
        plain_inline(x),
        x.len() > 0,
    ensures
        inline_spans(seq!['`'] + x + seq!['`']) == seq![SpanView::Code(x)],
{
    let m = seq!['`'];
    let s = m + x + m;
    assert(s[0] == '`');
    assert(s[1] == x[0]);
    assert(!marker_at(x, 0));
    assert(link_at(s) is None);
    assert(s.drop_first()[0] == x[0]);
    assert(leading_count(s.drop_first(), '`') == 0);
    assert(leading_count(s, '`') == 1);
    assert(backquotes(1) =~= m);
    let rest = s.skip(1);
    assert(rest =~= x + m);
    lemma_find_closing(x, m);
    assert(rest.take(x.len() as int) =~= x);
    assert(code_span_at(s) == Some((x, (1 + x.len() + 1) as int)));
    assert(s.skip((x.len() + 2) as int) =~= Seq::<char>::empty());
    assert(inline_from(seq![SpanView::Code(x)], Seq::<char>::empty()) == seq![SpanView::Code(x)]);
    assert(Seq::<SpanView>::empty().push(SpanView::Code(x)) =~= seq![SpanView::Code(x)]);
}

/// Whether `s` holds no inline marker: no `` ` ``, `*`, `_`, `[` and no `~~`.
pub open spec fn plain_inline(s: Seq<char>) -> bool {
    forall|k: int| 0 <= k < s.len() ==> !marker_at(s, k)
}

proof fn lemma_no_marker_from(s: Seq<char>, k: int)
    requires
        0 <= k <= s.len(),
        plain_inline(s),
    ensures
        next_marker_from(s, k) == s.len(),
    decreases s.len() - k,
{
    if k < s.len() {
        lemma_no_marker_from(s, k + 1);
    }
}

/// Plain text is read as such: the spans of a text never hold an empty text
/// span nor two text spans in a row, and a text without inline markers is a
/// single text span (no span when it is empty).
pub proof fn inline_spans_merge_plain_text(s: Seq<char>)
    ensures
        merged_texts(inline_spans(s)),
        plain_inline(s) ==> inline_spans(s) == if s.len() == 0 {
            Seq::<SpanView>::empty()
        } else {
            seq![SpanView::Text(s)]
        },
{
    lemma_inline_from_merged(Seq::empty(), s);
    if plain_inline(s) && s.len() > 0 {
        assert(!marker_at(s, 0));
        assert(leading_count(s, '`') == 0);
        lemma_no_marker_from(s, 1);
        assert(s.take(s.len() as int) =~= s);
        assert(s.skip(s.len() as int) =~= Seq::<char>::empty());
        let acc = push_text_spec(Seq::empty(), s);
        assert(acc =~= seq![SpanView::Text(s)]);
        assert(inline_from(acc, s.skip(s.len() as int)) == acc);
        assert(link_at(s) is None);
        assert(code_span_at(s) is None);
        assert(!starts_with(s, seq!['~', '~']));
        assert(strong_marker(s) is None);
        assert(emphasis_marker(s) is None);
        assert(inline_from(Seq::empty(), s) == inline_from(acc, s.skip(s.len() as int)));
    }
}

pub proof fn lemma_link_at(s: Seq<char>)
    ensures
        link_at(s) matches Some((label, url, consumed)) ==> 4 <= consumed <= s.len(),
{
    if s.len() > 0 && s[0] == '[' {
        let rest = s.skip(1);
        lemma_find_from(rest, seq![']', '('], 0);
        if let Some(label_end) = find(rest, seq![']', '(']) {
            let after = rest.skip(label_end + 2);
            lemma_find_from(after, seq![')'], 0);
        }
    }
}

pub proof fn lemma_code_span_at(s: Seq<char>)
    ensures
        code_span_at(s) matches Some((code, consumed)) ==> 2 <= consumed <= s.len(),
{
    let n = leading_count(s, '`');
    lemma_leading_count_bound(s, '`');
    if n > 0 {
        lemma_find_from(s.skip(n), backquotes(n), 0);
    }
}

pub proof fn lemma_leading_count_bound(s: Seq<char>, c: char)
    ensures
        0 <= leading_count(s, c) <= s.len(),
    decreases s.len(),
{
    if s.len() > 0 && s[0] == c {
        lemma_leading_count_bound(s.drop_first(), c);
    }
}


/// Adds `t` as plain text, merged into a preceding text span.
pub fn push_text(spans: &mut Vec<MarkdownSpan>, t: &Vec<char>)
    ensures
        spans_view(final(spans)@) == push_text_spec(spans_view(old(spans)@), t@),
{
    if t.len() == 0 {
        return;
    }
    let text = string_of(t.as_slice(), 0, t.len());
    proof {
        assert(t@.subrange(0, t@.len() as int) =~= t@);
    }
    let n = spans.len();
    if n > 0 {
        match &spans[n - 1] {
            MarkdownSpan::Text(_) => {
                let ghost before = spans_view(spans@);
                let last = spans.pop();
                match last {
                    Some(MarkdownSpan::Text(mut previous)) => {
                        let ghost prev = previous@;
                        previous.append(text.as_str());
                        spans.push(MarkdownSpan::Text(previous));
                        proof {
                            assert(spans_view(spans@) =~= before.update(
                                before.len() - 1,
                                SpanView::Text(prev + t@),
                            ));
                        }
                    },
                    _ => {},
                }
                return;
            },
            _ => {},
        }
    }
    let ghost before = spans_view(spans@);
    spans.push(MarkdownSpan::Text(text));
    proof {
        assert(spans_view(spans@) =~= before.push(SpanView::Text(t@)));
    }
}

/// A link at position `pos`: the end of its label, and the start and end of
/// its url.
pub fn parse_link(v: &Vec<char>, pos: usize) -> (r: Option<(usize, usize, usize)>)
    requires
        pos < v@.len(),
    ensures
        match r {
            Some((label_end, url_start, url_end)) => {
                &&& pos + 1 <= label_end
                &&& label_end + 2 == url_start
                &&& url_start <= url_end < v@.len()
                &&& link_at(v@.skip(pos as int)) == Some(
                    (
                        v@.subrange(pos + 1, label_end as int),
                        v@.subrange(url_start as int, url_end as int),
                        url_end + 1 - pos,
                    ),
                )
            },
            None => link_at(v@.skip(pos as int)) is None,
        },
{
    let ghost s = v@.skip(pos as int);
    let len = v.len();
    if v[pos] != '[' {
        return None;
    }
    let open = vec![']', '('];
    let close = vec![')'];
    proof {
        assert(open@ =~= seq![']', '(']);
        assert(close@ =~= seq![')']);
        assert(s.skip(1) =~= v@.skip(pos + 1));
        lemma_find_skip(v@, open@, pos + 1, 0);
        lemma_find_from(v@, open@, pos + 1);
    }
    let label_end = match find_from_exec(v, &open, pos + 1) {
        Some(e) => e,
        None => {
            return None;
        },
    };
    let url_start = label_end + 2;
    proof {
        let rest = s.skip(1);
        assert(rest.skip(label_end - pos - 1 + 2) =~= v@.skip(url_start as int));
        lemma_find_skip(v@, close@, url_start as int, 0);
        lemma_find_from(v@, close@, url_start as int);
    }
    let url_end = match find_from_exec(v, &close, url_start) {
        Some(e) => e,
        None => {
            return None;
        },
    };
    proof {
        let rest = s.skip(1);
        assert(rest.take(label_end - pos - 1) =~= v@.subrange(pos + 1, label_end as int));
        assert(v@.skip(url_start as int).take(url_end - url_start) =~= v@.subrange(
            url_start as int,
            url_end as int,
        ));
    }
    Some((label_end, url_start, url_end))
}

/// A code span at position `pos`: the start and end of its code, and where
/// it ends.
pub fn parse_code_span(v: &Vec<char>, pos: usize) -> (r: Option<(usize, usize, usize)>)
    requires
        pos < v@.len(),
    ensures
        match r {
            Some((code_start, code_end, end)) => {
                &&& pos < code_start <= code_end < end <= v@.len()
                &&& code_span_at(v@.skip(pos as int)) == Some(
                    (v@.subrange(code_start as int, code_end as int), end - pos),
                )
            },
            None => code_span_at(v@.skip(pos as int)) is None,
        },
{
    let ghost s = v@.skip(pos as int);
    let len = v.len();
    let mut n: usize = 0;
    while pos + n < len && v[pos + n] == '`'
        invariant
            len == v@.len(),
            pos + n <= v@.len(),
            forall|k: int| 0 <= k < n ==> s[k] == '`',
            s == v@.skip(pos as int),
        decreases v@.len() - pos - n,
    {
        n = n + 1;
    }
    proof {
        if pos + n < v@.len() {
            assert(s[n as int] == v@[pos + n]);
        }
        lemma_leading_count(s, '`', n as int);
    }
    if n == 0 {
        return None;
    }
    let mut delim: Vec<char> = Vec::new();
    let mut k: usize = 0;
    while k < n
        invariant
            k <= n,
            delim@ == backquotes(k as int),
        decreases n - k,
    {
        delim.push('`');
        proof {
            assert(delim@ =~= backquotes(k + 1));
        }
        k = k + 1;
    }
    let code_start = pos + n;
    proof {
        assert(s.skip(n as int) =~= v@.skip(code_start as int));
        lemma_find_skip(v@, delim@, code_start as int, 0);
        lemma_find_from(v@, delim@, code_start as int);
    }
    match find_from_exec(v, &delim, code_start) {
        Some(e) => {
            proof {
                assert(v@.skip(code_start as int).take(e - code_start) =~= v@.subrange(
                    code_start as int,
                    e as int,
                ));
            }
            Some((code_start, e, e + n))
        },
        None => None,
    }
}

/// The first marker position at or after `from` in `v` (or its end).
fn next_marker_exec(v: &Vec<char>, pos: usize, from: usize) -> (r: usize)
    requires
        pos < from <= v@.len(),
    ensures
        r == pos + next_marker_from(v@.skip(pos as int), from - pos),
        from <= r <= v@.len(),
{
    let ghost s = v@.skip(pos as int);
    let mut k = from;
    while k < v.len() && !(v[k] == '`' || v[k] == '*' || v[k] == '_' || v[k] == '[' || (k + 1
        < v.len() && v[k] == '~' && v[k + 1] == '~'))
        invariant
            pos < from <= k <= v@.len(),
            s == v@.skip(pos as int),
            next_marker_from(s, k - pos) == next_marker_from(s, from - pos),
        decreases v@.len() - k,
    {
        proof {
            assert(s[k - pos] == v@[k as int]);
            if k + 1 < v@.len() {
                assert(s[k - pos + 1] == v@[k + 1]);
            }
        }
        k = k + 1;
    }
    proof {
        if k < v@.len() {
            assert(s[k - pos] == v@[k as int]);
            if k + 1 < v@.len() {
                assert(s[k - pos + 1] == v@[k + 1]);
            }
        }
    }
    k
}

/// Parses the inline spans of a text.
#[verifier::rlimit(40)]
pub fn parse_inline(input: &Vec<char>) -> (r: Vec<MarkdownSpan>)
    ensures
        spans_view(r@) == inline_spans(input@),
{
    let mut spans: Vec<MarkdownSpan> = Vec::new();
    let mut pos: usize = 0;
    let len = input.len();
    proof {
        assert(spans_view(spans@) =~= Seq::<SpanView>::empty());
        assert(input@.skip(0) =~= input@);
    }
    while pos < len
        invariant
            pos <= len,
            len == input@.len(),
            inline_from(spans_view(spans@), input@.skip(pos as int)) == inline_spans(input@),
        decreases len - pos,
    {
        let ghost rest = input@.skip(pos as int);
        let ghost acc = spans_view(spans@);
        match parse_link(input, pos) {
            Some((label_end, url_start, url_end)) => {
                let label = string_of(input.as_slice(), pos + 1, label_end);
                let url = string_of(input.as_slice(), url_start, url_end);
                spans.push(MarkdownSpan::Link { label, url });
                proof {
                    assert(spans_view(spans@) =~= acc.push(
                        SpanView::Link { label: label@, url: url@ },
                    ));
                    assert(rest.skip(url_end + 1 - pos) =~= input@.skip(url_end + 1));
                }
                pos = url_end + 1;
                continue;
            },
            None => {},
        }
        match parse_code_span(input, pos) {
            Some((code_start, code_end, end)) => {
                let code = string_of(input.as_slice(), code_start, code_end);
                spans.push(MarkdownSpan::Code(code));
                proof {
                    assert(spans_view(spans@) =~= acc.push(SpanView::Code(code@)));
                    assert(rest.skip(end - pos) =~= input@.skip(end as int));
                }
                pos = end;
                continue;
            },
            None => {},
        }
        let two_tildes = vec!['~', '~'];
        proof {
            assert(two_tildes@ =~= seq!['~', '~']);
        }
        if pos + 1 < len && input[pos] == '~' && input[pos + 1] == '~' {
            proof {
                assert(rest.take(2) =~= seq!['~', '~']);
                assert(rest.skip(2) =~= input@.skip(pos + 2));
                lemma_find_skip(input@, two_tildes@, pos + 2, 0);
                lemma_find_from(input@, two_tildes@, pos + 2);
            }
            match find_from_exec(input, &two_tildes, pos + 2) {
                Some(e) => {
                    let t = string_of(input.as_slice(), pos + 2, e);
                    spans.push(MarkdownSpan::Strikethrough(t));
                    proof {
                        assert(input@.skip(pos + 2).take(e - pos - 2) =~= t@);
                        assert(spans_view(spans@) =~= acc.push(SpanView::Strikethrough(t@)));
                        assert(input@.skip(pos + 2).skip(e - pos - 2 + 2) =~= input@.skip(e + 2));
                    }
                    pos = e + 2;
                    continue;
                },
                None => {
                    let tail = subvec(input, pos, len);
                    proof {
                        assert(tail@ =~= rest);
                    }
                    push_text(&mut spans, &tail);
                    proof {
                        assert(input@.skip(len as int) =~= Seq::<char>::empty());
                    }
                    pos = len;
                    continue;
                },
            }
        }
        proof {
            if rest.len() >= 2 {
                assert(rest.take(2)[0] == input@[pos as int]);
                assert(rest.take(2)[1] == input@[pos + 1]);
            }
        }
        if pos + 1 < len && ((input[pos] == '*' && input[pos + 1] == '*') || (input[pos] == '_'
            && input[pos + 1] == '_')) {
            let marker = if input[pos] == '*' {
                vec!['*', '*']
            } else {
                vec!['_', '_']
            };
            proof {
                if input@[pos as int] == '*' {
                    assert(marker@ =~= seq!['*', '*']);
                    assert(rest.take(2) =~= seq!['*', '*']);
                } else {
                    assert(marker@ =~= seq!['_', '_']);
                    assert(rest.take(2) =~= seq!['_', '_']);
                    if starts_with(rest, seq!['*', '*']) {
                        assert(rest.take(2)[0] == '*');
                    }
                }
                assert(rest.skip(2) =~= input@.skip(pos + 2));
                lemma_find_skip(input@, marker@, pos + 2, 0);
                lemma_find_from(input@, marker@, pos + 2);
            }
            match find_from_exec(input, &marker, pos + 2) {
                Some(e) => {
                    let t = string_of(input.as_slice(), pos + 2, e);
                    spans.push(MarkdownSpan::Strong(t));
                    proof {
                        assert(input@.skip(pos + 2).take(e - pos - 2) =~= t@);
                        assert(spans_view(spans@) =~= acc.push(SpanView::Strong(t@)));
                        assert(input@.skip(pos + 2).skip(e - pos - 2 + 2) =~= input@.skip(e + 2));
                    }
                    pos = e + 2;
                    continue;
                },
                None => {
                    let tail = subvec(input, pos, len);
                    proof {
                        assert(tail@ =~= rest);
                    }
                    push_text(&mut spans, &tail);
                    proof {
                        assert(input@.skip(len as int) =~= Seq::<char>::empty());
                    }
                    pos = len;
                    continue;
                },
            }
        }
        proof {
            if rest.len() >= 2 {
                if starts_with(rest, seq!['*', '*']) {
                    assert(rest.take(2)[0] == '*' && rest.take(2)[1] == '*');
                }
                if starts_with(rest, seq!['_', '_']) {
                    assert(rest.take(2)[0] == '_' && rest.take(2)[1] == '_');
                }
            }
        }
        if input[pos] == '*' || input[pos] == '_' {
            let marker = if input[pos] == '*' {
                vec!['*']
            } else {
                vec!['_']
            };
            proof {
                if input@[pos as int] == '*' {
                    assert(marker@ =~= seq!['*']);
                } else {
                    assert(marker@ =~= seq!['_']);
                }
                assert(rest.skip(1) =~= input@.skip(pos + 1));
                lemma_find_skip(input@, marker@, pos + 1, 0);
                lemma_find_from(input@, marker@, pos + 1);
            }
            match find_from_exec(input, &marker, pos + 1) {
                Some(e) => {
                    let t = string_of(input.as_slice(), pos + 1, e);
                    spans.push(MarkdownSpan::Emphasis(t));
                    proof {
                        assert(input@.skip(pos + 1).take(e - pos - 1) =~= t@);
                        assert(spans_view(spans@) =~= acc.push(SpanView::Emphasis(t@)));
                        assert(input@.skip(pos + 1).skip(e - pos - 1 + 1) =~= input@.skip(e + 1));
                    }
                    pos = e + 1;
                    continue;
                },
                None => {
                    let tail = subvec(input, pos, len);
                    proof {
                        assert(tail@ =~= rest);
                    }
                    push_text(&mut spans, &tail);
                    proof {
                        assert(input@.skip(len as int) =~= Seq::<char>::empty());
                    }
                    pos = len;
                    continue;
                },
            }
        }
        let k = next_marker_exec(input, pos, pos + 1);
        let piece = subvec(input, pos, k);
        push_text(&mut spans, &piece);
        proof {
            assert(piece@ =~= rest.take(k - pos));
            assert(rest.skip(k - pos) =~= input@.skip(k as int));
        }
        pos = k;
    }
    proof {
        assert(input@.skip(pos as int) =~= Seq::<char>::empty());
    }
    spans
}


/// The spans of each cell of a table line, made exactly `columns` wide:
/// missing cells are empty, extra cells are dropped.
pub open spec fn table_row_of(line: Seq<char>, columns: int) -> Seq<Seq<SpanView>> {
    let cells = table_cells(line).map_values(|c: Seq<char>| inline_spans(trim(c)));
    if cells.len() >= columns {
        cells.take(columns)
    } else {
        cells + Seq::new((columns - cells.len()) as nat, |i: int| Seq::<SpanView>::empty())
    }
}

/// Parses a table line into exactly `columns` cells.
pub fn parse_table_row(line: &Vec<char>, columns: usize) -> (r: Vec<Vec<MarkdownSpan>>)
    ensures
        row_view(r@) == table_row_of(line@, columns as int),
        r@.len() == columns,
{
    let cells = split_table_cells(line);
    let ghost parsed = table_cells(line@).map_values(|c: Seq<char>| inline_spans(trim(c)));
    let mut r: Vec<Vec<MarkdownSpan>> = Vec::new();
    let mut i: usize = 0;
    while i < cells.len() && i < columns
        invariant
            i <= cells@.len(),
            i <= columns,
            char_rows(cells@) == table_cells(line@),
            parsed == table_cells(line@).map_values(|c: Seq<char>| inline_spans(trim(c))),
            row_view(r@) == parsed.take(i as int),
        decreases cells@.len() - i,
    {
        let cell = trim_chars(&cells[i]);
        let spans = parse_inline(&cell);
        let ghost before = row_view(r@);
        r.push(spans);
        proof {
            assert(table_cells(line@)[i as int] == cells@[i as int]@);
            assert(row_view(r@) =~= before.push(spans_view(spans@)));
            assert(row_view(r@) =~= parsed.take(i + 1));
        }
        i = i + 1;
    }
    if i < columns {
        proof {
            assert(parsed.take(i as int) =~= parsed);
            assert(parsed + Seq::new(0, |k: int| Seq::<SpanView>::empty()) =~= parsed);
        }
        while i < columns
            invariant
                i <= columns,
                parsed.len() <= i,
                parsed == table_cells(line@).map_values(|c: Seq<char>| inline_spans(trim(c))),
                row_view(r@) == parsed + Seq::new(
                    (i - parsed.len()) as nat,
                    |k: int| Seq::<SpanView>::empty(),
                ),
            decreases columns - i,
        {
            let ghost before = row_view(r@);
            let empty: Vec<MarkdownSpan> = Vec::new();
            r.push(empty);
            proof {
                assert(spans_view(empty@) =~= Seq::<SpanView>::empty());
                assert(row_view(r@) =~= before.push(Seq::<SpanView>::empty()));
                let f = |k: int| Seq::<SpanView>::empty();
                assert(Seq::new((i + 1 - parsed.len()) as nat, f) =~= Seq::new(
                    (i - parsed.len()) as nat,
                    f,
                ).push(Seq::<SpanView>::empty()));
                assert(row_view(r@) =~= parsed + Seq::new(
                    (i + 1 - parsed.len()) as nat,
                    |k: int| Seq::<SpanView>::empty(),
                ));
            }
            i = i + 1;
        }
    }
    proof {
        if parsed.len() >= columns {
            assert(row_view(r@) == parsed.take(columns as int));
        } else {
            assert(parsed.take(parsed.len() as int) =~= parsed);
        }
    }
    r
}

/// Whether a line starts a block other than a paragraph (and so ends one).
pub open spec fn starts_special_of(line: Seq<char>) -> bool {
    ||| trim_start(line).len() == 0
    ||| fence_language_of(line) is Some
    ||| heading_of(line) is Some
    ||| bullet_of(line) is Some
    ||| ordered_of(line) is Some
    ||| blockquote_of(line) is Some
    ||| is_thematic_break_of(trim_start(line))
}

/// Whether a line starts a block other than a paragraph.
pub fn starts_special_block(line: &Vec<char>) -> (r: bool)
    ensures
        r == starts_special_of(line@),
{
    let trimmed = trim_start_chars(line);
    trimmed.len() == 0 || fenced_code_language(line).is_some() || heading_text(line).is_some()
        || bullet_text(line).is_some() || ordered_bullet_text(line).is_some() || blockquote_text(
        line,
    ).is_some() || is_thematic_break(&trimmed)
}

/// The blocks without a final blank block.
pub open spec fn without_pending_blank(blocks: Seq<BlockView>) -> Seq<BlockView> {
    if blocks.len() > 0 && blocks.last() is Blank {
        blocks.drop_last()
    } else {
        blocks
    }
}

/// Drops a blank block that directly precedes a code block.
pub fn push_pending_blank(blocks: &mut Vec<MarkdownBlock>)
    ensures
        blocks_view(final(blocks)@) == without_pending_blank(blocks_view(old(blocks)@)),
{
    let n = blocks.len();
    if n > 0 {
        let is_blank = match &blocks[n - 1] {
            MarkdownBlock::Blank => true,
            _ => false,
        };
        if is_blank {
            let ghost before = blocks@;
            blocks.pop();
            proof {
                assert(blocks_view(blocks@) =~= blocks_view(before).drop_last());
            }
        }
    }
}


/// Number of leading lines of `lines` that satisfy `pred`.
pub open spec fn leading_lines(lines: Seq<Seq<char>>, pred: spec_fn(Seq<char>) -> bool) -> int
    decreases lines.len(),
{
    if lines.len() > 0 && pred(lines[0]) {
        1 + leading_lines(lines.drop_first(), pred)
    } else {
        0
    }
}

proof fn lemma_leading_lines(lines: Seq<Seq<char>>, pred: spec_fn(Seq<char>) -> bool, n: int)
    requires
        0 <= n <= lines.len(),
        forall|k: int| 0 <= k < n ==> pred(#[trigger] lines[k]),
        n < lines.len() ==> !pred(lines[n]),
    ensures
        leading_lines(lines, pred) == n,
    decreases n,
{
    if n > 0 {
        assert forall|k: int| 0 <= k < n - 1 implies pred(#[trigger] lines.drop_first()[k]) by {
            assert(lines.drop_first()[k] == lines[k + 1]);
        }
        if n < lines.len() {
            assert(lines.drop_first()[n - 1] == lines[n]);
        }
        lemma_leading_lines(lines.drop_first(), pred, n - 1);
        assert(pred(lines[0]));
    }
}

/// Lines that belong to an open code block.
pub open spec fn in_code_block() -> spec_fn(Seq<char>) -> bool {
    |l: Seq<char>| !is_code_fence_of(l)
}

/// Lines that continue a table.
pub open spec fn continues_table() -> spec_fn(Seq<char>) -> bool {
    |l: Seq<char>| trim(l).len() > 0 && l.contains('|')
}

/// Lines that continue a paragraph.
pub open spec fn continues_paragraph() -> spec_fn(Seq<char>) -> bool {
    |l: Seq<char>| trim(l).len() > 0 && !starts_special_of(l)
}

/// The text of a code block from its lines: joined by `\n`, except that
/// nothing is put before a line while the text so far is empty.
pub open spec fn join_code(lines: Seq<Seq<char>>) -> Seq<char>
    decreases lines.len(),
{
    if lines.len() == 0 {
        Seq::empty()
    } else {
        let code = join_code(lines.drop_last());
        if code.len() == 0 {
            lines.last()
        } else {
            code + seq!['\n'] + lines.last()
        }
    }
}

/// The text of a paragraph: its first line, then each following line
/// trimmed, after a `\n`.
pub open spec fn join_paragraph(first: Seq<char>, lines: Seq<Seq<char>>) -> Seq<char>
    decreases lines.len(),
{
    if lines.len() == 0 {
        first
    } else {
        join_paragraph(first, lines.drop_last()) + seq!['\n'] + trim(lines.last())
    }
}

/// The blocks of `lines`, after the blocks `blocks` already read.
pub open spec fn parse_lines(blocks: Seq<BlockView>, lines: Seq<Seq<char>>) -> Seq<BlockView>
    decreases lines.len(),
{
    if lines.len() == 0 {
        blocks
    } else {
        let line = lines[0];
        let rest = lines.drop_first();
        match fence_language_of(line) {
            Some(language) => {
                let n = leading_lines(rest, in_code_block());
                proof {
                    lemma_leading_lines_bound(rest, in_code_block());
                }
                let code = trimmed_code(join_code(rest.take(n)));
                let after = if n < rest.len() {
                    rest.skip(n + 1)
                } else {
                    rest.skip(n)
                };
                parse_lines(
                    without_pending_blank(blocks).push(BlockView::CodeBlock { language, code }),
                    after,
                )
            },
            None => if trim(line).len() == 0 {
                parse_lines(blocks.push(BlockView::Blank), rest)
            } else if line.contains('|') && rest.len() > 0 && is_table_delimiter_of(rest[0]) {
                let alignments = alignments_of(rest[0]);
                let body = rest.drop_first();
                let m = leading_lines(body, continues_table());
                proof {
                    lemma_leading_lines_bound(body, continues_table());
                }
                let columns = alignments.len() as int;
                parse_lines(
                    blocks.push(
                        BlockView::Table {
                            alignments,
                            header: table_row_of(line, columns),
                            rows: body.take(m).map_values(|l: Seq<char>| table_row_of(l, columns)),
                        },
                    ),
                    body.skip(m),
                )
            } else {
                match heading_of(line) {
                    Some((level, text)) => parse_lines(
                        blocks.push(BlockView::Heading { level, spans: inline_spans(text) }),
                        rest,
                    ),
                    None => match task_of(line) {
                        Some((checked, text)) => parse_lines(
                            blocks.push(BlockView::TaskItem { checked, spans: inline_spans(text) }),
                            rest,
                        ),
                        None => match bullet_of(line) {
                            Some(text) => parse_lines(
                                blocks.push(BlockView::Bullet(inline_spans(text))),
                                rest,
                            ),
                            None => match ordered_of(line) {
                                Some((number, text)) => parse_lines(
                                    blocks.push(
                                        BlockView::OrderedBullet {
                                            number,
                                            spans: inline_spans(text),
                                        },
                                    ),
                                    rest,
                                ),
                                None => match blockquote_of(line) {
                                    Some(text) => parse_lines(
                                        blocks.push(BlockView::Blockquote(inline_spans(text))),
                                        rest,
                                    ),
                                    None => if is_thematic_break_of(trim(line)) {
                                        parse_lines(blocks.push(BlockView::ThematicBreak), rest)
                                    } else {
                                        let m = leading_lines(rest, continues_paragraph());
                                        proof {
                                            lemma_leading_lines_bound(rest, continues_paragraph());
                                        }
                                        parse_lines(
                                            blocks.push(
                                                BlockView::Paragraph(
                                                    inline_spans(
                                                        join_paragraph(trim(line), rest.take(m)),
                                                    ),
                                                ),
                                            ),
                                            rest.skip(m),
                                        )
                                    },
                                },
                            },
                        },
                    },
                }
            },
        }
    }
}

pub proof fn lemma_leading_lines_bound(lines: Seq<Seq<char>>, pred: spec_fn(Seq<char>) -> bool)
    ensures
        0 <= leading_lines(lines, pred) <= lines.len(),
    decreases lines.len(),
{
    if lines.len() > 0 && pred(lines[0]) {
        lemma_leading_lines_bound(lines.drop_first(), pred);
    }
}

proof fn lemma_parse_lines_not_empty(blocks: Seq<BlockView>, lines: Seq<Seq<char>>)
    requires
        blocks.len() > 0 || lines.len() > 0,
    ensures
        parse_lines(blocks, lines).len() > 0,
    decreases lines.len(),
{
    if lines.len() > 0 {
        let line = lines[0];
        let rest = lines.drop_first();
        match fence_language_of(line) {
            Some(language) => {
                let n = leading_lines(rest, in_code_block());
                lemma_leading_lines_bound(rest, in_code_block());
                let code = trimmed_code(join_code(rest.take(n)));
                let after = if n < rest.len() {
                    rest.skip(n + 1)
                } else {
                    rest.skip(n)
                };
                lemma_parse_lines_not_empty(
                    without_pending_blank(blocks).push(BlockView::CodeBlock { language, code }),
                    after,
                );
            },
            None => if trim(line).len() == 0 {
                lemma_parse_lines_not_empty(blocks.push(BlockView::Blank), rest);
            } else if line.contains('|') && rest.len() > 0 && is_table_delimiter_of(rest[0]) {
                let alignments = alignments_of(rest[0]);
                let body = rest.drop_first();
                let m = leading_lines(body, continues_table());
                lemma_leading_lines_bound(body, continues_table());
                let columns = alignments.len() as int;
                lemma_parse_lines_not_empty(
                    blocks.push(
                        BlockView::Table {
                            alignments,
                            header: table_row_of(line, columns),
                            rows: body.take(m).map_values(|l: Seq<char>| table_row_of(l, columns)),
                        },
                    ),
                    body.skip(m),
                );
            } else {
                match heading_of(line) {
                    Some((level, text)) => lemma_parse_lines_not_empty(
                        blocks.push(BlockView::Heading { level, spans: inline_spans(text) }),
                        rest,
                    ),
                    None => match task_of(line) {
                        Some((checked, text)) => lemma_parse_lines_not_empty(
                            blocks.push(BlockView::TaskItem { checked, spans: inline_spans(text) }),
                            rest,
                        ),
                        None => match bullet_of(line) {
                            Some(text) => lemma_parse_lines_not_empty(
                                blocks.push(BlockView::Bullet(inline_spans(text))),
                                rest,
                            ),
                            None => match ordered_of(line) {
                                Some((number, text)) => lemma_parse_lines_not_empty(
                                    blocks.push(
                                        BlockView::OrderedBullet {
                                            number,
                                            spans: inline_spans(text),
                                        },
                                    ),
                                    rest,
                                ),
                                None => match blockquote_of(line) {
                                    Some(text) => lemma_parse_lines_not_empty(
                                        blocks.push(BlockView::Blockquote(inline_spans(text))),
                                        rest,
                                    ),
                                    None => if is_thematic_break_of(trim(line)) {
                                        lemma_parse_lines_not_empty(
                                            blocks.push(BlockView::ThematicBreak),
                                            rest,
                                        )
                                    } else {
                                        let m = leading_lines(rest, continues_paragraph());
                                        lemma_leading_lines_bound(rest, continues_paragraph());
                                        lemma_parse_lines_not_empty(
                                            blocks.push(
                                                BlockView::Paragraph(
                                                    inline_spans(
                                                        join_paragraph(trim(line), rest.take(m)),
                                                    ),
                                                ),
                                            ),
                                            rest.skip(m),
                                        )
                                    },
                                },
                            },
                        },
                    },
                }
            },
        }
    }
}

/// A message always parses to at least one block: an empty message to one
/// empty paragraph.
pub proof fn markdown_is_never_empty(input: Seq<char>)
    ensures
        markdown_blocks(input).len() > 0,
        input.len() == 0 ==> markdown_blocks(input) == seq![BlockView::Paragraph(Seq::empty())],
{
    if input.len() > 0 {
        assert(lines_of(input).len() > 0);
        lemma_parse_lines_not_empty(Seq::empty(), lines_of(input));
    }
}

/// The blocks of a message: one empty paragraph for an empty message.
pub open spec fn markdown_blocks(input: Seq<char>) -> Seq<BlockView> {
    if input.len() == 0 {
        seq![BlockView::Paragraph(Seq::empty())]
    } else {
        parse_lines(Seq::empty(), lines_of(input))
    }
}


fn to_string(v: &Vec<char>) -> (r: String)
    ensures
        r@ == v@,
{
    let r = string_of(v.as_slice(), 0, v.len());
    assert(v@.subrange(0, v@.len() as int) =~= v@);
    r
}

/// Reads the code block opened at line `i`: its text, and the line after it
/// (after its closing fence, when there is one).
fn read_code_block(lines: &Vec<Vec<char>>, i: usize) -> (r: (Vec<char>, usize))
    requires
        i < lines@.len(),
    ensures
        ({
            let rest = char_rows(lines@).skip(i + 1);
            let n = leading_lines(rest, in_code_block());
            &&& r.0@ == trimmed_code(join_code(rest.take(n)))
            &&& r.1 == if n < rest.len() {
                i + 1 + n + 1
            } else {
                i + 1 + n
            }
            &&& r.1 <= lines@.len()
        }),
{
    let ghost rest = char_rows(lines@).skip(i + 1);
    let mut code: Vec<char> = Vec::new();
    let total = lines.len();
    assert(total == lines@.len());
    let mut j = i + 1;
    proof {
        assert(rest.take(0) =~= Seq::<Seq<char>>::empty());
    }
    while j < lines.len() && !is_code_fence(&lines[j])
        invariant
            i + 1 <= j <= lines@.len(),
            rest == char_rows(lines@).skip(i + 1),
            code@ == join_code(rest.take(j - i - 1)),
            forall|k: int| 0 <= k < j - i - 1 ==> #[trigger] in_code_block()(rest[k]),
        decreases lines@.len() - j,
    {
        proof {
            assert(rest.take(j - i).drop_last() =~= rest.take(j - i - 1));
            assert(rest.take(j - i).last() == lines@[j as int]@);
            assert(rest[j - i - 1] == lines@[j as int]@);
        }
        if code.len() > 0 {
            code.push('\n');
            let joined = concat(&code, &lines[j]);
            code = joined;
        } else {
            code = subvec(&lines[j], 0, lines[j].len());
            proof {
                assert(lines@[j as int]@.subrange(0, lines@[j as int]@.len() as int) =~= lines@[j as int]@);
            }
        }
        j = j + 1;
    }
    proof {
        if j < lines@.len() {
            assert(rest[j - i - 1] == lines@[j as int]@);
        }
        lemma_leading_lines(rest, in_code_block(), j - i - 1);
    }
    trim_trailing_blank_lines(&mut code);
    let next = if j < lines.len() {
        j + 1
    } else {
        j
    };
    (code, next)
}

/// Reads the table whose header is line `i`: its header row, its body rows,
/// and the line after it.
fn read_table(lines: &Vec<Vec<char>>, i: usize, columns: usize) -> (r: (
    Vec<Vec<MarkdownSpan>>,
    Vec<Vec<Vec<MarkdownSpan>>>,
    usize,
))
    requires
        i + 1 < lines@.len(),
    ensures
        ({
            let body = char_rows(lines@).skip(i + 2);
            let m = leading_lines(body, continues_table());
            &&& row_view(r.0@) == table_row_of(lines@[i as int]@, columns as int)
            &&& rows_view(r.1@) == body.take(m).map_values(
                |l: Seq<char>| table_row_of(l, columns as int),
            )
            &&& r.2 == i + 2 + m
            &&& r.2 <= lines@.len()
        }),
{
    let ghost body = char_rows(lines@).skip(i + 2);
    let header = parse_table_row(&lines[i], columns);
    let mut rows: Vec<Vec<Vec<MarkdownSpan>>> = Vec::new();
    let total = lines.len();
    assert(total == lines@.len());
    let mut j = i + 2;
    proof {
        assert(rows_view(rows@) =~= body.take(0).map_values(
            |l: Seq<char>| table_row_of(l, columns as int),
        ));
    }
    while j < lines.len() && !all_white_exec(&lines[j], 0, lines[j].len()) && has_char(
        &lines[j],
        '|',
    )
        invariant
            i + 2 <= j <= lines@.len(),
            body == char_rows(lines@).skip(i + 2),
            rows_view(rows@) == body.take(j - i - 2).map_values(
                |l: Seq<char>| table_row_of(l, columns as int),
            ),
            forall|k: int| 0 <= k < j - i - 2 ==> #[trigger] continues_table()(body[k]),
        decreases lines@.len() - j,
    {
        proof {
            assert(body[j - i - 2] == lines@[j as int]@);
            assert(lines@[j as int]@.subrange(0, lines@[j as int]@.len() as int) =~= lines@[j as int]@);
            lemma_trim_empty(lines@[j as int]@);
        }
        let row = parse_table_row(&lines[j], columns);
        let ghost before = rows_view(rows@);
        rows.push(row);
        proof {
            assert(rows_view(rows@) =~= before.push(row_view(row@)));
            assert(body.take(j - i - 1) =~= body.take(j - i - 2).push(body[j - i - 2]));
            assert(rows_view(rows@) =~= body.take(j - i - 1).map_values(
                |l: Seq<char>| table_row_of(l, columns as int),
            ));
        }
        j = j + 1;
    }
    proof {
        if j < lines@.len() {
            assert(body[j - i - 2] == lines@[j as int]@);
            assert(lines@[j as int]@.subrange(0, lines@[j as int]@.len() as int) =~= lines@[j as int]@);
            lemma_trim_empty(lines@[j as int]@);
        }
        lemma_leading_lines(body, continues_table(), j - i - 2);
    }
    (header, rows, j)
}

/// Reads the paragraph that starts at line `i`: its text, and the line after it.
fn read_paragraph(lines: &Vec<Vec<char>>, i: usize) -> (r: (Vec<char>, usize))
    requires
        i < lines@.len(),
    ensures
        ({
            let rest = char_rows(lines@).skip(i + 1);
            let m = leading_lines(rest, continues_paragraph());
            &&& r.0@ == join_paragraph(trim(lines@[i as int]@), rest.take(m))
            &&& r.1 == i + 1 + m
            &&& r.1 <= lines@.len()
        }),
{
    let ghost rest = char_rows(lines@).skip(i + 1);
    let mut text = trim_chars(&lines[i]);
    let total = lines.len();
    assert(total == lines@.len());
    let mut j = i + 1;
    proof {
        assert(rest.take(0) =~= Seq::<Seq<char>>::empty());
    }
    while j < lines.len() && !all_white_exec(&lines[j], 0, lines[j].len()) && !starts_special_block(
        &lines[j],
    )
        invariant
            i + 1 <= j <= lines@.len(),
            rest == char_rows(lines@).skip(i + 1),
            text@ == join_paragraph(trim(lines@[i as int]@), rest.take(j - i - 1)),
            forall|k: int| 0 <= k < j - i - 1 ==> #[trigger] continues_paragraph()(rest[k]),
        decreases lines@.len() - j,
    {
        proof {
            assert(rest[j - i - 1] == lines@[j as int]@);
            assert(lines@[j as int]@.subrange(0, lines@[j as int]@.len() as int) =~= lines@[j as int]@);
            lemma_trim_empty(lines@[j as int]@);
            assert(rest.take(j - i).drop_last() =~= rest.take(j - i - 1));
            assert(rest.take(j - i).last() == lines@[j as int]@);
        }
        text.push('\n');
        let next = trim_chars(&lines[j]);
        let joined = concat(&text, &next);
        text = joined;
        j = j + 1;
    }
    proof {
        if j < lines@.len() {
            assert(rest[j - i - 1] == lines@[j as int]@);
            assert(lines@[j as int]@.subrange(0, lines@[j as int]@.len() as int) =~= lines@[j as int]@);
            lemma_trim_empty(lines@[j as int]@);
        }
        lemma_leading_lines(rest, continues_paragraph(), j - i - 1);
    }
    (text, j)
}


/// Reads the block that starts at line `i` into `blocks`; returns the line
/// after it.
#[verifier::rlimit(60)]
fn read_block(lines: &Vec<Vec<char>>, i: usize, blocks: &mut Vec<MarkdownBlock>) -> (next: usize)
    requires
        i < lines@.len(),
    ensures
        i < next <= lines@.len(),
        parse_lines(blocks_view(final(blocks)@), char_rows(lines@).skip(next as int)) == parse_lines(
            blocks_view(old(blocks)@),
            char_rows(lines@).skip(i as int),
        ),
{
    let ghost all = char_rows(lines@);
    let ghost here = all.skip(i as int);
    let ghost before = blocks_view(blocks@);
    let total = lines.len();
    let line = &lines[i];
    proof {
        assert(here[0] == line@);
        assert(here.drop_first() =~= all.skip(i + 1));
    }
    match fenced_code_language(line) {
        Some(language) => {
            let (code, next) = read_code_block(lines, i);
            push_pending_blank(blocks);
            let ghost mid = blocks_view(blocks@);
            let ghost lang_view = match &language {
                Some(l) => Some(l@),
                None => None,
            };
            let code_text = to_string(&code);
            blocks.push(MarkdownBlock::CodeBlock { language, code: code_text });
            proof {
                let rest = all.skip(i + 1);
                let n = leading_lines(rest, in_code_block());
                lemma_leading_lines_bound(rest, in_code_block());
                assert(blocks_view(blocks@) =~= mid.push(
                    BlockView::CodeBlock { language: lang_view, code: code@ },
                ));
                if n < rest.len() {
                    assert(rest.skip(n + 1) =~= all.skip(next as int));
                } else {
                    assert(rest.skip(n) =~= all.skip(next as int));
                }
            }
            return next;
        },
        None => {},
    }
    if all_white_exec(line, 0, line.len()) {
        proof {
            assert(line@.subrange(0, line@.len() as int) =~= line@);
            lemma_trim_empty(line@);
        }
        blocks.push(MarkdownBlock::Blank);
        proof {
            assert(blocks_view(blocks@) =~= before.push(BlockView::Blank));
        }
        return i + 1;
    }
    proof {
        assert(line@.subrange(0, line@.len() as int) =~= line@);
        lemma_trim_empty(line@);
    }
    if has_char(line, '|') && i + 1 < lines.len() && is_table_delimiter(&lines[i + 1]) {
        let alignments = parse_table_alignments(&lines[i + 1]);
        let columns = alignments.len();
        let (header, rows, next) = read_table(lines, i, columns);
        blocks.push(MarkdownBlock::Table { alignments, header, rows });
        proof {
            let rest = all.skip(i + 1);
            assert(rest[0] == lines@[i + 1]@);
            assert(rest.drop_first() =~= all.skip(i + 2));
            let m = leading_lines(rest.drop_first(), continues_table());
            lemma_leading_lines_bound(rest.drop_first(), continues_table());
            assert(rest.drop_first().skip(m) =~= all.skip(next as int));
            assert(blocks_view(blocks@) =~= before.push(
                BlockView::Table {
                    alignments: alignments_of(rest[0]),
                    header: table_row_of(line@, columns as int),
                    rows: rest.drop_first().take(m).map_values(
                        |l: Seq<char>| table_row_of(l, columns as int),
                    ),
                },
            ));
        }
        return next;
    }
    proof {
        if i + 1 < lines@.len() {
            assert(here.drop_first()[0] == lines@[i + 1]@);
        }
    }
    match heading_text(line) {
        Some((level, text)) => {
            let spans = parse_inline(&text);
            blocks.push(MarkdownBlock::Heading { level, spans });
            proof {
                assert(blocks_view(blocks@) =~= before.push(
                    BlockView::Heading { level, spans: spans_view(spans@) },
                ));
            }
            return i + 1;
        },
        None => {},
    }
    match task_item_text(line) {
        Some((checked, text)) => {
            let spans = parse_inline(&text);
            blocks.push(MarkdownBlock::TaskItem { checked, spans });
            proof {
                assert(blocks_view(blocks@) =~= before.push(
                    BlockView::TaskItem { checked, spans: spans_view(spans@) },
                ));
            }
            return i + 1;
        },
        None => {},
    }
    match bullet_text(line) {
        Some(text) => {
            let spans = parse_inline(&text);
            blocks.push(MarkdownBlock::Bullet(spans));
            proof {
                assert(blocks_view(blocks@) =~= before.push(BlockView::Bullet(spans_view(spans@))));
            }
            return i + 1;
        },
        None => {},
    }
    match ordered_bullet_text(line) {
        Some((number, text)) => {
            let spans = parse_inline(&text);
            blocks.push(MarkdownBlock::OrderedBullet { number, spans });
            proof {
                assert(blocks_view(blocks@) =~= before.push(
                    BlockView::OrderedBullet { number, spans: spans_view(spans@) },
                ));
            }
            return i + 1;
        },
        None => {},
    }
    match blockquote_text(line) {
        Some(text) => {
            let spans = parse_inline(&text);
            blocks.push(MarkdownBlock::Blockquote(spans));
            proof {
                assert(blocks_view(blocks@) =~= before.push(
                    BlockView::Blockquote(spans_view(spans@)),
                ));
            }
            return i + 1;
        },
        None => {},
    }
    let trimmed = trim_chars(line);
    if is_thematic_break(&trimmed) {
        blocks.push(MarkdownBlock::ThematicBreak);
        proof {
            assert(blocks_view(blocks@) =~= before.push(BlockView::ThematicBreak));
        }
        return i + 1;
    }
    let (text, next) = read_paragraph(lines, i);
    let spans = parse_inline(&text);
    blocks.push(MarkdownBlock::Paragraph(spans));
    proof {
        let rest = all.skip(i + 1);
        let m = leading_lines(rest, continues_paragraph());
        lemma_leading_lines_bound(rest, continues_paragraph());
        assert(rest.skip(m) =~= all.skip(next as int));
        assert(blocks_view(blocks@) =~= before.push(BlockView::Paragraph(spans_view(spans@))));
    }
    next
}

/// Parses a message into blocks: code blocks, blank lines, tables, headings,
/// task items, bullets, numbered items, quotes, rules and paragraphs.
pub fn parse_markdown(input: &str) -> (r: Vec<MarkdownBlock>)
    ensures
        blocks_view(r@) == markdown_blocks(input@),
{
    let chars = crate::chars::to_chars(input);
    if chars.len() == 0 {
        let mut r: Vec<MarkdownBlock> = Vec::new();
        let empty: Vec<MarkdownSpan> = Vec::new();
        r.push(MarkdownBlock::Paragraph(empty));
        proof {
            assert(spans_view(empty@) =~= Seq::<SpanView>::empty());
            assert(blocks_view(r@) =~= seq![BlockView::Paragraph(Seq::empty())]);
        }
        return r;
    }
    let lines = split_lines(&chars);
    let mut blocks: Vec<MarkdownBlock> = Vec::new();
    let mut i: usize = 0;
    proof {
        assert(char_rows(lines@) =~= lines_of(input@));
        assert(char_rows(lines@).skip(0) =~= char_rows(lines@));
        assert(blocks_view(blocks@) =~= Seq::<BlockView>::empty());
    }
    while i < lines.len()
        invariant
            i <= lines@.len(),
            char_rows(lines@) == lines_of(input@),
            parse_lines(blocks_view(blocks@), char_rows(lines@).skip(i as int)) == parse_lines(
                Seq::empty(),
                lines_of(input@),
            ),
        decreases lines@.len() - i,
    {
        i = read_block(&lines, i, &mut blocks);
    }
    proof {
        assert(char_rows(lines@).skip(i as int) =~= Seq::<Seq<char>>::empty());
    }
    blocks
}


/// Whether `c` is ignored when deciding that a text is only emoji: the
/// variation selector, the zero-width joiner and white space.
pub open spec fn is_emoji_filler(c: char) -> bool {
    c == '\u{fe0f}' || c == '\u{200d}' || is_white_space(c)
}

/// Whether the text from position `i` on is only emoji of the index (each
/// matched as `emoji_at` does) and filler characters.
pub open spec fn emoji_only_from(s: Seq<char>, i: int, index: Map<Seq<char>, usize>) -> bool
    decreases s.len() - i,
{
    if i < 0 || i >= s.len() {
        true
    } else {
        match crate::emoji_picker::emoji_at(s, i, index) {
            Some((n, _)) => emoji_only_from(s, i + n, index),
            None => is_emoji_filler(s[i]) && emoji_only_from(s, i + 1, index),
        }
    }
}

/// Whether a message holds only emoji (shown large).
pub fn is_text_emoji_only(text: &str, emoji_map: &crate::text_map::TextMap<usize>) -> (r: bool)
    ensures
        r == emoji_only_from(text@, 0, emoji_map.as_map()),
{
    let chars = crate::chars::to_chars(text);
    let mut i: usize = 0;
    while i < chars.len()
        invariant
            i <= chars@.len(),
            chars@ == text@,
            emoji_only_from(text@, i as int, emoji_map.as_map()) == emoji_only_from(
                text@,
                0,
                emoji_map.as_map(),
            ),
        decreases chars@.len() - i,
    {
        match crate::emoji_picker::match_emoji_at(chars.as_slice(), i, emoji_map) {
            Some((len, _)) => {
                i = i + len;
                continue;
            },
            None => {},
        }
        let ch = chars[i];
        if ch != '\u{fe0f}' && ch != '\u{200d}' && !white_space(ch) {
            return false;
        }
        i = i + 1;
    }
    true
}

/// A message parsed once for the thread: its blocks, and whether it is only emoji.
pub struct ParsedMarkdown {
    pub blocks: Vec<MarkdownBlock>,
    pub emoji_only: bool,
}

/// Parses a message: its markdown blocks and whether it holds only emoji.
pub fn parse_message(text: &str, emoji_map: &crate::text_map::TextMap<usize>) -> (r: ParsedMarkdown)
    ensures
        blocks_view(r.blocks@) == markdown_blocks(text@),
        r.emoji_only == emoji_only_from(text@, 0, emoji_map.as_map()),
{
    ParsedMarkdown { blocks: parse_markdown(text), emoji_only: is_text_emoji_only(text, emoji_map) }
}


/// Whether a block that is a table has exactly one header cell and one cell
/// per row for each column that its delimiter line declares.
pub open spec fn rectangular(b: BlockView) -> bool {
    match b {
        BlockView::Table { alignments, header, rows } => {
            &&& header.len() == alignments.len()
            &&& forall|k: int| 0 <= k < rows.len() ==> (#[trigger] rows[k]).len() == alignments.len()
        },
        _ => true,
    }
}

/// Whether every table among `blocks` is rectangular.
pub open spec fn all_rectangular(blocks: Seq<BlockView>) -> bool {
    forall|k: int| 0 <= k < blocks.len() ==> rectangular(#[trigger] blocks[k])
}

/// A table line is made exactly `columns` cells wide.
pub proof fn table_rows_have_the_column_count(line: Seq<char>, columns: int)
    requires
        columns >= 0,
    ensures
        table_row_of(line, columns).len() == columns,
{
}

proof fn lemma_push_rectangular(blocks: Seq<BlockView>, b: BlockView)
    requires
        all_rectangular(blocks),
        rectangular(b),
    ensures
        all_rectangular(blocks.push(b)),
{
    assert forall|k: int| 0 <= k < blocks.push(b).len() implies rectangular(
        #[trigger] blocks.push(b)[k],
    ) by {
        if k < blocks.len() {
            assert(blocks.push(b)[k] == blocks[k]);
        }
    }
}

proof fn lemma_parse_lines_shape(blocks: Seq<BlockView>, lines: Seq<Seq<char>>)
    ensures
        all_rectangular(blocks) ==> all_rectangular(parse_lines(blocks, lines)),
        parse_lines(blocks, lines).len() >= blocks.len(),
        lines.len() > 0 ==> parse_lines(blocks, lines).len() >= 1,
    decreases lines.len(),
{
    if lines.len() > 0 {
        let line = lines[0];
        let rest = lines.drop_first();
        match fence_language_of(line) {
            Some(language) => {
                let n = leading_lines(rest, in_code_block());
                lemma_leading_lines_bound(rest, in_code_block());
                let code = trimmed_code(join_code(rest.take(n)));
                let after = if n < rest.len() {
                    rest.skip(n + 1)
                } else {
                    rest.skip(n)
                };
                let kept = without_pending_blank(blocks);
                let b = BlockView::CodeBlock { language, code };
                assert(all_rectangular(blocks) ==> all_rectangular(kept)) by {
                    if all_rectangular(blocks) && blocks.len() > 0 && blocks.last() is Blank {
                        assert forall|k: int| 0 <= k < kept.len() implies rectangular(
                            #[trigger] kept[k],
                        ) by {
                            assert(kept[k] == blocks[k]);
                        }
                    }
                }
                if all_rectangular(kept) {
                    lemma_push_rectangular(kept, b);
                }
                lemma_parse_lines_shape(kept.push(b), after);
            },
            None => if trim(line).len() == 0 {
                if all_rectangular(blocks) {
                    lemma_push_rectangular(blocks, BlockView::Blank);
                }
                lemma_parse_lines_shape(blocks.push(BlockView::Blank), rest);
            } else if line.contains('|') && rest.len() > 0 && is_table_delimiter_of(rest[0]) {
                let alignments = alignments_of(rest[0]);
                let body = rest.drop_first();
                let m = leading_lines(body, continues_table());
                lemma_leading_lines_bound(body, continues_table());
                let columns = alignments.len() as int;
                let rows = body.take(m).map_values(|l: Seq<char>| table_row_of(l, columns));
                let b = BlockView::Table {
                    alignments,
                    header: table_row_of(line, columns),
                    rows,
                };
                assert forall|k: int| 0 <= k < rows.len() implies (#[trigger] rows[k]).len()
                    == alignments.len() by {
                    table_rows_have_the_column_count(body.take(m)[k], columns);
                }
                table_rows_have_the_column_count(line, columns);
                if all_rectangular(blocks) {
                    lemma_push_rectangular(blocks, b);
                }
                lemma_parse_lines_shape(blocks.push(b), body.skip(m));
            } else {
                let b: BlockView = match heading_of(line) {
                    Some((level, text)) => BlockView::Heading { level, spans: inline_spans(text) },
                    None => match task_of(line) {
                        Some((checked, text)) => BlockView::TaskItem {
                            checked,
                            spans: inline_spans(text),
                        },
                        None => match bullet_of(line) {
                            Some(text) => BlockView::Bullet(inline_spans(text)),
                            None => match ordered_of(line) {
                                Some((number, text)) => BlockView::OrderedBullet {
                                    number,
                                    spans: inline_spans(text),
                                },
                                None => match blockquote_of(line) {
                                    Some(text) => BlockView::Blockquote(inline_spans(text)),
                                    None => if is_thematic_break_of(trim(line)) {
                                        BlockView::ThematicBreak
                                    } else {
                                        BlockView::Paragraph(
                                            inline_spans(
                                                join_paragraph(
                                                    trim(line),
                                                    rest.take(leading_lines(rest, continues_paragraph())),
                                                ),
                                            ),
                                        )
                                    },
                                },
                            },
                        },
                    },
                };
                let next: Seq<Seq<char>> = if b is Paragraph {
                    rest.skip(leading_lines(rest, continues_paragraph()))
                } else {
                    rest
                };
                lemma_leading_lines_bound(rest, continues_paragraph());
                if all_rectangular(blocks) {
                    lemma_push_rectangular(blocks, b);
                }
                lemma_parse_lines_shape(blocks.push(b), next);
                assert(parse_lines(blocks, lines) == parse_lines(blocks.push(b), next));
            },
        }
    }
}

/// Every table read from a message is rectangular: its header and each of
/// its rows have one cell per column of the delimiter line. A message always
/// gives at least one block, and an empty one a single empty paragraph.
pub proof fn message_blocks_are_well_formed(input: Seq<char>)
    ensures
        all_rectangular(markdown_blocks(input)),
        markdown_blocks(input).len() >= 1,
        input.len() == 0 ==> markdown_blocks(input) == seq![BlockView::Paragraph(Seq::empty())],
{
    if input.len() == 0 {
        assert(rectangular(BlockView::Paragraph(Seq::empty())));
    } else {
        let lines = lines_of(input);
        assert(lines.len() > 0);
        lemma_parse_lines_shape(Seq::empty(), lines);
    }
}

} // verus!
