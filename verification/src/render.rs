use vstd::prelude::*;

use crate::chars::{push_char, to_chars};
use crate::emoji_picker::{emoji_at, match_emoji_at};
use crate::text_map::TextMap;

verus! {

/// A piece of a line of text shown inline: a run of text, or the emoji with
/// the given entry of the emoji index (drawn as a picture).
#[derive(Clone, Debug, PartialEq, Eq)]
pub enum InlinePiece {
    Text(String),
    Emoji(usize),
}

/// The view of an inline piece.
pub enum PieceView {
    Text(Seq<char>),
    Emoji(usize),
}

impl View for InlinePiece {
    type V = PieceView;

    open spec fn view(&self) -> PieceView {
        match self {
            InlinePiece::Text(t) => PieceView::Text(t@),
            InlinePiece::Emoji(k) => PieceView::Emoji(*k),
        }
    }
}

/// The views of a list of pieces.
pub open spec fn pieces_view(v: Seq<InlinePiece>) -> Seq<PieceView> {
    v.map_values(|p: InlinePiece| p@)
}

/// The pending text `acc` as a piece, if it is not empty.
pub open spec fn flushed(acc: Seq<char>) -> Seq<PieceView> {
    if acc.len() > 0 {
        seq![PieceView::Text(acc)]
    } else {
        Seq::empty()
    }
}

/// The pieces of `s` from position `i` on, with the text `acc` pending: each
/// emoji of the index (as `emoji_at` matches it) ends the pending text and
/// becomes a picture; other characters join the text, except the variation
/// selector and the zero-width joiner, which are dropped.
pub open spec fn pieces_from(s: Seq<char>, i: int, acc: Seq<char>, index: Map<Seq<char>, usize>) -> Seq<
    PieceView,
>
    decreases s.len() - i,
{
    if i < 0 || i >= s.len() {
        flushed(acc)
    } else {
        match emoji_at(s, i, index) {
            Some((n, k)) => flushed(acc) + seq![PieceView::Emoji(k)] + pieces_from(
                s,
                i + n,
                Seq::empty(),
                index,
            ),
            None => pieces_from(
                s,
                i + 1,
                if s[i] == '\u{fe0f}' || s[i] == '\u{200d}' {
                    acc
                } else {
                    acc.push(s[i])
                },
                index,
            ),
        }
    }
}

/// Cuts a text into runs of text and emoji pictures, as it is drawn inline.
pub fn inline_pieces(text: &str, emoji_map: &TextMap<usize>) -> (r: Vec<InlinePiece>)
    ensures
        pieces_view(r@) == pieces_from(text@, 0, Seq::empty(), emoji_map.as_map()),
{
    let chars = to_chars(text);
    let ghost index = emoji_map.as_map();
    let mut r: Vec<InlinePiece> = Vec::new();
    let mut acc = String::new();
    let mut i: usize = 0;
    proof {
        assert(pieces_view(r@) + pieces_from(text@, 0, acc@, index) =~= pieces_from(
            text@,
            0,
            Seq::empty(),
            index,
        ));
    }
    while i < chars.len()
        invariant
            i <= chars@.len(),
            chars@ == text@,
            index == emoji_map.as_map(),
            pieces_view(r@) + pieces_from(text@, i as int, acc@, index) == pieces_from(
                text@,
                0,
                Seq::empty(),
                index,
            ),
        decreases chars@.len() - i,
    {
        let ghost before = pieces_view(r@);
        match match_emoji_at(chars.as_slice(), i, emoji_map) {
            Some((n, k)) => {
                let ghost old_acc = acc@;
                if acc.as_str().unicode_len() > 0 {
                    r.push(InlinePiece::Text(acc));
                    acc = String::new();
                    proof {
                        assert(pieces_view(r@) =~= before + flushed(old_acc));
                    }
                } else {
                    proof {
                        assert(acc@ =~= Seq::<char>::empty());
                        assert(pieces_view(r@) =~= before + flushed(old_acc));
                    }
                }
                assert(acc@ =~= Seq::<char>::empty());
                let ghost mid = pieces_view(r@);
                r.push(InlinePiece::Emoji(k));
                proof {
                    assert(pieces_from(text@, i as int, old_acc, index) == flushed(old_acc) + seq![
                        PieceView::Emoji(k),
                    ] + pieces_from(text@, i + n, Seq::empty(), index));
                    assert(pieces_view(r@) =~= mid + seq![PieceView::Emoji(k)]);
                    assert(before + (flushed(old_acc) + seq![PieceView::Emoji(k)] + pieces_from(
                        text@,
                        i + n,
                        Seq::empty(),
                        index,
                    )) =~= pieces_view(r@) + pieces_from(text@, i + n, acc@, index));
                }
                i = i + n;
            },
            None => {
                let c = chars[i];
                if c != '\u{fe0f}' && c != '\u{200d}' {
                    push_char(&mut acc, c);
                }
                i = i + 1;
            },
        }
    }
    let ghost before = pieces_view(r@);
    let ghost last = acc@;
    if acc.as_str().unicode_len() > 0 {
        r.push(InlinePiece::Text(acc));
    }
    proof {
        assert(pieces_view(r@) =~= before + flushed(last));
    }
    r
}

} // verus!
