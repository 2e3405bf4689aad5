use vstd::prelude::*;
use vstd::string::*;

use crate::chars::{chars_start_with, texts_view, to_chars};
use crate::text_map::TextMap;
use crate::text_ops::clamp_index;

verus! {

/// Index of the last occurrence of `c` in `s`, or -1.
pub open spec fn last_index_of(s: Seq<char>, c: char) -> int
    decreases s.len(),
{
    if s.len() == 0 {
        -1
    } else if s.last() == c {
        s.len() - 1
    } else {
        last_index_of(s.drop_last(), c)
    }
}

/// The `:shortcode` being typed before position `cursor` of `s`: the last
/// `:` before the cursor and the text between it and the cursor, provided
/// that this text holds neither a space nor a colon.
pub open spec fn shortcode_trigger(s: Seq<char>, cursor: int) -> Option<(int, Seq<char>)> {
    let before = s.take(clamp_index(cursor, s.len() as int));
    let colon = last_index_of(before, ':');
    if colon < 0 {
        None
    } else {
        let after = before.skip(colon + 1);
        if after.contains(' ') || after.contains(':') {
            None
        } else {
            Some((colon, after))
        }
    }
}

/// `last_index_of` finds the last occurrence, or proves there is none.
pub proof fn lemma_last_index_of(s: Seq<char>, c: char)
    ensures
        -1 <= last_index_of(s, c) < s.len(),
        last_index_of(s, c) >= 0 ==> s[last_index_of(s, c)] == c,
        forall|k: int| last_index_of(s, c) < k < s.len() ==> s[k] != c,
    decreases s.len(),
{
    if s.len() > 0 && s.last() != c {
        lemma_last_index_of(s.drop_last(), c);
        assert forall|k: int| last_index_of(s, c) < k < s.len() implies s[k] != c by {
            if k < s.len() - 1 {
                assert(s.drop_last()[k] == s[k]);
            }
        }
    }
}

/// What a detected shortcode is: a colon before the cursor followed by the
/// query up to the cursor, which holds neither a space nor a colon.
pub proof fn lemma_shortcode_trigger(s: Seq<char>, cursor: int)
    requires
        0 <= cursor,
    ensures
        match shortcode_trigger(s, cursor) {
            Some((start, query)) => {
                &&& 0 <= start < clamp_index(cursor, s.len() as int)
                &&& s[start] == ':'
                &&& query == s.subrange(start + 1, clamp_index(cursor, s.len() as int))
                &&& !query.contains(' ')
                &&& !query.contains(':')
            },
            None => true,
        },
{
    let end = clamp_index(cursor, s.len() as int);
    let before = s.take(end);
    lemma_last_index_of(before, ':');
    let colon = last_index_of(before, ':');
    if colon >= 0 {
        assert(before.skip(colon + 1) =~= s.subrange(colon + 1, end));
    }
}

/// Detects whether the cursor sits in a `:shortcode`; returns the character
/// index of the colon and the query typed after it.
pub fn emoji_shortcode_trigger(input: &str, cursor_char: usize) -> (r: Option<(usize, String)>)
    ensures
        match r {
            Some((start, query)) => shortcode_trigger(input@, cursor_char as int) == Some(
                (start as int, query@),
            ),
            None => shortcode_trigger(input@, cursor_char as int) is None,
        },
{
    let chars = to_chars(input);
    let end = if cursor_char < chars.len() {
        cursor_char
    } else {
        chars.len()
    };
    let ghost before = input@.take(end as int);
    let mut i = end;
    assert(before.take(end as int) =~= before);
    while i > 0 && chars[i - 1] != ':'
        invariant
            i <= end <= chars@.len(),
            chars@ == input@,
            before == input@.take(end as int),
            last_index_of(before.take(i as int), ':') == last_index_of(before, ':'),
        decreases i,
    {
        proof {
            assert(before.take(i as int).drop_last() =~= before.take(i - 1));
        }
        i = i - 1;
    }
    if i == 0 {
        proof {
            assert(before.take(0) =~= Seq::<char>::empty());
        }
        return None;
    }
    let colon = i - 1;
    proof {
        assert(before.take(i as int).last() == ':');
        assert(last_index_of(before, ':') == colon);
    }
    let mut j = i;
    while j < end
        invariant
            i <= j <= end <= chars@.len(),
            0 < i,
            chars@ == input@,
            before == input@.take(end as int),
            end == clamp_index(cursor_char as int, input@.len() as int),
            last_index_of(before, ':') == i - 1,
            forall|k: int| i <= k < j ==> chars@[k] != ' ' && chars@[k] != ':',
        decreases end - j,
    {
        if chars[j] == ' ' || chars[j] == ':' {
            proof {
                let after = before.skip(i as int);
                assert(end == clamp_index(cursor_char as int, input@.len() as int));
                if chars[j as int] == ' ' {
                    assert(after[j - i] == ' ');
                    assert(after.contains(' '));
                } else {
                    assert(after[j - i] == ':');
                    assert(after.contains(':'));
                }
            }
            return None;
        }
        j = j + 1;
    }
    let query = String::from_str(input.substring_char(i, end));
    proof {
        let after = before.skip(i as int);
        assert(after =~= input@.subrange(i as int, end as int));
        assert(!after.contains(' ') && !after.contains(':')) by {
            if after.contains(' ') {
                let k = choose|k: int| 0 <= k < after.len() && after[k] == ' ';
                assert(chars@[i + k] == ' ');
            }
            if after.contains(':') {
                let k = choose|k: int| 0 <= k < after.len() && after[k] == ':';
                assert(chars@[i + k] == ':');
            }
        }
    }
    Some((colon, query))
}

/// The aliases that start with `query`, in order.
pub open spec fn aliases_with_prefix(aliases: Seq<Seq<char>>, query: Seq<char>) -> Seq<Seq<char>> {
    aliases.filter(|a: Seq<char>| query.is_prefix_of(a))
}

/// Each chosen alias that the index binds, paired with what it binds.
pub open spec fn bound_pairs(chosen: Seq<Seq<char>>, index: Map<Seq<char>, Seq<char>>) -> Seq<
    (Seq<char>, Seq<char>),
>
    decreases chosen.len(),
{
    if chosen.len() == 0 {
        Seq::empty()
    } else {
        let rest = bound_pairs(chosen.drop_last(), index);
        if index.contains_key(chosen.last()) {
            rest.push((chosen.last(), index[chosen.last()]))
        } else {
            rest
        }
    }
}

/// Every suggested pair is an alias of the index with its emoji.
pub proof fn lemma_bound_pairs(chosen: Seq<Seq<char>>, index: Map<Seq<char>, Seq<char>>, k: int)
    requires
        0 <= k < bound_pairs(chosen, index).len(),
    ensures
        index.contains_key(bound_pairs(chosen, index)[k].0),
        bound_pairs(chosen, index)[k].1 == index[bound_pairs(chosen, index)[k].0],
        bound_pairs(chosen, index).len() <= chosen.len(),
    decreases chosen.len(),
{
    if chosen.len() > 0 {
        let rest = bound_pairs(chosen.drop_last(), index);
        if k < rest.len() {
            lemma_bound_pairs(chosen.drop_last(), index, k);
        } else {
            lemma_bound_pairs_len(chosen.drop_last(), index);
        }
        lemma_bound_pairs_len(chosen.drop_last(), index);
    }
}

proof fn lemma_bound_pairs_len(chosen: Seq<Seq<char>>, index: Map<Seq<char>, Seq<char>>)
    ensures
        bound_pairs(chosen, index).len() <= chosen.len(),
    decreases chosen.len(),
{
    if chosen.len() > 0 {
        lemma_bound_pairs_len(chosen.drop_last(), index);
    }
}

/// The suggestions for `query`: among the first `limit` aliases that start
/// with it, those that the index binds, with their emoji.
pub open spec fn suggestions_for(
    query: Seq<char>,
    index: Map<Seq<char>, Seq<char>>,
    aliases: Seq<Seq<char>>,
    limit: int,
) -> Seq<(Seq<char>, Seq<char>)> {
    let matching = aliases_with_prefix(aliases, query);
    bound_pairs(matching.take(clamp_index(limit, matching.len() as int)), index)
}

/// The view of a list of text pairs.
pub open spec fn pairs_view(v: Seq<(String, String)>) -> Seq<(Seq<char>, Seq<char>)> {
    v.map_values(|p: (String, String)| (p.0@, p.1@))
}

/// Suggestions for `query`, computed without looking at the text around it.
pub fn suggestions_for_query(
    query: &str,
    alias_to_char: &TextMap<String>,
    aliases: &[String],
    limit: usize,
) -> (r: Vec<(String, String)>)
    ensures
        pairs_view(r@) == suggestions_for(
            query@,
            alias_to_char.as_map().map_values(|c: String| c@),
            texts_view(aliases@),
            limit as int,
        ),
{
    let ghost all = texts_view(aliases@);
    let ghost index = alias_to_char.as_map().map_values(|c: String| c@);
    let ghost pred = |a: Seq<char>| query@.is_prefix_of(a);
    let q = to_chars(query);
    let mut r: Vec<(String, String)> = Vec::new();
    let mut taken: usize = 0;
    let mut i: usize = 0;
    while i < aliases.len() && taken < limit
        invariant
            i <= aliases@.len(),
            all == texts_view(aliases@),
            index == alias_to_char.as_map().map_values(|c: String| c@),
            pred == (|a: Seq<char>| query@.is_prefix_of(a)),
            q@ == query@,
            taken <= limit,
            taken == all.take(i as int).filter(pred).len(),
            pairs_view(r@) == bound_pairs(all.take(i as int).filter(pred), index),
        decreases aliases@.len() - i,
    {
        let a = to_chars(aliases[i].as_str());
        proof {
            assert(all.take(i + 1) =~= all.take(i as int).push(all[i as int]));
            all.take(i as int).lemma_filter_push(all[i as int], pred);
        }
        if chars_start_with(&a, &q) {
            taken = taken + 1;
            let ghost before = all.take(i as int).filter(pred);
            proof {
                assert(all.take(i + 1).filter(pred) == before.push(all[i as int]));
                assert(before.push(all[i as int]).drop_last() =~= before);
            }
            match alias_to_char.get(aliases[i].as_str()) {
                Some(ch) => {
                    let ghost old_r = r@;
                    r.push((aliases[i].clone(), ch.clone()));
                    proof {
                        assert(pairs_view(r@) =~= pairs_view(old_r).push((all[i as int], index[all[i as int]])));
                    }
                },
                None => {},
            }
        }
        i = i + 1;
    }
    proof {
        let matching = aliases_with_prefix(all, query@);
        assert(all =~= all.take(i as int) + all.skip(i as int));
        Seq::filter_distributes_over_add(all.take(i as int), all.skip(i as int), pred);
        if i == aliases@.len() {
            assert(all.take(i as int) =~= all);
            assert(all.skip(i as int) =~= Seq::<Seq<char>>::empty());
            reveal(Seq::filter);
            assert(all.skip(i as int).filter(pred) =~= Seq::<Seq<char>>::empty());
            assert(matching == all.take(i as int).filter(pred));
            assert(matching.take(matching.len() as int) =~= matching);
        } else {
            assert(matching.take(limit as int) =~= all.take(i as int).filter(pred));
        }
    }
    r
}

/// Up to `limit` shortcode suggestions for the shortcode typed before the
/// cursor; none when there is no shortcode or its query is empty.
pub fn shortcode_suggestions(
    input: &str,
    cursor_char: usize,
    alias_to_char: &TextMap<String>,
    aliases: &[String],
    limit: usize,
) -> (r: Vec<(String, String)>)
    ensures
        pairs_view(r@) == match shortcode_trigger(input@, cursor_char as int) {
            Some((_, query)) => if query.len() == 0 {
                Seq::empty()
            } else {
                suggestions_for(
                    query,
                    alias_to_char.as_map().map_values(|c: String| c@),
                    texts_view(aliases@),
                    limit as int,
                )
            },
            None => Seq::empty(),
        },
{
    match emoji_shortcode_trigger(input, cursor_char) {
        None => {
            let r: Vec<(String, String)> = Vec::new();
            assert(pairs_view(r@) =~= Seq::empty());
            r
        },
        Some((_start, query)) => {
            if query.as_str().is_empty() {
                let r: Vec<(String, String)> = Vec::new();
                assert(pairs_view(r@) =~= Seq::empty());
                r
            } else {
                suggestions_for_query(query.as_str(), alias_to_char, aliases, limit)
            }
        },
    }
}


proof fn lemma_bound_pairs_from(chosen: Seq<Seq<char>>, index: Map<Seq<char>, Seq<char>>, k: int)
    requires
        0 <= k < bound_pairs(chosen, index).len(),
    ensures
        chosen.contains(bound_pairs(chosen, index)[k].0),
    decreases chosen.len(),
{
    if chosen.len() > 0 {
        let rest = bound_pairs(chosen.drop_last(), index);
        if k < rest.len() {
            lemma_bound_pairs_from(chosen.drop_last(), index, k);
            let j = choose|j: int| 0 <= j < chosen.drop_last().len() && chosen.drop_last()[j] == rest[k].0;
            assert(chosen[j] == rest[k].0);
        } else {
            assert(chosen[chosen.len() - 1] == chosen.last());
        }
    }
}

/// Every suggestion is an alias that starts with the query, given with the
/// emoji that the index binds to it, and there are at most `limit` of them.
pub proof fn suggestions_match_the_query(
    query: Seq<char>,
    index: Map<Seq<char>, Seq<char>>,
    aliases: Seq<Seq<char>>,
    limit: int,
)
    requires
        0 <= limit,
    ensures
        suggestions_for(query, index, aliases, limit).len() <= limit,
        forall|k: int|
            0 <= k < suggestions_for(query, index, aliases, limit).len() ==> {
                let p = #[trigger] suggestions_for(query, index, aliases, limit)[k];
                &&& query.is_prefix_of(p.0)
                &&& aliases.contains(p.0)
                &&& index.contains_key(p.0)
                &&& p.1 == index[p.0]
            },
{
    let pred = |a: Seq<char>| query.is_prefix_of(a);
    let matching = aliases_with_prefix(aliases, query);
    let chosen = matching.take(clamp_index(limit, matching.len() as int));
    lemma_bound_pairs_len(chosen, index);
    assert forall|k: int| 0 <= k < suggestions_for(query, index, aliases, limit).len() implies {
        let p = #[trigger] suggestions_for(query, index, aliases, limit)[k];
        &&& query.is_prefix_of(p.0)
        &&& aliases.contains(p.0)
        &&& index.contains_key(p.0)
        &&& p.1 == index[p.0]
    } by {
        lemma_bound_pairs(chosen, index, k);
        lemma_bound_pairs_from(chosen, index, k);
        let a = bound_pairs(chosen, index)[k].0;
        let j = choose|j: int| 0 <= j < chosen.len() && chosen[j] == a;
        assert(matching[j] == a);
        aliases.lemma_filter_pred(pred, j);
        assert(matching.contains(a));
        aliases.lemma_filter_contains_rev(pred, a);
    }
}

proof fn lemma_bound_pairs_keys(chosen: Seq<Seq<char>>, index: Map<Seq<char>, Seq<char>>)
    ensures
        bound_pairs(chosen, index).map_values(|p: (Seq<char>, Seq<char>)| p.0) == chosen.filter(
            |a: Seq<char>| index.contains_key(a),
        ),
    decreases chosen.len(),
{
    reveal(Seq::filter);
    let pred = |a: Seq<char>| index.contains_key(a);
    if chosen.len() > 0 {
        lemma_bound_pairs_keys(chosen.drop_last(), index);
        let rest = bound_pairs(chosen.drop_last(), index);
        if index.contains_key(chosen.last()) {
            assert(rest.push((chosen.last(), index[chosen.last()])).map_values(
                |p: (Seq<char>, Seq<char>)| p.0,
            ) =~= rest.map_values(|p: (Seq<char>, Seq<char>)| p.0).push(chosen.last()));
        }
    } else {
        assert(bound_pairs(chosen, index).map_values(|p: (Seq<char>, Seq<char>)| p.0) =~= chosen);
    }
}

/// The suggestions keep the order of the aliases: they are, in order, the
/// first `limit` aliases that start with the query, less those that the
/// index does not bind; when the index binds every alias, they are exactly
/// the first `limit` aliases that start with the query (all of them when
/// there are fewer).
pub proof fn suggestions_keep_the_alias_order(
    query: Seq<char>,
    index: Map<Seq<char>, Seq<char>>,
    aliases: Seq<Seq<char>>,
    limit: int,
)
    requires
        0 <= limit,
    ensures
        ({
            let matching = aliases_with_prefix(aliases, query);
            let first = matching.take(clamp_index(limit, matching.len() as int));
            let keys = suggestions_for(query, index, aliases, limit).map_values(
                |p: (Seq<char>, Seq<char>)| p.0,
            );
            &&& keys == first.filter(|a: Seq<char>| index.contains_key(a))
            &&& (forall|a: Seq<char>| #[trigger] aliases.contains(a) ==> index.contains_key(a))
                ==> keys == first
        }),
{
    let matching = aliases_with_prefix(aliases, query);
    let first = matching.take(clamp_index(limit, matching.len() as int));
    let pred = |a: Seq<char>| index.contains_key(a);
    lemma_bound_pairs_keys(first, index);
    if forall|a: Seq<char>| #[trigger] aliases.contains(a) ==> index.contains_key(a) {
        assert forall|k: int| 0 <= k < first.len() implies pred(#[trigger] first[k]) by {
            let qp = |a: Seq<char>| query.is_prefix_of(a);
            assert(matching[k] == first[k]);
            aliases.lemma_filter_contains_rev(qp, first[k]);
        }
        lemma_filter_all(first, pred);
    }
}

proof fn lemma_filter_all(s: Seq<Seq<char>>, pred: spec_fn(Seq<char>) -> bool)
    requires
        forall|k: int| 0 <= k < s.len() ==> pred(#[trigger] s[k]),
    ensures
        s.filter(pred) == s,
    decreases s.len(),
{
    reveal(Seq::filter);
    if s.len() > 0 {
        lemma_filter_all(s.drop_last(), pred);
        assert(s.drop_last().push(s.last()) =~= s);
    } else {
        assert(s.filter(pred) =~= s);
    }
}

} // verus!
