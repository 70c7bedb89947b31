//! Resolving in place: each match of the scan replaced where it stands.
//! This is what the resolver computes on texts in which no shortcode with a
//! glyph starts at the colon that closes a match.

use crate::distinct::{distinct_sorted, lemma_distinct_sorted_members};
use crate::resolver::{bare_name, lookup, resolve, resolve_each};
use crate::shortcode::{
    body_end, is_body_char, is_shortcode, lemma_body_end, lemma_body_end_is, lemma_body_end_shift,
    lemma_matches_are_shortcodes, lemma_matches_from_shift, lemma_matches_skip,
    lemma_occurrence_is_match, lemma_shortcode_end, matches_from,
    shortcode_end, shortcode_matches,
};
use crate::text::{
    lemma_replace_all_concat, lemma_replace_all_of_pattern, lemma_replace_all_without_occurrence,
    occurs_at, replace_all,
};
use vstd::prelude::*;

verus! {

/// The glyph that `table` holds for `shortcode`, looked up by its name.
pub open spec fn glyph_for(table: Map<Seq<char>, Seq<char>>, shortcode: Seq<char>) -> Option<
    Seq<char>,
> {
    lookup(table, bare_name(shortcode))
}

/// A glyph that no shortcode can run into: it is not empty, and holds no
/// colon and no body character.
pub open spec fn inert(glyph: Seq<char>) -> bool {
    &&& glyph.len() > 0
    &&& forall|k: int| 0 <= k < glyph.len() ==> #[trigger] glyph[k] != ':' && !is_body_char(glyph[k])
}

/// Every glyph of `table` is inert.
pub open spec fn table_inert(table: Map<Seq<char>, Seq<char>>) -> bool {
    forall|name: Seq<char>| table.dom().contains(name) ==> inert(#[trigger] table[name])
}

/// The colon that closes the shortcode starting at `i` also opens a
/// shortcode.
pub open spec fn shares_colon(s: Seq<char>, i: int) -> bool {
    shortcode_end(s, i) matches Some(e) && shortcode_end(s, e - 1) is Some
}

/// No two shortcodes of `s` share a colon: none starts where another ends.
pub open spec fn separated(s: Seq<char>) -> bool {
    forall|i: int| !#[trigger] shares_colon(s, i)
}

/// From `i` on, no shortcode with a glyph starts at the colon that closes a
/// match of the scan.
pub open spec fn unshadowed_from(table: Map<Seq<char>, Seq<char>>, s: Seq<char>, i: int) -> bool
    decreases s.len() - i,
{
    if i < 0 || i >= s.len() {
        true
    } else {
        match shortcode_end(s, i) {
            Some(e) => {
                &&& match shortcode_end(s, e - 1) {
                    Some(end) => glyph_for(table, s.subrange(e - 1, end)) is None,
                    None => true,
                }
                &&& unshadowed_from(table, s, e)
            },
            None => unshadowed_from(table, s, i + 1),
        }
    }
}

/// No shortcode with a glyph starts at the colon that closes a match of
/// the scan of `s`: replacing a shortcode never reaches into a match.
pub open spec fn unshadowed(table: Map<Seq<char>, Seq<char>>, s: Seq<char>) -> bool {
    unshadowed_from(table, s, 0)
}

/// What stands for the match `t` once the shortcodes in `done` have been
/// resolved: its glyph if `t` is among them and has one, else `t`.
pub open spec fn piece(table: Map<Seq<char>, Seq<char>>, done: Set<Seq<char>>, t: Seq<char>) -> Seq<
    char,
> {
    match glyph_for(table, t) {
        Some(glyph) => if done.contains(t) {
            glyph
        } else {
            t
        },
        None => t,
    }
}

/// `s` from `i` on, with each match of the scan that is in `done` and has a
/// glyph replaced by it, where it stands.
pub open spec fn partly_resolved(
    table: Map<Seq<char>, Seq<char>>,
    done: Set<Seq<char>>,
    s: Seq<char>,
    i: int,
) -> Seq<char>
    decreases s.len() - i,
{
    if i < 0 || i >= s.len() {
        Seq::empty()
    } else {
        match shortcode_end(s, i) {
            Some(e) => piece(table, done, s.subrange(i, e)) + partly_resolved(table, done, s, e),
            None => seq![s[i]] + partly_resolved(table, done, s, i + 1),
        }
    }
}

/// `s` with each match of the scan that has a glyph replaced by it, where
/// it stands; everything else is copied.
pub open spec fn resolved_in_place(table: Map<Seq<char>, Seq<char>>, s: Seq<char>) -> Seq<char> {
    partly_resolved(table, Set::full(), s, 0)
}

/// The matches of the scan of `s` from `i` on that have no glyph, in order.
pub open spec fn unknown_matches_from(table: Map<Seq<char>, Seq<char>>, s: Seq<char>, i: int) -> Seq<
    Seq<char>,
>
    decreases s.len() - i,
{
    if i < 0 || i >= s.len() {
        Seq::empty()
    } else {
        match shortcode_end(s, i) {
            Some(e) => {
                let found = if glyph_for(table, s.subrange(i, e)) is None {
                    seq![s.subrange(i, e)]
                } else {
                    Seq::empty()
                };
                found + unknown_matches_from(table, s, e)
            },
            None => unknown_matches_from(table, s, i + 1),
        }
    }
}

/// The matches of the scan of `s` that have no glyph, in order.
pub open spec fn unknown_matches(table: Map<Seq<char>, Seq<char>>, s: Seq<char>) -> Seq<Seq<char>> {
    unknown_matches_from(table, s, 0)
}

/// A partly resolved text starts with the body characters that `s` has
/// from `j` on, and what follows them is a colon only where `s` has one.
proof fn lemma_body_run_is_kept(
    table: Map<Seq<char>, Seq<char>>,
    done: Set<Seq<char>>,
    s: Seq<char>,
    j: int,
)
    requires
        table_inert(table),
        0 <= j <= s.len(),
    ensures
        ({
            let x = partly_resolved(table, done, s, j);
            let r = body_end(s, j);
            &&& body_end(x, 0) == r - j
            &&& r - j <= x.len()
            &&& forall|k: int| 0 <= k < r - j ==> #[trigger] x[k] == s[j + k]
            &&& (r - j < x.len() && x[r - j] == ':' ==> r < s.len() && s[r] == ':')
        }),
    decreases s.len() - j,
{
    let x = partly_resolved(table, done, s, j);
    let r = body_end(s, j);
    lemma_body_end(s, j);
    if j < s.len() {
        if is_body_char(s[j]) {
            lemma_body_end(s, j + 1);
            let rest = partly_resolved(table, done, s, j + 1);
            assert(shortcode_end(s, j) is None);
            assert(x == seq![s[j]] + rest);
            lemma_body_run_is_kept(table, done, s, j + 1);
            lemma_body_end_shift(seq![s[j]], rest, 0);
            assert(x[0] == s[j]);
            assert(body_end(x, 0) == body_end(x, 1));
            if r - j < x.len() {
                assert(x[r - j] == rest[r - j - 1]);
            }
            assert forall|k: int| 0 <= k < r - j implies #[trigger] x[k] == s[j + k] by {
                if k > 0 {
                    assert(x[k] == rest[k - 1]);
                }
            }
        } else {
            match shortcode_end(s, j) {
                Some(e) => {
                    lemma_shortcode_end(s, j);
                    let t = s.subrange(j, e);
                    let first = piece(table, done, t);
                    assert(x == first + partly_resolved(table, done, s, e));
                    assert(t[0] == s[j]);
                    if first != t {
                        assert(table.dom().contains(bare_name(t)));
                        assert(inert(table[bare_name(t)]));
                        assert(first[0] != ':' && !is_body_char(first[0]));
                    }
                    assert(x[0] == first[0]);
                },
                None => {
                    assert(x[0] == s[j]);
                },
            }
        }
    }
}

/// Where a partly resolved text follows a colon, a shortcode starts at that
/// colon only if `s` has a body run and then a colon from `j` on.
proof fn lemma_match_at_colon(
    table: Map<Seq<char>, Seq<char>>,
    done: Set<Seq<char>>,
    s: Seq<char>,
    j: int,
    a: Seq<char>,
)
    requires
        table_inert(table),
        0 <= j <= s.len(),
        a.len() > 0,
        shortcode_end(a + partly_resolved(table, done, s, j), a.len() - 1) is Some,
    ensures
        j < body_end(s, j) < s.len(),
        s[body_end(s, j)] == ':',
        shortcode_end(a + partly_resolved(table, done, s, j), a.len() - 1) == Some(
            a.len() + (body_end(s, j) - j) + 1,
        ),
        forall|k: int|
            0 <= k < body_end(s, j) - j ==> #[trigger] partly_resolved(table, done, s, j)[k] == s[j
                + k],
{
    let x = partly_resolved(table, done, s, j);
    lemma_body_run_is_kept(table, done, s, j);
    lemma_body_end_shift(a, x, 0);
    let r = body_end(s, j);
    assert((a + x)[a.len() + (r - j)] == x[r - j]);
}

/// With nothing done, nothing is replaced.
proof fn lemma_nothing_done(table: Map<Seq<char>, Seq<char>>, s: Seq<char>, i: int)
    requires
        0 <= i <= s.len(),
    ensures
        partly_resolved(table, Set::empty(), s, i) == s.subrange(i, s.len() as int),
    decreases s.len() - i,
{
    let all = s.len() as int;
    if i < s.len() {
        match shortcode_end(s, i) {
            Some(e) => {
                lemma_shortcode_end(s, i);
                lemma_nothing_done(table, s, e);
                assert(s.subrange(i, e) + s.subrange(e, all) =~= s.subrange(i, all));
            },
            None => {
                lemma_nothing_done(table, s, i + 1);
                assert(seq![s[i]] + s.subrange(i + 1, all) =~= s.subrange(i, all));
            },
        }
    } else {
        assert(s.subrange(i, all) =~= Seq::<char>::empty());
    }
}

/// Two sets that agree on the matches with a glyph give the same text.
proof fn lemma_same_pieces(
    table: Map<Seq<char>, Seq<char>>,
    d1: Set<Seq<char>>,
    d2: Set<Seq<char>>,
    s: Seq<char>,
    i: int,
)
    requires
        forall|k: int|
            0 <= k < matches_from(s, i).len() ==> piece(table, d1, #[trigger] matches_from(s, i)[k])
                == piece(table, d2, matches_from(s, i)[k]),
    ensures
        partly_resolved(table, d1, s, i) == partly_resolved(table, d2, s, i),
    decreases s.len() - i,
{
    if 0 <= i < s.len() {
        match shortcode_end(s, i) {
            Some(e) => {
                lemma_shortcode_end(s, i);
                let here = matches_from(s, i);
                let rest = matches_from(s, e);
                assert(here[0] == s.subrange(i, e));
                assert forall|k: int| 0 <= k < rest.len() implies piece(table, d1, #[trigger] rest[k])
                    == piece(table, d2, rest[k]) by {
                    assert(here[k + 1] == rest[k]);
                }
                lemma_same_pieces(table, d1, d2, s, e);
            },
            None => {
                assert(matches_from(s, i) == matches_from(s, i + 1));
                lemma_same_pieces(table, d1, d2, s, i + 1);
            },
        }
    }
}

/// The only place where a shortcode stands in a shortcode is its start, and
/// then the two are the same.
proof fn lemma_shortcode_in_shortcode(outer: Seq<char>, t: Seq<char>, p: int)
    requires
        is_shortcode(outer),
        is_shortcode(t),
        occurs_at(outer, t, p),
    ensures
        p == 0,
        t == outer,
{
    lemma_occurrence_is_match(outer, t, p);
    let n = outer.len() as int;
    assert(outer[p] == ':');
    if 0 < p < n - 1 {
        assert(is_body_char(outer[p]));
    }
    lemma_body_end_is(outer, 1, n - 1);
    assert(outer.subrange(0, n) =~= outer);
}

/// Replacing the shortcode `t` by its glyph in a partly resolved text gives
/// the text in which `t` is done too.
proof fn lemma_one_more_done(
    table: Map<Seq<char>, Seq<char>>,
    done: Set<Seq<char>>,
    s: Seq<char>,
    t: Seq<char>,
    i: int,
)
    requires
        table_inert(table),
        unshadowed_from(table, s, i),
        is_shortcode(t),
        glyph_for(table, t) is Some,
        0 <= i <= s.len(),
    ensures
        replace_all(partly_resolved(table, done, s, i), t, glyph_for(table, t)->0)
            == partly_resolved(table, done.insert(t), s, i),
    decreases s.len() - i,
{
    let g = glyph_for(table, t)->0;
    let more = done.insert(t);
    if i < s.len() {
        match shortcode_end(s, i) {
            Some(e) => {
                lemma_shortcode_end(s, i);
                let m = s.subrange(i, e);
                let first = piece(table, done, m);
                let rest = partly_resolved(table, done, s, e);
                lemma_one_more_done(table, done, s, t, e);
                let replaced = piece(table, more, m);
                // No occurrence of `t` starts in `first` and ends in `rest`.
                assert forall|p: int| 0 <= p < first.len() && p + t.len() > first.len() implies !occurs_at(
                    first + rest,
                    t,
                    p,
                ) by {
                    if occurs_at(first + rest, t, p) {
                        lemma_occurrence_is_match(first + rest, t, p);
                        assert((first + rest)[p] == first[p]);
                        if first != m {
                            assert(inert(table[bare_name(m)]));
                            assert(first[p] != ':');
                        } else {
                            if 0 < p < m.len() - 1 {
                                assert(is_body_char(m[p]));
                            }
                            if p == 0 {
                                let q = m.len() - 1;
                                assert((first + rest).subrange(0, t.len() as int)[q] == m[q]);
                                assert(is_body_char(t[q]));
                            } else {
                                lemma_match_at_colon(table, done, s, e, m);
                                let r = body_end(s, e);
                                assert(s[e - 1] == m[m.len() - 1]);
                                assert(shortcode_end(s, e - 1) == Some(r + 1));
                                let both = first + rest;
                                assert(t =~= s.subrange(e - 1, r + 1)) by {
                                    assert(t == both.subrange(p, p + t.len()));
                                    assert forall|k: int| 0 <= k < t.len() implies t[k] == s[e - 1
                                        + k] by {
                                        assert(t[k] == both[p + k]);
                                        if k == 0 {
                                        } else if k < t.len() - 1 {
                                            assert(both[p + k] == rest[k - 1]);
                                        } else {
                                            assert(t[k] == ':');
                                        }
                                    }
                                }
                            }
                        }
                    }
                }
                lemma_replace_all_concat(first, rest, t, g);
                // What `first` becomes.
                if first != m {
                    assert forall|p: int| 0 <= p < first.len() implies !occurs_at(first, t, p) by {
                        if occurs_at(first, t, p) {
                            assert(first.subrange(p, p + t.len())[0] == first[p]);
                            assert(inert(table[bare_name(m)]));
                        }
                    }
                    lemma_replace_all_without_occurrence(first, t, g);
                    assert(replaced == first);
                } else if m == t {
                    lemma_replace_all_of_pattern(t, g);
                    assert(replaced == g);
                } else {
                    assert forall|p: int| 0 <= p < m.len() implies !occurs_at(m, t, p) by {
                        if occurs_at(m, t, p) {
                            lemma_shortcode_in_shortcode(m, t, p);
                        }
                    }
                    lemma_replace_all_without_occurrence(m, t, g);
                    assert(replaced == m);
                }
            },
            None => {
                let first = seq![s[i]];
                let rest = partly_resolved(table, done, s, i + 1);
                lemma_one_more_done(table, done, s, t, i + 1);
                assert forall|p: int| 0 <= p < first.len() && p + t.len() > first.len() implies !occurs_at(
                    first + rest,
                    t,
                    p,
                ) by {
                    if occurs_at(first + rest, t, p) {
                        lemma_occurrence_is_match(first + rest, t, p);
                        assert((first + rest)[0] == s[i]);
                        lemma_match_at_colon(table, done, s, i + 1, first);
                        assert(shortcode_end(s, i) is Some);
                    }
                }
                lemma_replace_all_concat(first, rest, t, g);
                assert forall|p: int| 0 <= p < first.len() implies !occurs_at(first, t, p) by {}
                lemma_replace_all_without_occurrence(first, t, g);
            },
        }
    }
}

/// After the shortcodes of `codes` have been resolved one by one, each
/// match that is among them and has a glyph has been replaced where it
/// stands, and nothing else has changed.
proof fn lemma_resolve_each_in_place(
    table: Map<Seq<char>, Seq<char>>,
    s: Seq<char>,
    codes: Seq<Seq<char>>,
)
    requires
        table_inert(table),
        unshadowed(table, s),
        forall|k: int| 0 <= k < codes.len() ==> is_shortcode(#[trigger] codes[k]),
    ensures
        resolve_each(table, s, codes) == partly_resolved(table, codes.to_set(), s, 0),
    decreases codes.len(),
{
    if codes.len() == 0 {
        lemma_nothing_done(table, s, 0);
        assert(s.subrange(0, s.len() as int) =~= s);
        assert(codes.to_set() =~= Set::<Seq<char>>::empty());
    } else {
        let init = codes.drop_last();
        let t = codes.last();
        lemma_resolve_each_in_place(table, s, init);
        assert(is_shortcode(codes[codes.len() - 1]));
        assert(init.to_set().insert(t) =~= codes.to_set()) by {
            assert forall|x: Seq<char>| init.to_set().insert(t).contains(x) == codes.to_set().contains(
                x,
            ) by {
                if init.contains(x) {
                    let k = choose|k: int| 0 <= k < init.len() && init[k] == x;
                    assert(codes[k] == x);
                }
                if codes.contains(x) {
                    let k = choose|k: int| 0 <= k < codes.len() && codes[k] == x;
                    if k < codes.len() - 1 {
                        assert(init[k] == x);
                    }
                }
                assert(codes[codes.len() - 1] == t);
            }
        }
        if glyph_for(table, t) is Some {
            lemma_one_more_done(table, init.to_set(), s, t, 0);
        } else {
            lemma_same_pieces(table, init.to_set(), codes.to_set(), s, 0);
        }
    }
}

/// Where no two shortcodes share a colon, none is shadowed.
pub proof fn lemma_separated_is_unshadowed(table: Map<Seq<char>, Seq<char>>, s: Seq<char>, i: int)
    requires
        separated(s),
    ensures
        unshadowed_from(table, s, i),
    decreases s.len() - i,
{
    if 0 <= i < s.len() {
        match shortcode_end(s, i) {
            Some(e) => {
                lemma_shortcode_end(s, i);
                assert(!shares_colon(s, i));
                lemma_separated_is_unshadowed(table, s, e);
            },
            None => {
                lemma_separated_is_unshadowed(table, s, i + 1);
            },
        }
    }
}

/// Resolving a text in which no shortcode with a glyph is shadowed, against
/// a table of inert glyphs, replaces each match of the scan that has a
/// glyph where it stands, and changes nothing else.
pub proof fn lemma_resolve_in_place(table: Map<Seq<char>, Seq<char>>, s: Seq<char>)
    requires
        table_inert(table),
        unshadowed(table, s),
    ensures
        resolve(table, s) == resolved_in_place(table, s),
{
    let found = shortcode_matches(s);
    let codes = distinct_sorted(found);
    lemma_distinct_sorted_members(found);
    lemma_matches_are_shortcodes(s, 0);
    assert forall|k: int| 0 <= k < codes.len() implies is_shortcode(#[trigger] codes[k]) by {
        assert(codes.contains(codes[k]));
        assert(found.contains(codes[k]));
        let j = choose|j: int| 0 <= j < found.len() && found[j] == codes[k];
        assert(is_shortcode(found[j]));
    }
    lemma_resolve_each_in_place(table, s, codes);
    assert forall|k: int| 0 <= k < found.len() implies piece(
        table,
        codes.to_set(),
        #[trigger] found[k],
    ) == piece(table, Set::full(), found[k]) by {
        assert(found.contains(found[k]));
        assert(codes.contains(found[k]));
    }
    lemma_same_pieces(table, codes.to_set(), Set::full(), s, 0);
}

/// The scan of a text resolved in place finds the matches of `s` that have
/// no glyph, and no others.
pub proof fn lemma_matches_of_resolved(table: Map<Seq<char>, Seq<char>>, s: Seq<char>, i: int)
    requires
        table_inert(table),
        0 <= i <= s.len(),
    ensures
        matches_from(partly_resolved(table, Set::full(), s, i), 0) == unknown_matches_from(
            table,
            s,
            i,
        ),
    decreases s.len() - i,
{
    let done = Set::<Seq<char>>::full();
    let x = partly_resolved(table, done, s, i);
    if i < s.len() {
        match shortcode_end(s, i) {
            Some(e) => {
                lemma_shortcode_end(s, i);
                let m = s.subrange(i, e);
                let first = piece(table, done, m);
                let rest = partly_resolved(table, done, s, e);
                lemma_matches_of_resolved(table, s, e);
                lemma_matches_from_shift(first, rest, 0);
                if glyph_for(table, m) is Some {
                    assert(inert(table[bare_name(m)]));
                    assert forall|p: int| 0 <= p < first.len() implies shortcode_end(x, p) is None by {
                        assert(x[p] == first[p]);
                    }
                    lemma_matches_skip(x, 0, first.len() as int);
                    assert(Seq::<Seq<char>>::empty() + unknown_matches_from(table, s, e)
                        =~= unknown_matches_from(table, s, e));
                } else {
                    assert(x.subrange(0, m.len() as int) =~= m);
                    lemma_occurrence_is_match(x, m, 0);
                }
            },
            None => {
                let first = seq![s[i]];
                let rest = partly_resolved(table, done, s, i + 1);
                lemma_matches_of_resolved(table, s, i + 1);
                lemma_matches_from_shift(first, rest, 0);
                if shortcode_end(x, 0) is Some {
                    assert(x[0] == s[i]);
                    lemma_match_at_colon(table, done, s, i + 1, first);
                    assert(shortcode_end(s, i) is Some);
                }
            },
        }
    }
}

/// None of the matches without a glyph has a glyph.
pub proof fn lemma_unknown_matches_are_unknown(
    table: Map<Seq<char>, Seq<char>>,
    s: Seq<char>,
    i: int,
)
    ensures
        forall|k: int|
            0 <= k < unknown_matches_from(table, s, i).len() ==> glyph_for(
                table,
                #[trigger] unknown_matches_from(table, s, i)[k],
            ) is None,
    decreases s.len() - i,
{
    let here = unknown_matches_from(table, s, i);
    if 0 <= i < s.len() {
        match shortcode_end(s, i) {
            Some(e) => {
                lemma_shortcode_end(s, i);
                lemma_unknown_matches_are_unknown(table, s, e);
                let rest = unknown_matches_from(table, s, e);
                assert forall|k: int| 0 <= k < here.len() implies glyph_for(table, #[trigger] here[k])
                    is None by {
                    if glyph_for(table, s.subrange(i, e)) is None {
                        if k > 0 {
                            assert(here[k] == rest[k - 1]);
                        }
                    } else {
                        assert(here =~= rest);
                    }
                }
            },
            None => {
                lemma_unknown_matches_are_unknown(table, s, i + 1);
            },
        }
    }
}

} // verus!
