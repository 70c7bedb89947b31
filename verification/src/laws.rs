//! What holds of the resolver on every text.

use crate::distinct::{distinct_sorted, insert_distinct, insert_index, lemma_distinct_sorted_members};
use crate::in_place::{
    glyph_for, inert, lemma_matches_of_resolved, lemma_resolve_in_place,
    lemma_unknown_matches_are_unknown, table_inert, unknown_matches, unshadowed,
};
use crate::resolver::{resolve, resolve_each, resolve_one};
use crate::shortcode::{
    colon_free, is_shortcode, lemma_match_is_occurrence, lemma_matches_are_shortcodes,
    lemma_matches_from_shift, lemma_matches_skip, lemma_occurrence_is_match, matches_from,
    shortcode_end, shortcode_matches,
};
use crate::text::{
    lemma_replace_all_concat, lemma_replace_all_without_occurrence, lemma_replace_from_shift,
    occurs_at, replace_all, replace_from,
};
use vstd::prelude::*;

verus! {

/// A shortcode without a glyph leaves the text as it is, wherever it
/// occurs in it.
pub proof fn lemma_unknown_shortcode_changes_nothing(
    table: Map<Seq<char>, Seq<char>>,
    buffer: Seq<char>,
    shortcode: Seq<char>,
)
    requires
        glyph_for(table, shortcode) is None,
    ensures
        resolve_one(table, buffer, shortcode) == buffer,
{
}

/// Shortcodes without a glyph, resolved one by one, leave the text as it
/// is.
pub proof fn lemma_unknown_shortcodes_change_nothing(
    table: Map<Seq<char>, Seq<char>>,
    buffer: Seq<char>,
    shortcodes: Seq<Seq<char>>,
)
    requires
        forall|k: int| 0 <= k < shortcodes.len() ==> glyph_for(table, #[trigger] shortcodes[k]) is None,
    ensures
        resolve_each(table, buffer, shortcodes) == buffer,
    decreases shortcodes.len(),
{
    if shortcodes.len() > 0 {
        let init = shortcodes.drop_last();
        assert forall|k: int| 0 <= k < init.len() implies glyph_for(table, #[trigger] init[k]) is None by {
            assert(init[k] == shortcodes[k]);
        }
        lemma_unknown_shortcodes_change_nothing(table, buffer, init);
        assert(glyph_for(table, shortcodes[shortcodes.len() - 1]) is None);
    }
}

/// A text whose matches all lack a glyph is left as it is: no unknown
/// shortcode is deleted or altered.
pub proof fn lemma_nothing_known_changes_nothing(table: Map<Seq<char>, Seq<char>>, text: Seq<char>)
    requires
        settled(table, text),
    ensures
        resolve(table, text) == text,
{
    let found = shortcode_matches(text);
    let codes = distinct_sorted(found);
    lemma_distinct_sorted_members(found);
    assert forall|k: int| 0 <= k < codes.len() implies glyph_for(table, #[trigger] codes[k]) is None by {
        assert(codes.contains(codes[k]));
        assert(found.contains(codes[k]));
        let j = choose|j: int| 0 <= j < found.len() && found[j] == codes[k];
        assert(glyph_for(table, found[j]) is None);
    }
    lemma_unknown_shortcodes_change_nothing(table, text, codes);
}

/// In a text without a colon the scan finds nothing.
pub proof fn lemma_colon_free_has_no_match(text: Seq<char>)
    requires
        colon_free(text),
    ensures
        shortcode_matches(text) == Seq::<Seq<char>>::empty(),
{
    assert forall|p: int| 0 <= p < text.len() implies shortcode_end(text, p) is None by {
        assert(text[p] != ':');
    }
    lemma_matches_skip(text, 0, text.len() as int);
}

/// A text without a colon is left as it is.
pub proof fn lemma_colon_free_is_unchanged(table: Map<Seq<char>, Seq<char>>, text: Seq<char>)
    requires
        colon_free(text),
    ensures
        resolve(table, text) == text,
{
    lemma_colon_free_has_no_match(text);
    lemma_nothing_known_changes_nothing(table, text);
}

/// No match of the scan of `text` has a glyph: nothing is left to resolve.
pub open spec fn settled(table: Map<Seq<char>, Seq<char>>, text: Seq<char>) -> bool {
    forall|k: int|
        0 <= k < shortcode_matches(text).len() ==> glyph_for(
            table,
            #[trigger] shortcode_matches(text)[k],
        ) is None
}

/// `t` stands somewhere in `text`.
pub open spec fn occurs(text: Seq<char>, t: Seq<char>) -> bool {
    exists|p: int| occurs_at(text, t, p)
}

/// The number of colons in `text`.
pub open spec fn colons(text: Seq<char>) -> nat
    decreases text.len(),
{
    if text.len() == 0 {
        0
    } else {
        colons(text.drop_last()) + if text.last() == ':' {
            1nat
        } else {
            0nat
        }
    }
}

/// The colons of a text put together from two are those of the two.
pub proof fn lemma_colons_concat(a: Seq<char>, b: Seq<char>)
    ensures
        colons(a + b) == colons(a) + colons(b),
    decreases b.len(),
{
    if b.len() == 0 {
        assert(a + b =~= a);
    } else {
        lemma_colons_concat(a, b.drop_last());
        assert((a + b).drop_last() =~= a + b.drop_last());
        assert((a + b).last() == b.last());
    }
}

/// A text without a colon has none to count.
pub proof fn lemma_colons_of_colon_free(text: Seq<char>)
    requires
        colon_free(text),
    ensures
        colons(text) == 0,
    decreases text.len(),
{
    if text.len() > 0 {
        assert forall|k: int| 0 <= k < text.drop_last().len() implies #[trigger] text.drop_last()[k]
            != ':' by {
            assert(text.drop_last()[k] == text[k]);
        }
        lemma_colons_of_colon_free(text.drop_last());
        assert(text.last() == text[text.len() - 1]);
    }
}

/// Replacing by a text without a colon adds no colon.
pub proof fn lemma_replace_adds_no_colon(text: Seq<char>, pat: Seq<char>, rep: Seq<char>, i: int)
    requires
        colon_free(rep),
        0 <= i <= text.len(),
    ensures
        colons(replace_from(text, pat, rep, i)) <= colons(text.subrange(i, text.len() as int)),
    decreases text.len() - i,
{
    let all = text.len() as int;
    if i < text.len() {
        if pat.len() > 0 && occurs_at(text, pat, i) {
            let next = i + pat.len();
            lemma_replace_adds_no_colon(text, pat, rep, next);
            lemma_colons_of_colon_free(rep);
            lemma_colons_concat(rep, replace_from(text, pat, rep, next));
            assert(text.subrange(i, all) =~= pat + text.subrange(next, all));
            lemma_colons_concat(pat, text.subrange(next, all));
        } else {
            lemma_replace_adds_no_colon(text, pat, rep, i + 1);
            lemma_colons_concat(seq![text[i]], replace_from(text, pat, rep, i + 1));
            assert(text.subrange(i, all) =~= seq![text[i]] + text.subrange(i + 1, all));
            lemma_colons_concat(seq![text[i]], text.subrange(i + 1, all));
        }
    }
}

/// Replacing a pattern that holds a colon, by a text that holds none,
/// takes colons away wherever the pattern occurs.
pub proof fn lemma_replace_takes_colons(
    text: Seq<char>,
    pat: Seq<char>,
    rep: Seq<char>,
    i: int,
    p: int,
)
    requires
        colon_free(rep),
        colons(pat) > 0,
        0 <= i <= p,
        occurs_at(text, pat, p),
    ensures
        colons(replace_from(text, pat, rep, i)) < colons(text.subrange(i, text.len() as int)),
    decreases text.len() - i,
{
    let all = text.len() as int;
    assert(pat.len() > 0);
    if occurs_at(text, pat, i) {
        let next = i + pat.len();
        lemma_replace_adds_no_colon(text, pat, rep, next);
        lemma_colons_of_colon_free(rep);
        lemma_colons_concat(rep, replace_from(text, pat, rep, next));
        assert(text.subrange(i, all) =~= pat + text.subrange(next, all));
        lemma_colons_concat(pat, text.subrange(next, all));
    } else {
        lemma_replace_takes_colons(text, pat, rep, i + 1, p);
        lemma_colons_concat(seq![text[i]], replace_from(text, pat, rep, i + 1));
        assert(text.subrange(i, all) =~= seq![text[i]] + text.subrange(i + 1, all));
        lemma_colons_concat(seq![text[i]], text.subrange(i + 1, all));
    }
}

/// With inert glyphs, resolving shortcodes one by one adds no colon.
pub proof fn lemma_resolve_each_adds_no_colon(
    table: Map<Seq<char>, Seq<char>>,
    buffer: Seq<char>,
    shortcodes: Seq<Seq<char>>,
)
    requires
        table_inert(table),
    ensures
        colons(resolve_each(table, buffer, shortcodes)) <= colons(buffer),
    decreases shortcodes.len(),
{
    if shortcodes.len() > 0 {
        let init = shortcodes.drop_last();
        let t = shortcodes.last();
        lemma_resolve_each_adds_no_colon(table, buffer, init);
        let before = resolve_each(table, buffer, init);
        if glyph_for(table, t) is Some {
            let g = glyph_for(table, t)->0;
            assert(inert(g));
            lemma_replace_adds_no_colon(before, t, g, 0);
            assert(before.subrange(0, before.len() as int) =~= before);
        }
    }
}

/// With inert glyphs, resolving shortcodes that all occur in the text, one
/// of them with a glyph, takes colons away.
pub proof fn lemma_resolve_each_takes_colons(
    table: Map<Seq<char>, Seq<char>>,
    buffer: Seq<char>,
    shortcodes: Seq<Seq<char>>,
)
    requires
        table_inert(table),
        forall|k: int|
            0 <= k < shortcodes.len() ==> is_shortcode(#[trigger] shortcodes[k]) && occurs(
                buffer,
                shortcodes[k],
            ),
        exists|k: int| 0 <= k < shortcodes.len() && glyph_for(table, #[trigger] shortcodes[k]) is Some,
    ensures
        colons(resolve_each(table, buffer, shortcodes)) < colons(buffer),
    decreases shortcodes.len(),
{
    let init = shortcodes.drop_last();
    let t = shortcodes.last();
    let before = resolve_each(table, buffer, init);
    assert(shortcodes[shortcodes.len() - 1] == t);
    assert forall|k: int| 0 <= k < init.len() implies is_shortcode(#[trigger] init[k]) && occurs(
        buffer,
        init[k],
    ) by {
        assert(init[k] == shortcodes[k]);
    }
    if exists|k: int| 0 <= k < init.len() && glyph_for(table, #[trigger] init[k]) is Some {
        lemma_resolve_each_takes_colons(table, buffer, init);
        if glyph_for(table, t) is Some {
            let g = glyph_for(table, t)->0;
            assert(inert(g));
            lemma_replace_adds_no_colon(before, t, g, 0);
            assert(before.subrange(0, before.len() as int) =~= before);
        }
    } else {
        let w = choose|k: int|
            0 <= k < shortcodes.len() && glyph_for(table, #[trigger] shortcodes[k]) is Some;
        if w < init.len() {
            assert(init[w] == shortcodes[w]);
        }
        assert(glyph_for(table, t) is Some);
        assert forall|k: int| 0 <= k < init.len() implies glyph_for(table, #[trigger] init[k]) is None by {}
        lemma_unknown_shortcodes_change_nothing(table, buffer, init);
        let g = glyph_for(table, t)->0;
        assert(inert(g));
        let p = choose|p: int| occurs_at(buffer, t, p);
        assert(occurs(buffer, t));
        assert(t.last() == ':');
        lemma_replace_takes_colons(buffer, t, g, 0, p);
        assert(buffer.subrange(0, buffer.len() as int) =~= buffer);
    }
}

/// Every match of the scan stands somewhere in the text.
pub proof fn lemma_matches_occur(s: Seq<char>, i: int)
    ensures
        forall|k: int| 0 <= k < matches_from(s, i).len() ==> occurs(s, #[trigger] matches_from(s, i)[k]),
    decreases s.len() - i,
{
    let here = matches_from(s, i);
    if 0 <= i < s.len() {
        match shortcode_end(s, i) {
            Some(e) => {
                lemma_match_is_occurrence(s, i);
                lemma_matches_occur(s, e);
                let rest = matches_from(s, e);
                assert forall|k: int| 0 <= k < here.len() implies occurs(s, #[trigger] here[k]) by {
                    if k > 0 {
                        assert(here[k] == rest[k - 1]);
                    } else {
                        assert(occurs_at(s, here[0], i));
                    }
                }
            },
            None => {
                lemma_matches_occur(s, i + 1);
                assert(here == matches_from(s, i + 1));
            },
        }
    }
}

/// With inert glyphs, a text that holds a match with a glyph does not stay
/// as it is.
pub proof fn lemma_unsettled_is_changed(table: Map<Seq<char>, Seq<char>>, text: Seq<char>)
    requires
        table_inert(table),
        !settled(table, text),
    ensures
        resolve(table, text) != text,
{
    let found = shortcode_matches(text);
    let codes = distinct_sorted(found);
    lemma_distinct_sorted_members(found);
    lemma_matches_are_shortcodes(text, 0);
    lemma_matches_occur(text, 0);
    assert forall|k: int| 0 <= k < codes.len() implies is_shortcode(#[trigger] codes[k]) && occurs(
        text,
        codes[k],
    ) by {
        assert(codes.contains(codes[k]));
        assert(found.contains(codes[k]));
        let j = choose|j: int| 0 <= j < found.len() && found[j] == codes[k];
        assert(is_shortcode(found[j]));
        assert(occurs(text, found[j]));
    }
    let w = choose|k: int| 0 <= k < found.len() && !(glyph_for(table, #[trigger] found[k]) is None);
    assert(found.contains(found[w]));
    assert(codes.contains(found[w]));
    let c = choose|c: int| 0 <= c < codes.len() && codes[c] == found[w];
    assert(glyph_for(table, codes[c]) is Some);
    lemma_resolve_each_takes_colons(table, text, codes);
}

/// Resolving is idempotent wherever its result holds no match with a
/// glyph: resolving the result again changes nothing.
pub proof fn lemma_resolve_settled_is_idempotent(table: Map<Seq<char>, Seq<char>>, text: Seq<char>)
    requires
        settled(table, resolve(table, text)),
    ensures
        resolve(table, resolve(table, text)) == resolve(table, text),
{
    lemma_nothing_known_changes_nothing(table, resolve(table, text));
}

/// With inert glyphs, resolving a text twice gives what resolving it once
/// gives exactly when the first result is settled: on the other texts,
/// and on no others, the second pass changes the result of the first.
pub proof fn lemma_resolve_is_idempotent_exactly_when_settled(
    table: Map<Seq<char>, Seq<char>>,
    text: Seq<char>,
)
    requires
        table_inert(table),
    ensures
        resolve(table, resolve(table, text)) == resolve(table, text) <==> settled(
            table,
            resolve(table, text),
        ),
{
    if settled(table, resolve(table, text)) {
        lemma_resolve_settled_is_idempotent(table, text);
    } else {
        lemma_unsettled_is_changed(table, resolve(table, text));
    }
}

/// Unknown shortcodes are preserved: on a text in which no shortcode with
/// a glyph is shadowed, and with inert glyphs, the shortcodes that the scan
/// finds in the result are the matches of the text that have no glyph,
/// each of them and in their order, and no others.
pub proof fn lemma_unknown_shortcodes_are_kept(table: Map<Seq<char>, Seq<char>>, text: Seq<char>)
    requires
        table_inert(table),
        unshadowed(table, text),
    ensures
        shortcode_matches(resolve(table, text)) == unknown_matches(table, text),
{
    lemma_resolve_in_place(table, text);
    lemma_matches_of_resolved(table, text, 0);
}

/// Resolving is idempotent on every text in which no shortcode with a
/// glyph is shadowed, with inert glyphs.
pub proof fn lemma_resolve_is_idempotent(table: Map<Seq<char>, Seq<char>>, text: Seq<char>)
    requires
        table_inert(table),
        unshadowed(table, text),
    ensures
        resolve(table, resolve(table, text)) == resolve(table, text),
{
    lemma_unknown_shortcodes_are_kept(table, text);
    lemma_unknown_matches_are_unknown(table, text, 0);
    lemma_resolve_settled_is_idempotent(table, text);
}

/// Before a prefix without a colon the scan finds nothing.
proof fn lemma_matches_after_colon_free(a: Seq<char>, rest: Seq<char>)
    requires
        colon_free(a),
    ensures
        shortcode_matches(a + rest) == shortcode_matches(rest),
{
    let x = a + rest;
    assert forall|p: int| 0 <= p < a.len() implies shortcode_end(x, p) is None by {
        assert(x[p] == a[p]);
    }
    lemma_matches_skip(x, 0, a.len() as int);
    lemma_matches_from_shift(a, rest, 0);
}

/// A shortcode at the start of a text is the first match of the scan,
/// which goes on behind it.
proof fn lemma_matches_after_shortcode(t: Seq<char>, rest: Seq<char>)
    requires
        is_shortcode(t),
    ensures
        shortcode_matches(t + rest) == seq![t] + shortcode_matches(rest),
{
    let x = t + rest;
    assert(x.subrange(0, t.len() as int) =~= t);
    lemma_occurrence_is_match(x, t, 0);
    lemma_matches_from_shift(t, rest, 0);
}

/// A prefix without a colon is copied, and replacement goes on behind it.
proof fn lemma_replace_after_colon_free(a: Seq<char>, rest: Seq<char>, t: Seq<char>, g: Seq<char>)
    requires
        colon_free(a),
        is_shortcode(t),
    ensures
        replace_all(a + rest, t, g) == a + replace_all(rest, t, g),
{
    let x = a + rest;
    assert forall|p: int| 0 <= p < a.len() implies !occurs_at(x, t, p) by {
        if occurs_at(x, t, p) {
            assert(x.subrange(p, p + t.len())[0] == x[p]);
            assert(x[p] == a[p]);
        }
    }
    assert forall|p: int| 0 <= p < a.len() implies !occurs_at(a, t, p) by {
        if occurs_at(a, t, p) {
            assert(a.subrange(p, p + t.len())[0] == a[p]);
        }
    }
    lemma_replace_all_concat(a, rest, t, g);
    lemma_replace_all_without_occurrence(a, t, g);
}

/// The pattern at the start of a text becomes the replacement, and
/// replacement goes on behind it.
proof fn lemma_replace_after_pattern(t: Seq<char>, rest: Seq<char>, g: Seq<char>)
    requires
        t.len() > 0,
    ensures
        replace_all(t + rest, t, g) == g + replace_all(rest, t, g),
{
    let x = t + rest;
    assert(x.subrange(0, t.len() as int) =~= t);
    assert(occurs_at(x, t, 0));
    lemma_replace_from_shift(t, rest, t, g, 0);
}

/// Every occurrence is replaced: where a shortcode with a glyph stands
/// twice in a text, between stretches that hold no colon, both occurrences
/// become the glyph, and the stretches stay as they are.
pub proof fn lemma_both_occurrences_are_replaced(
    table: Map<Seq<char>, Seq<char>>,
    a: Seq<char>,
    b: Seq<char>,
    c: Seq<char>,
    shortcode: Seq<char>,
)
    requires
        is_shortcode(shortcode),
        glyph_for(table, shortcode) is Some,
        colon_free(a),
        colon_free(b),
        colon_free(c),
    ensures
        resolve(table, a + shortcode + b + shortcode + c) == a + glyph_for(table, shortcode)->0 + b
            + glyph_for(table, shortcode)->0 + c,
{
    let t = shortcode;
    let g = glyph_for(table, t)->0;
    let text = a + t + b + t + c;
    let tail1 = t + c;
    let tail2 = b + tail1;
    let tail3 = t + tail2;
    assert(text =~= a + tail3);
    // The scan finds the shortcode twice.
    lemma_colon_free_has_no_match(c);
    lemma_matches_after_shortcode(t, c);
    lemma_matches_after_colon_free(b, tail1);
    lemma_matches_after_shortcode(t, tail2);
    lemma_matches_after_colon_free(a, tail3);
    let found = shortcode_matches(text);
    assert(found =~= seq![t, t]);
    // Twice found, it is resolved once.
    let one = seq![t];
    assert(found.drop_last() =~= one);
    assert(one.drop_last() =~= Seq::<Seq<char>>::empty());
    assert(distinct_sorted(Seq::<Seq<char>>::empty()) =~= Seq::<Seq<char>>::empty());
    assert(insert_index(Seq::<Seq<char>>::empty(), t, 0) == 0);
    assert(Seq::<Seq<char>>::empty().insert(0, t) =~= one);
    assert(distinct_sorted(one) == one);
    assert(insert_index(one, t, 0) == 0);
    assert(insert_distinct(one, t) == one);
    assert(distinct_sorted(found) == one);
    assert(resolve_each(table, text, Seq::<Seq<char>>::empty()) == text);
    assert(resolve(table, text) == replace_all(text, t, g));
    // Replacing reaches both occurrences.
    assert forall|p: int| 0 <= p < c.len() implies !occurs_at(c, t, p) by {
        if occurs_at(c, t, p) {
            assert(c.subrange(p, p + t.len())[0] == c[p]);
        }
    }
    lemma_replace_all_without_occurrence(c, t, g);
    lemma_replace_after_pattern(t, c, g);
    lemma_replace_after_colon_free(b, tail1, t, g);
    lemma_replace_after_pattern(t, tail2, g);
    lemma_replace_after_colon_free(a, tail3, t, g);
    assert(a + (g + (b + (g + c))) =~= a + g + b + g + c);
}

} // verus!
