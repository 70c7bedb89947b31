//! The shortcode resolver: every shortcode of a text that the emoji table
//! knows becomes its glyph; the others stay as they are.

use crate::distinct::{distinct_sorted, distinct_sorted_texts, texts};
use crate::emoji::{emoji_glyph, emoji_table};
use crate::preprocessor::EmojiPreprocessor;
use crate::shortcode::{
    colon_free, find_matches, is_shortcode, shortcode_matches, SHORTCODE_PATTERN,
};
use crate::text::{chars_of, replace_all, replace_chars, string_of};
use vstd::prelude::*;

verus! {

/// `shortcode` without its colons: the name under which the table knows it.
/// For a shortcode this is the text between its two colons.
pub open spec fn bare_name(shortcode: Seq<char>) -> Seq<char>
    decreases shortcode.len(),
{
    if shortcode.len() == 0 {
        Seq::empty()
    } else if shortcode.last() == ':' {
        bare_name(shortcode.drop_last())
    } else {
        bare_name(shortcode.drop_last()).push(shortcode.last())
    }
}

/// What `table` holds for `name`.
pub open spec fn lookup(table: Map<Seq<char>, Seq<char>>, name: Seq<char>) -> Option<Seq<char>> {
    if table.dom().contains(name) {
        Some(table[name])
    } else {
        None
    }
}

/// `buffer` after the lookup of `shortcode` gave `glyph`: every occurrence
/// of `shortcode` replaced by the glyph if there is one, `buffer` itself if
/// there is none.
pub open spec fn with_glyph(buffer: Seq<char>, shortcode: Seq<char>, glyph: Option<Seq<char>>) -> Seq<
    char,
> {
    match glyph {
        Some(g) => replace_all(buffer, shortcode, g),
        None => buffer,
    }
}

/// `buffer` after one shortcode has been resolved against `table`.
pub open spec fn resolve_one(
    table: Map<Seq<char>, Seq<char>>,
    buffer: Seq<char>,
    shortcode: Seq<char>,
) -> Seq<char> {
    with_glyph(buffer, shortcode, lookup(table, bare_name(shortcode)))
}

/// `buffer` after each of `shortcodes` has been resolved in turn, each on
/// the text that the ones before it left.
pub open spec fn resolve_each(
    table: Map<Seq<char>, Seq<char>>,
    buffer: Seq<char>,
    shortcodes: Seq<Seq<char>>,
) -> Seq<char>
    decreases shortcodes.len(),
{
    if shortcodes.len() == 0 {
        buffer
    } else {
        resolve_one(table, resolve_each(table, buffer, shortcodes.drop_last()), shortcodes.last())
    }
}

/// `text` with its shortcodes resolved against `table`: the distinct
/// shortcodes that the scan of `text` finds, taken in ascending order.
pub open spec fn resolve(table: Map<Seq<char>, Seq<char>>, text: Seq<char>) -> Seq<char> {
    resolve_each(table, text, distinct_sorted(shortcode_matches(text)))
}

/// The name of a text put together from two is put together from their
/// names.
pub proof fn lemma_bare_name_concat(a: Seq<char>, b: Seq<char>)
    ensures
        bare_name(a + b) == bare_name(a) + bare_name(b),
    decreases b.len(),
{
    if b.len() == 0 {
        assert(a + b =~= a);
        assert(bare_name(a) + bare_name(b) =~= bare_name(a));
    } else {
        lemma_bare_name_concat(a, b.drop_last());
        assert((a + b).drop_last() =~= a + b.drop_last());
        assert((a + b).last() == b.last());
        if b.last() != ':' {
            assert((bare_name(a) + bare_name(b.drop_last())).push(b.last()) =~= bare_name(a)
                + bare_name(b.drop_last()).push(b.last()));
        }
    }
}

/// A text without a colon is its own name.
pub proof fn lemma_bare_name_of_colon_free(text: Seq<char>)
    requires
        colon_free(text),
    ensures
        bare_name(text) == text,
    decreases text.len(),
{
    if text.len() > 0 {
        lemma_bare_name_of_colon_free(text.drop_last());
        assert(text.drop_last().push(text.last()) =~= text);
    } else {
        assert(text =~= Seq::<char>::empty());
    }
}

/// The name of a shortcode is what stands between its two colons.
pub proof fn lemma_bare_name_of_shortcode(shortcode: Seq<char>)
    requires
        is_shortcode(shortcode),
    ensures
        bare_name(shortcode) == shortcode.subrange(1, shortcode.len() - 1),
{
    let n = shortcode.len() as int;
    let colon = seq![':'];
    let body = shortcode.subrange(1, n - 1);
    assert(shortcode =~= colon + body + colon);
    assert(colon.drop_last() =~= Seq::<char>::empty());
    assert(bare_name(Seq::<char>::empty()) == Seq::<char>::empty());
    assert(colon.last() == ':');
    assert(bare_name(colon) == Seq::<char>::empty());
    assert forall|k: int| 0 <= k < body.len() implies #[trigger] body[k] != ':' by {
        assert(body[k] == shortcode[k + 1]);
    }
    lemma_bare_name_of_colon_free(body);
    lemma_bare_name_concat(colon, body);
    lemma_bare_name_concat(colon + body, colon);
    assert(Seq::<char>::empty() + body + Seq::<char>::empty() =~= body);
}

/// Looking a name up in the emoji table gives the glyph of the `emojis`
/// crate.
pub proof fn lemma_lookup_in_emoji_table(name: Seq<char>)
    ensures
        lookup(emoji_table(), name) == emoji_glyph(name),
{
}

/// The name of `shortcode`: its characters but the colons.
pub fn name_of(shortcode: &str) -> (name: String)
    ensures
        name@ == bare_name(shortcode@),
{
    let chars = chars_of(shortcode);
    let mut name = String::new();
    let mut i: usize = 0;
    assert(chars@.take(0) =~= Seq::<char>::empty());
    while i < chars.len()
        invariant
            i <= chars.len(),
            name@ == bare_name(chars@.take(i as int)),
        decreases chars.len() - i,
    {
        assert(chars@.take(i + 1).drop_last() =~= chars@.take(i as int));
        if chars[i] != ':' {
            name.push(chars[i]);
        }
        i += 1;
    }
    assert(chars@.take(chars.len() as int) =~= chars@);
    name
}

/// `buffer` after the lookup of `shortcode` gave `glyph`: with a glyph,
/// every occurrence of `shortcode` is replaced by it; without one, nothing
/// changes.
pub fn apply_glyph(shortcode: &str, buffer: &str, glyph: Option<String>) -> (replaced: String)
    ensures
        replaced@ == with_glyph(
            buffer@,
            shortcode@,
            match glyph {
                Some(g) => Some(g@),
                None => None,
            },
        ),
{
    match glyph {
        Some(g) => {
            let replaced = replace_chars(&chars_of(buffer), &chars_of(shortcode), &chars_of(g.as_str()));
            string_of(&replaced)
        },
        None => buffer.to_owned(),
    }
}

/// Replaces every shortcode of `text` that the emoji table knows by
/// its glyph.
pub fn convert_shortcodes_to_codepoints(text: &str) -> (converted: String)
    ensures
        converted@ == resolve(emoji_table(), text@),
{
    let found = find_matches(SHORTCODE_PATTERN, text);
    let mut patterns: Vec<Vec<char>> = Vec::new();
    let mut k: usize = 0;
    while k < found.len()
        invariant
            k <= found.len(),
            found@.len() == shortcode_matches(text@).len(),
            forall|j: int|
                0 <= j < found@.len() ==> (#[trigger] found@[j])@ == shortcode_matches(
                    text@,
                )[j],
            patterns@.len() == k,
            texts(patterns@) == shortcode_matches(text@).take(k as int),
        decreases found.len() - k,
    {
        let chars = chars_of(found[k].as_str());
        let ghost before = patterns@;
        assert(chars@ == found@[k as int]@);
        patterns.push(chars);
        assert forall|j: int| 0 <= j < k + 1 implies texts(patterns@)[j] == shortcode_matches(
            text@,
        )[j] by {
            if j < k {
                assert(texts(patterns@)[j] == texts(before)[j]);
            }
        }
        assert(texts(patterns@) =~= shortcode_matches(text@).take(k + 1));
        k += 1;
    }
    assert(texts(patterns@) =~= shortcode_matches(text@));
    let patterns = distinct_sorted_texts(&patterns);
    let ghost shortcodes = texts(patterns@);
    let mut buffer = text.to_owned();
    let mut i: usize = 0;
    while i < patterns.len()
        invariant
            i <= patterns.len(),
            shortcodes == texts(patterns@),
            buffer@ == resolve_each(emoji_table(), text@, shortcodes.take(i as int)),
        decreases patterns.len() - i,
    {
        let shortcode = string_of(&patterns[i]);
        assert(shortcodes.take(i + 1).drop_last() =~= shortcodes.take(i as int));
        assert(shortcodes.take(i + 1).last() == shortcode@);
        buffer = EmojiPreprocessor::process_capture(shortcode, buffer.as_str()).unwrap();
        i += 1;
    }
    assert(shortcodes.take(patterns.len() as int) =~= shortcodes);
    buffer
}

} // verus!
