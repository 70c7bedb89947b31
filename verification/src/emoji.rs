//! The emoji table: from the name of a shortcode to its glyph.

use vstd::prelude::*;

verus! {

/// The glyph that the table of the `emojis` crate holds for the GitHub
/// shortcode `name`, or `None` where it holds none.
pub uninterp spec fn emoji_glyph(name: Seq<char>) -> Option<Seq<char>>;

/// The table of the `emojis` crate as a map from names to glyphs.
pub open spec fn emoji_table() -> Map<Seq<char>, Seq<char>> {
    Map::new(
        |name: Seq<char>| emoji_glyph(name) is Some,
        |name: Seq<char>| emoji_glyph(name)->0,
    )
}

/// `emojis::get_by_shortcode`, then `Emoji::as_str`: the glyph of the emoji
/// with the shortcode `name`. The lookup reads a table that is fixed at
/// compile time, so the same name always gives the same answer; the contract
/// gives that answer a name and claims nothing else of it.
#[verifier::external_body]
pub(crate) fn lookup_glyph(name: &str) -> (glyph: Option<String>)
    ensures
        match glyph {
            Some(g) => emoji_glyph(name@) == Some(g@),
            None => emoji_glyph(name@) is None,
        },
{
    emojis::get_by_shortcode(name).map(|emoji| emoji.as_str().to_owned())
}

} // verus!
