//! The shortcode grammar: a colon, one or more ASCII letters or underscores,
//! and a closing colon.

use crate::text::occurs_at;
use vstd::prelude::*;

verus! {

/// The pattern that a shortcode matches, in the syntax of the `regex` crate.
pub const SHORTCODE_PATTERN: &'static str = ":[a-zA-Z_]+:";

/// A character that may stand between the two colons of a shortcode.
pub open spec fn is_body_char(c: char) -> bool {
    ('a' <= c && c <= 'z') || ('A' <= c && c <= 'Z') || c == '_'
}

/// `text` holds no colon.
pub open spec fn colon_free(text: Seq<char>) -> bool {
    forall|k: int| 0 <= k < text.len() ==> #[trigger] text[k] != ':'
}

/// `t` is a shortcode: `:`, a non-empty run of body characters, `:`.
pub open spec fn is_shortcode(t: Seq<char>) -> bool {
    &&& t.len() >= 3
    &&& t[0] == ':'
    &&& t[t.len() - 1] == ':'
    &&& forall|k: int| 1 <= k < t.len() - 1 ==> is_body_char(#[trigger] t[k])
}

/// The first index at or after `i` that holds no body character
/// (the length of `s` if the run reaches the end).
pub open spec fn body_end(s: Seq<char>, i: int) -> int
    decreases s.len() - i,
{
    if 0 <= i < s.len() && is_body_char(s[i]) {
        body_end(s, i + 1)
    } else {
        i
    }
}

/// Where the shortcode that starts at `i` ends (the index after its closing
/// colon), if one starts there.
pub open spec fn shortcode_end(s: Seq<char>, i: int) -> Option<int> {
    let j = body_end(s, i + 1);
    if 0 <= i < s.len() && s[i] == ':' && i + 1 < j < s.len() && s[j] == ':' {
        Some(j + 1)
    } else {
        None
    }
}

/// The shortcodes found in `s` from index `i` on, scanning left to right:
/// the leftmost one first, then on from its end, so that no two overlap.
pub open spec fn matches_from(s: Seq<char>, i: int) -> Seq<Seq<char>>
    decreases s.len() - i,
{
    if i < 0 || i >= s.len() {
        Seq::empty()
    } else {
        match shortcode_end(s, i) {
            Some(e) => seq![s.subrange(i, e)] + matches_from(s, e),
            None => matches_from(s, i + 1),
        }
    }
}

/// All non-overlapping shortcodes of `s`, in the order in which they occur.
pub open spec fn shortcode_matches(s: Seq<char>) -> Seq<Seq<char>> {
    matches_from(s, 0)
}

/// `Regex::new` and `Regex::find_iter` of the `regex` crate: the successive
/// non-overlapping matches of `pattern` in `text`, leftmost first. The
/// contract is stated for the shortcode pattern alone. That pattern compiles;
/// a match of it at an index is a colon, the longest run of ASCII letters and
/// underscores, which must not be empty, and a colon, and the search for the
/// next match goes on where the last one ended: what `shortcode_matches` says.
#[verifier::external_body]
pub(crate) fn find_matches(pattern: &str, text: &str) -> (found: Vec<String>)
    requires
        pattern@ == SHORTCODE_PATTERN@,
    ensures
        found@.len() == shortcode_matches(text@).len(),
        forall|k: int| 0 <= k < found@.len() ==> (#[trigger] found@[k])@ == shortcode_matches(text@)[k],
{
    let re = regex::Regex::new(pattern).unwrap();
    re.find_iter(text).map(|m| m.as_str().to_owned()).collect()
}

/// The run of body characters that starts at `i` ends within `s`, holds only
/// body characters, and stops at the first other character.
pub proof fn lemma_body_end(s: Seq<char>, i: int)
    requires
        0 <= i <= s.len(),
    ensures
        i <= body_end(s, i) <= s.len(),
        forall|k: int| i <= k < body_end(s, i) ==> is_body_char(#[trigger] s[k]),
        body_end(s, i) < s.len() ==> !is_body_char(s[body_end(s, i)]),
    decreases s.len() - i,
{
    if i < s.len() && is_body_char(s[i]) {
        lemma_body_end(s, i + 1);
    }
}

/// A shortcode that starts at `i` lies within `s`, and the text between `i`
/// and its end is a shortcode.
pub proof fn lemma_shortcode_end(s: Seq<char>, i: int)
    requires
        shortcode_end(s, i) is Some,
    ensures
        0 <= i,
        i + 3 <= shortcode_end(s, i)->0 <= s.len(),
        is_shortcode(s.subrange(i, shortcode_end(s, i)->0)),
{
    lemma_body_end(s, i + 1);
}

/// Every match of the scan is a shortcode.
pub proof fn lemma_matches_are_shortcodes(s: Seq<char>, i: int)
    ensures
        forall|k: int|
            0 <= k < matches_from(s, i).len() ==> is_shortcode(#[trigger] matches_from(s, i)[k]),
    decreases s.len() - i,
{
    if 0 <= i < s.len() {
        match shortcode_end(s, i) {
            Some(e) => {
                lemma_shortcode_end(s, i);
                lemma_matches_are_shortcodes(s, e);
                let rest = matches_from(s, e);
                assert forall|k: int| 0 <= k < matches_from(s, i).len() implies is_shortcode(
                    #[trigger] matches_from(s, i)[k],
                ) by {
                    if k > 0 {
                        assert(matches_from(s, i)[k] == rest[k - 1]);
                    }
                }
            },
            None => {
                lemma_matches_are_shortcodes(s, i + 1);
                assert(matches_from(s, i) == matches_from(s, i + 1));
            },
        }
    } else {
        assert(matches_from(s, i).len() == 0);
    }
}

/// A run of body characters from `i` to `m`, with no body character at
/// `m`, ends at `m`.
pub proof fn lemma_body_end_is(s: Seq<char>, i: int, m: int)
    requires
        0 <= i <= m <= s.len(),
        forall|k: int| i <= k < m ==> is_body_char(#[trigger] s[k]),
        m < s.len() ==> !is_body_char(s[m]),
    ensures
        body_end(s, i) == m,
    decreases m - i,
{
    if i < m {
        lemma_body_end_is(s, i + 1, m);
    }
}

/// Behind a prefix `a`, a run of body characters ends where it ends in `b`
/// alone.
pub proof fn lemma_body_end_shift(a: Seq<char>, b: Seq<char>, j: int)
    requires
        0 <= j <= b.len(),
    ensures
        body_end(a + b, a.len() + j) == a.len() + body_end(b, j),
{
    lemma_body_end(b, j);
    let m = body_end(b, j);
    let ab = a + b;
    assert forall|k: int| a.len() + j <= k < a.len() + m implies is_body_char(#[trigger] ab[k]) by {
        assert(ab[k] == b[k - a.len()]);
    }
    if m < b.len() {
        assert(ab[a.len() + m] == b[m]);
    }
    lemma_body_end_is(ab, a.len() + j, a.len() + m);
}

/// Behind a prefix `a`, a shortcode starts where one starts in `b` alone,
/// and ends where that one ends.
pub proof fn lemma_shortcode_end_shift(a: Seq<char>, b: Seq<char>, j: int)
    requires
        0 <= j,
    ensures
        shortcode_end(a + b, a.len() + j) == match shortcode_end(b, j) {
            Some(e) => Some(a.len() + e),
            None => None,
        },
{
    let ab = a + b;
    if j < b.len() {
        lemma_body_end_shift(a, b, j + 1);
        lemma_body_end(b, j + 1);
        assert(ab[a.len() + j] == b[j]);
        let m = body_end(b, j + 1);
        if m < b.len() {
            assert(ab[a.len() + m] == b[m]);
        }
    }
}

/// Behind a prefix `a`, the scan goes on as it does in `b` alone.
pub proof fn lemma_matches_from_shift(a: Seq<char>, b: Seq<char>, j: int)
    requires
        0 <= j,
    ensures
        matches_from(a + b, a.len() + j) == matches_from(b, j),
    decreases b.len() - j,
{
    let ab = a + b;
    if j < b.len() {
        lemma_shortcode_end_shift(a, b, j);
        match shortcode_end(b, j) {
            Some(e) => {
                lemma_shortcode_end(b, j);
                lemma_matches_from_shift(a, b, e);
                assert(ab.subrange(a.len() + j, a.len() + e) =~= b.subrange(j, e));
            },
            None => {
                lemma_matches_from_shift(a, b, j + 1);
            },
        }
    }
}

/// Where no shortcode starts between `i` and `n`, the scan from `i` finds
/// what the scan from `n` finds.
pub proof fn lemma_matches_skip(s: Seq<char>, i: int, n: int)
    requires
        0 <= i <= n <= s.len(),
        forall|p: int| i <= p < n ==> shortcode_end(s, p) is None,
    ensures
        matches_from(s, i) == matches_from(s, n),
    decreases n - i,
{
    if i < n {
        lemma_matches_skip(s, i + 1, n);
    }
}

/// Where the shortcode `t` stands in `s` at `p`, a shortcode starts at `p`
/// and ends where `t` ends.
pub proof fn lemma_occurrence_is_match(s: Seq<char>, t: Seq<char>, p: int)
    requires
        is_shortcode(t),
        occurs_at(s, t, p),
    ensures
        shortcode_end(s, p) == Some(p + t.len()),
{
    let n = t.len() as int;
    let sub = s.subrange(p, p + n);
    assert(s[p] == sub[0]);
    assert(s[p + n - 1] == sub[n - 1]);
    assert forall|k: int| p + 1 <= k < p + n - 1 implies is_body_char(#[trigger] s[k]) by {
        assert(s[k] == sub[k - p]);
        assert(is_body_char(t[k - p]));
    }
    lemma_body_end_is(s, p + 1, p + n - 1);
}

/// Where a shortcode starts at `p`, its text stands there.
pub proof fn lemma_match_is_occurrence(s: Seq<char>, p: int)
    requires
        shortcode_end(s, p) is Some,
    ensures
        occurs_at(s, s.subrange(p, shortcode_end(s, p)->0), p),
{
    lemma_shortcode_end(s, p);
}

} // verus!
