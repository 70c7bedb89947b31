//! Strings as sequences of characters, and literal replacement in them.

use vstd::prelude::*;
use vstd::std_specs::iter::IteratorSpec;

verus! {

/// `String::push` of std appends one character to the string.
pub assume_specification[ String::push ](s: &mut String, ch: char)
    ensures
        final(s)@ == old(s)@.push(ch),
;

/// The characters of `s`, in order.
pub fn chars_of(s: &str) -> (chars: Vec<char>)
    ensures
        chars@ == s@,
{
    let mut chars: Vec<char> = Vec::new();
    let mut rest = s.chars();
    loop
        invariant
            rest.obeys_prophetic_iter_laws(),
            rest.decrease() is Some,
            s@ == chars@ + rest.remaining(),
        ensures
            chars@ == s@,
        decreases rest.decrease()->0,
    {
        match rest.next() {
            Some(c) => {
                chars.push(c);
            },
            None => {
                break ;
            },
        }
    }
    chars
}

/// The string made of `chars`, in order.
pub fn string_of(chars: &Vec<char>) -> (s: String)
    ensures
        s@ == chars@,
{
    let mut s = String::new();
    let mut i: usize = 0;
    while i < chars.len()
        invariant
            i <= chars.len(),
            s@ == chars@.take(i as int),
        decreases chars.len() - i,
    {
        s.push(chars[i]);
        assert(chars@.take(i + 1) == chars@.take(i as int).push(chars@[i as int]));
        i += 1;
    }
    s
}

/// `pat` stands in `text` at index `i`.
pub open spec fn occurs_at(text: Seq<char>, pat: Seq<char>, i: int) -> bool {
    &&& 0 <= i
    &&& i + pat.len() <= text.len()
    &&& text.subrange(i, i + pat.len()) == pat
}

/// `text` from index `i` on, with every occurrence of `pat` replaced by
/// `rep`: the leftmost occurrence first, then on from its end, so that no two
/// replaced occurrences overlap. An empty `pat` occurs nowhere.
pub open spec fn replace_from(text: Seq<char>, pat: Seq<char>, rep: Seq<char>, i: int) -> Seq<char>
    decreases text.len() - i,
{
    if i < 0 || i >= text.len() {
        Seq::empty()
    } else if pat.len() > 0 && occurs_at(text, pat, i) {
        rep + replace_from(text, pat, rep, i + pat.len())
    } else {
        seq![text[i]] + replace_from(text, pat, rep, i + 1)
    }
}

/// `text` with every occurrence of `pat` replaced by `rep`.
pub open spec fn replace_all(text: Seq<char>, pat: Seq<char>, rep: Seq<char>) -> Seq<char> {
    replace_from(text, pat, rep, 0)
}

/// Whether `pat` stands in `text` at index `i`.
pub fn occurs_at_index(text: &Vec<char>, pat: &Vec<char>, i: usize) -> (found: bool)
    requires
        i <= text.len(),
    ensures
        found == occurs_at(text@, pat@, i as int),
{
    if pat.len() > text.len() - i {
        return false;
    }
    let mut k: usize = 0;
    while k < pat.len()
        invariant
            i + pat.len() <= text.len(),
            k <= pat.len(),
            forall|j: int| 0 <= j < k ==> text@[i + j] == pat@[j],
        decreases pat.len() - k,
    {
        if text[i + k] != pat[k] {
            assert(text@.subrange(i as int, i + pat.len())[k as int] != pat@[k as int]);
            return false;
        }
        k += 1;
    }
    assert(text@.subrange(i as int, i + pat.len()) =~= pat@);
    true
}

/// `text` with every occurrence of `pat` replaced by `rep`.
pub fn replace_chars(text: &Vec<char>, pat: &Vec<char>, rep: &Vec<char>) -> (replaced: Vec<char>)
    ensures
        replaced@ == replace_all(text@, pat@, rep@),
{
    let mut replaced: Vec<char> = Vec::new();
    let mut i: usize = 0;
    while i < text.len()
        invariant
            i <= text.len(),
            replace_all(text@, pat@, rep@) == replaced@ + replace_from(text@, pat@, rep@, i as int),
        decreases text.len() - i,
    {
        if pat.len() > 0 && occurs_at_index(text, pat, i) {
            let ghost before = replaced@;
            let mut k: usize = 0;
            while k < rep.len()
                invariant
                    k <= rep.len(),
                    replaced@ == before + rep@.take(k as int),
                decreases rep.len() - k,
            {
                replaced.push(rep[k]);
                assert(rep@.take(k + 1) == rep@.take(k as int).push(rep@[k as int]));
                k += 1;
            }
            assert(rep@.take(rep.len() as int) == rep@);
            assert(before + (rep@ + replace_from(text@, pat@, rep@, i + pat.len())) == (before
                + rep@) + replace_from(text@, pat@, rep@, i + pat.len()));
            i += pat.len();
        } else {
            let ghost before = replaced@;
            replaced.push(text[i]);
            assert(before + (seq![text@[i as int]] + replace_from(text@, pat@, rep@, i + 1))
                == before.push(text@[i as int]) + replace_from(text@, pat@, rep@, i + 1));
            i += 1;
        }
    }
    replaced
}

/// Behind a prefix `a`, replacement goes on as it does in `b` alone.
pub proof fn lemma_replace_from_shift(
    a: Seq<char>,
    b: Seq<char>,
    pat: Seq<char>,
    rep: Seq<char>,
    j: int,
)
    requires
        0 <= j,
    ensures
        replace_from(a + b, pat, rep, a.len() + j) == replace_from(b, pat, rep, j),
    decreases b.len() - j,
{
    let ab = a + b;
    if j < b.len() {
        if j + pat.len() <= b.len() {
            assert(ab.subrange(a.len() + j, a.len() + j + pat.len()) =~= b.subrange(
                j,
                j + pat.len(),
            ));
        }
        assert(occurs_at(ab, pat, a.len() + j) == occurs_at(b, pat, j));
        if pat.len() > 0 && occurs_at(b, pat, j) {
            lemma_replace_from_shift(a, b, pat, rep, j + pat.len());
        } else {
            lemma_replace_from_shift(a, b, pat, rep, j + 1);
        }
    }
}

/// Where no occurrence of `pat` starts in `a` and ends in `b`, replacing in
/// `a + b` from an index of `a` on is replacing in `a` from there on, and
/// then in `b`.
pub proof fn lemma_replace_from_concat(
    a: Seq<char>,
    b: Seq<char>,
    pat: Seq<char>,
    rep: Seq<char>,
    i: int,
)
    requires
        0 <= i <= a.len(),
        forall|p: int| 0 <= p < a.len() && p + pat.len() > a.len() ==> !occurs_at(a + b, pat, p),
    ensures
        replace_from(a + b, pat, rep, i) == replace_from(a, pat, rep, i) + replace_all(b, pat, rep),
    decreases a.len() - i,
{
    let ab = a + b;
    let tail = replace_all(b, pat, rep);
    if i == a.len() {
        lemma_replace_from_shift(a, b, pat, rep, 0);
        assert(replace_from(a, pat, rep, i) + tail =~= tail);
    } else {
        if i + pat.len() <= a.len() {
            assert(ab.subrange(i, i + pat.len()) =~= a.subrange(i, i + pat.len()));
        }
        assert(occurs_at(ab, pat, i) == occurs_at(a, pat, i));
        if pat.len() > 0 && occurs_at(a, pat, i) {
            lemma_replace_from_concat(a, b, pat, rep, i + pat.len());
            assert(rep + (replace_from(a, pat, rep, i + pat.len()) + tail) =~= (rep + replace_from(
                a,
                pat,
                rep,
                i + pat.len(),
            )) + tail);
        } else {
            lemma_replace_from_concat(a, b, pat, rep, i + 1);
            assert(seq![ab[i]] + (replace_from(a, pat, rep, i + 1) + tail) =~= (seq![a[i]]
                + replace_from(a, pat, rep, i + 1)) + tail);
        }
    }
}

/// Where no occurrence of `pat` starts in `a` and ends in `b`, replacing in
/// `a + b` is replacing in each of the two.
pub proof fn lemma_replace_all_concat(a: Seq<char>, b: Seq<char>, pat: Seq<char>, rep: Seq<char>)
    requires
        forall|p: int| 0 <= p < a.len() && p + pat.len() > a.len() ==> !occurs_at(a + b, pat, p),
    ensures
        replace_all(a + b, pat, rep) == replace_all(a, pat, rep) + replace_all(b, pat, rep),
{
    lemma_replace_from_concat(a, b, pat, rep, 0);
}

/// Where `pat` does not occur from `i` on, replacing changes nothing from
/// `i` on.
pub proof fn lemma_replace_from_without_occurrence(
    text: Seq<char>,
    pat: Seq<char>,
    rep: Seq<char>,
    i: int,
)
    requires
        0 <= i <= text.len(),
        forall|p: int| i <= p < text.len() ==> !occurs_at(text, pat, p),
    ensures
        replace_from(text, pat, rep, i) == text.subrange(i, text.len() as int),
    decreases text.len() - i,
{
    if i < text.len() {
        lemma_replace_from_without_occurrence(text, pat, rep, i + 1);
        assert(seq![text[i]] + text.subrange(i + 1, text.len() as int) =~= text.subrange(
            i,
            text.len() as int,
        ));
    } else {
        assert(text.subrange(i, text.len() as int) =~= Seq::<char>::empty());
    }
}

/// A text in which `pat` does not occur is left as it is.
pub proof fn lemma_replace_all_without_occurrence(text: Seq<char>, pat: Seq<char>, rep: Seq<char>)
    requires
        forall|p: int| 0 <= p < text.len() ==> !occurs_at(text, pat, p),
    ensures
        replace_all(text, pat, rep) == text,
{
    lemma_replace_from_without_occurrence(text, pat, rep, 0);
    assert(text.subrange(0, text.len() as int) =~= text);
}

/// The pattern itself becomes the replacement.
pub proof fn lemma_replace_all_of_pattern(pat: Seq<char>, rep: Seq<char>)
    requires
        pat.len() > 0,
    ensures
        replace_all(pat, pat, rep) == rep,
{
    assert(pat.subrange(0, pat.len() as int) =~= pat);
    assert(occurs_at(pat, pat, 0));
    assert(replace_from(pat, pat, rep, pat.len() as int) =~= Seq::<char>::empty());
    assert(rep + Seq::<char>::empty() =~= rep);
}

} // verus!
