//! The distinct texts of a list, in ascending order.

use vstd::prelude::*;

verus! {

/// `a` precedes `b` from index `k` on, both agreeing before `k`: at the first
/// index where they differ `a` holds the smaller character, or `a` ends there
/// and `b` goes on.
pub open spec fn precedes_from(a: Seq<char>, b: Seq<char>, k: int) -> bool
    decreases a.len() - k,
{
    if k < 0 || k >= b.len() {
        false
    } else if k >= a.len() {
        true
    } else if a[k] != b[k] {
        a[k] < b[k]
    } else {
        precedes_from(a, b, k + 1)
    }
}

/// `a` comes strictly before `b` in lexicographic order, character by
/// character: the order of `str` and `String`.
pub open spec fn precedes(a: Seq<char>, b: Seq<char>) -> bool {
    precedes_from(a, b, 0)
}

/// The index in `list`, at or after `p`, of the first text that is `t` or
/// that `t` precedes (the length of `list` if there is none).
pub open spec fn insert_index(list: Seq<Seq<char>>, t: Seq<char>, p: int) -> int
    decreases list.len() - p,
{
    if 0 <= p < list.len() && list[p] != t && !precedes(t, list[p]) {
        insert_index(list, t, p + 1)
    } else {
        p
    }
}

/// `list` with `t` put before the first text that it precedes, unless `t`
/// is met first: then `list` itself.
pub open spec fn insert_distinct(list: Seq<Seq<char>>, t: Seq<char>) -> Seq<Seq<char>> {
    let p = insert_index(list, t, 0);
    if 0 <= p < list.len() && list[p] == t {
        list
    } else {
        list.insert(p, t)
    }
}

/// The texts of `ts` without repetition, in ascending order: each text of
/// `ts` in turn is inserted into the list made of those before it.
pub open spec fn distinct_sorted(ts: Seq<Seq<char>>) -> Seq<Seq<char>>
    decreases ts.len(),
{
    if ts.len() == 0 {
        Seq::empty()
    } else {
        insert_distinct(distinct_sorted(ts.drop_last()), ts.last())
    }
}

/// The texts that a list of character vectors holds.
pub open spec fn texts(list: Seq<Vec<char>>) -> Seq<Seq<char>> {
    Seq::new(list.len(), |k: int| list[k]@)
}

/// The index found by `insert_index` lies between its start and the end of
/// the list, and the text that stands there is `t` or one that `t`
/// precedes.
pub proof fn lemma_insert_index_bounds(list: Seq<Seq<char>>, t: Seq<char>, p: int)
    requires
        0 <= p <= list.len(),
    ensures
        p <= insert_index(list, t, p) <= list.len(),
        insert_index(list, t, p) < list.len() ==> list[insert_index(list, t, p)] == t || precedes(
            t,
            list[insert_index(list, t, p)],
        ),
    decreases list.len() - p,
{
    if p < list.len() && list[p] != t && !precedes(t, list[p]) {
        lemma_insert_index_bounds(list, t, p + 1);
    }
}

/// Inserting `t` adds `t` to the texts of the list, and nothing else.
pub proof fn lemma_insert_distinct_members(list: Seq<Seq<char>>, t: Seq<char>)
    ensures
        forall|x: Seq<char>|
            #[trigger] insert_distinct(list, t).contains(x) <==> (list.contains(x) || x == t),
{
    lemma_insert_index_bounds(list, t, 0);
    let p = insert_index(list, t, 0);
    let out = insert_distinct(list, t);
    assert forall|x: Seq<char>| #[trigger] out.contains(x) <==> (list.contains(x) || x == t) by {
        if p < list.len() && list[p] == t {
            assert(list.contains(t));
        } else {
            assert(out == list.insert(p, t));
            assert(out[p] == t);
            if list.contains(x) {
                let k = choose|k: int| 0 <= k < list.len() && list[k] == x;
                if k < p {
                    assert(out[k] == x);
                } else {
                    assert(out[k + 1] == x);
                }
            }
            if out.contains(x) {
                let k = choose|k: int| 0 <= k < out.len() && out[k] == x;
                if k < p {
                    assert(list[k] == x);
                } else if k > p {
                    assert(list[k - 1] == x);
                }
            }
        }
    }
}

/// The distinct sorted list holds exactly the texts of `ts`.
pub proof fn lemma_distinct_sorted_members(ts: Seq<Seq<char>>)
    ensures
        forall|x: Seq<char>| #[trigger] distinct_sorted(ts).contains(x) <==> ts.contains(x),
    decreases ts.len(),
{
    if ts.len() > 0 {
        let init = ts.drop_last();
        lemma_distinct_sorted_members(init);
        lemma_insert_distinct_members(distinct_sorted(init), ts.last());
        assert forall|x: Seq<char>| #[trigger] distinct_sorted(ts).contains(x) <==> ts.contains(
            x,
        ) by {
            if ts.contains(x) {
                let k = choose|k: int| 0 <= k < ts.len() && ts[k] == x;
                if k < ts.len() - 1 {
                    assert(init[k] == x);
                }
            }
            if init.contains(x) {
                let k = choose|k: int| 0 <= k < init.len() && init[k] == x;
                assert(ts[k] == x);
            }
            assert(ts[ts.len() - 1] == ts.last());
        }
    }
}

/// Each text of `list` precedes every text behind it. Such a list holds no
/// text twice.
pub open spec fn ascending(list: Seq<Seq<char>>) -> bool {
    forall|i: int, j: int| 0 <= i < j < list.len() ==> precedes(#[trigger] list[i], #[trigger] list[j])
}

/// No text precedes itself.
pub proof fn lemma_precedes_irreflexive(a: Seq<char>, k: int)
    ensures
        !precedes_from(a, a, k),
    decreases a.len() - k,
{
    if 0 <= k < a.len() {
        lemma_precedes_irreflexive(a, k + 1);
    }
}

/// If `a` precedes `b` and `b` precedes `c`, then `a` precedes `c`.
pub proof fn lemma_precedes_transitive(a: Seq<char>, b: Seq<char>, c: Seq<char>, k: int)
    requires
        precedes_from(a, b, k),
        precedes_from(b, c, k),
    ensures
        precedes_from(a, c, k),
    decreases a.len() - k,
{
    if k < a.len() && a[k] == b[k] && b[k] == c[k] {
        lemma_precedes_transitive(a, b, c, k + 1);
    }
}

/// Of two texts that agree before `k`, one precedes the other from `k` on,
/// unless they are the same.
pub proof fn lemma_precedes_total(a: Seq<char>, b: Seq<char>, k: int)
    requires
        0 <= k <= a.len(),
        k <= b.len(),
        forall|j: int| 0 <= j < k ==> a[j] == b[j],
    ensures
        a == b || precedes_from(a, b, k) || precedes_from(b, a, k),
    decreases a.len() - k,
{
    if k == a.len() {
        if k == b.len() {
            assert(a =~= b);
        }
    } else if k < b.len() && a[k] == b[k] {
        lemma_precedes_total(a, b, k + 1);
    }
}

/// Every text between `start` and the index at which `t` is inserted
/// precedes `t`.
pub proof fn lemma_insert_index_after(list: Seq<Seq<char>>, t: Seq<char>, start: int, k: int)
    requires
        0 <= start <= k < insert_index(list, t, start),
        start <= list.len(),
    ensures
        precedes(list[k], t),
    decreases list.len() - start,
{
    lemma_insert_index_bounds(list, t, start);
    if start < list.len() && list[start] != t && !precedes(t, list[start]) {
        if k == start {
            lemma_precedes_total(list[k], t, 0);
        } else {
            lemma_insert_index_after(list, t, start + 1, k);
        }
    }
}

/// Inserting into an ascending list gives an ascending list.
pub proof fn lemma_insert_distinct_ascending(list: Seq<Seq<char>>, t: Seq<char>)
    requires
        ascending(list),
    ensures
        ascending(insert_distinct(list, t)),
{
    lemma_insert_index_bounds(list, t, 0);
    let p = insert_index(list, t, 0);
    let out = insert_distinct(list, t);
    if !(p < list.len() && list[p] == t) {
        assert(p < list.len() ==> precedes(t, list[p]));
        assert forall|i: int, j: int| 0 <= i < j < out.len() implies precedes(
            #[trigger] out[i],
            #[trigger] out[j],
        ) by {
            if j == p {
                lemma_insert_index_after(list, t, 0, i);
            } else if i == p {
                if j - 1 > p {
                    assert(precedes(list[p], list[j - 1]));
                    lemma_precedes_transitive(t, list[p], list[j - 1], 0);
                }
            } else if i < p && j > p {
                assert(precedes(list[i], list[j - 1]));
            } else if i < p {
                assert(precedes(list[i], list[j]));
            } else {
                assert(precedes(list[i - 1], list[j - 1]));
            }
        }
    }
}

/// The distinct sorted list is ascending: with `lemma_distinct_sorted_members`
/// it is the one list that holds the texts of `ts`, each once, in
/// lexicographic order.
pub proof fn lemma_distinct_sorted_ascending(ts: Seq<Seq<char>>)
    ensures
        ascending(distinct_sorted(ts)),
    decreases ts.len(),
{
    if ts.len() > 0 {
        lemma_distinct_sorted_ascending(ts.drop_last());
        lemma_insert_distinct_ascending(distinct_sorted(ts.drop_last()), ts.last());
    }
}

/// Whether `a` and `b` hold the same characters.
pub fn same_chars(a: &Vec<char>, b: &Vec<char>) -> (same: bool)
    ensures
        same == (a@ == b@),
{
    if a.len() != b.len() {
        return false;
    }
    let mut k: usize = 0;
    while k < a.len()
        invariant
            a.len() == b.len(),
            k <= a.len(),
            forall|j: int| 0 <= j < k ==> a@[j] == b@[j],
        decreases a.len() - k,
    {
        if a[k] != b[k] {
            return false;
        }
        k += 1;
    }
    assert(a@ =~= b@);
    true
}

/// Whether `a` comes strictly before `b` in lexicographic order.
pub fn precedes_chars(a: &Vec<char>, b: &Vec<char>) -> (before: bool)
    ensures
        before == precedes(a@, b@),
{
    let mut k: usize = 0;
    while k < a.len() && k < b.len()
        invariant
            k <= a.len(),
            k <= b.len(),
            precedes(a@, b@) == precedes_from(a@, b@, k as int),
        decreases a.len() - k,
    {
        if a[k] != b[k] {
            return a[k] < b[k];
        }
        k += 1;
    }
    k < b.len()
}

/// `list` with `t` inserted at its place, unless it is there already.
pub fn insert_text(list: &mut Vec<Vec<char>>, t: Vec<char>)
    ensures
        texts(final(list)@) == insert_distinct(texts(old(list)@), t@),
{
    let ghost before = texts(list@);
    let mut p: usize = 0;
    while p < list.len() && !same_chars(&list[p], &t) && !precedes_chars(&t, &list[p])
        invariant
            p <= list.len(),
            list@ == old(list)@,
            before == texts(list@),
            insert_index(before, t@, 0) == insert_index(before, t@, p as int),
        decreases list.len() - p,
    {
        assert(before[p as int] == list@[p as int]@);
        p += 1;
    }
    if p < list.len() && same_chars(&list[p], &t) {
    } else {
        list.insert(p, t);
        assert(texts(list@) =~= before.insert(p as int, t@));
    }
}

/// The distinct texts of `found`, in ascending order.
pub fn distinct_sorted_texts(found: &Vec<Vec<char>>) -> (list: Vec<Vec<char>>)
    ensures
        texts(list@) == distinct_sorted(texts(found@)),
{
    let mut list: Vec<Vec<char>> = Vec::new();
    let mut i: usize = 0;
    assert(texts(found@).take(0) =~= Seq::<Seq<char>>::empty());
    assert(texts(list@) =~= Seq::<Seq<char>>::empty());
    while i < found.len()
        invariant
            i <= found.len(),
            texts(list@) == distinct_sorted(texts(found@).take(i as int)),
        decreases found.len() - i,
    {
        let t = found[i].clone();
        assert(t@ == found@[i as int]@);
        assert(texts(found@).take(i + 1).drop_last() =~= texts(found@).take(i as int));
        assert(texts(found@).take(i + 1).last() == found@[i as int]@);
        insert_text(&mut list, t);
        i += 1;
    }
    assert(texts(found@).take(found.len() as int) =~= texts(found@));
    list
}

} // verus!
