//! The segment classifier: which text spans of a stream are prose, and what
//! the stream becomes when the shortcodes of its prose are resolved.

use crate::resolver::resolve;
use crate::segment::{is_text_rewrite, SegmentView};
use vstd::prelude::*;

verus! {

/// Whether text is prose after `segment` has been met, if it was so before
/// exactly when `rewritable` holds: a code block's start switches it off,
/// its end switches it on, and nothing else changes it.
pub open spec fn after_segment(rewritable: bool, segment: SegmentView) -> bool {
    match segment {
        SegmentView::CodeBlockStart(_) => false,
        SegmentView::CodeBlockEnd(_) => true,
        _ => rewritable,
    }
}

/// What `segment` becomes: a text span met as prose has its shortcodes
/// resolved against `table`; everything else stays as it is.
pub open spec fn converted(
    table: Map<Seq<char>, Seq<char>>,
    rewritable: bool,
    segment: SegmentView,
) -> SegmentView {
    match segment {
        SegmentView::Text(text) => if rewritable {
            SegmentView::Text(resolve(table, text))
        } else {
            segment
        },
        _ => segment,
    }
}

/// Whether text is prose where segment `i` of `segments` stands: it is at
/// the start, and each segment before `i` has had its say in turn.
pub open spec fn rewritable_at(segments: Seq<SegmentView>, i: int) -> bool
    decreases i,
{
    if i <= 0 {
        true
    } else {
        after_segment(rewritable_at(segments, i - 1), segments[i - 1])
    }
}

/// The stream with the shortcodes of its prose resolved against `table`.
pub open spec fn rewritten(table: Map<Seq<char>, Seq<char>>, segments: Seq<SegmentView>) -> Seq<
    SegmentView,
> {
    Seq::new(segments.len(), |i: int| converted(table, rewritable_at(segments, i), segments[i]))
}

/// A code block ends somewhere after segment `j` and before segment `i`.
pub open spec fn ends_between(segments: Seq<SegmentView>, j: int, i: int) -> bool {
    exists|k: int| j < k < i && #[trigger] segments[k] is CodeBlockEnd
}

/// Text is prose at `i` exactly when every code block that starts before
/// `i` is followed by the end of a code block before `i`. So, after a start
/// that nothing ends, text is never prose again.
pub proof fn lemma_rewritable_at(segments: Seq<SegmentView>, i: int)
    requires
        0 <= i <= segments.len(),
    ensures
        rewritable_at(segments, i) <==> forall|j: int|
            0 <= j < i && #[trigger] segments[j] is CodeBlockStart ==> ends_between(segments, j, i),
    decreases i,
{
    if i > 0 {
        lemma_rewritable_at(segments, i - 1);
        let last = segments[i - 1];
        if last is CodeBlockStart {
            assert(!ends_between(segments, i - 1, i));
        } else if last is CodeBlockEnd {
            assert forall|j: int| 0 <= j < i && #[trigger] segments[j] is CodeBlockStart implies ends_between(
                segments,
                j,
                i,
            ) by {
                assert(segments[i - 1] is CodeBlockEnd);
            }
        } else {
            assert forall|j: int| 0 <= j < i - 1 implies (ends_between(segments, j, i)
                <==> ends_between(segments, j, i - 1)) by {
                if ends_between(segments, j, i) {
                    let k = choose|k: int| j < k < i && #[trigger] segments[k] is CodeBlockEnd;
                    assert(k < i - 1);
                }
                if ends_between(segments, j, i - 1) {
                    let k = choose|k: int| j < k < i - 1 && #[trigger] segments[k] is CodeBlockEnd;
                    assert(j < k < i && segments[k] is CodeBlockEnd);
                }
            }
        }
    }
}

/// Rewriting loses and adds no segment, and changes nothing of a stream but
/// the characters of text spans.
pub proof fn lemma_rewritten_keeps_structure(
    table: Map<Seq<char>, Seq<char>>,
    segments: Seq<SegmentView>,
)
    ensures
        is_text_rewrite(rewritten(table, segments), segments),
{
}

/// Text inside a code block is never rewritten: after the start of a code
/// block, and until a code block ends, every segment comes out as it went
/// in.
pub proof fn lemma_code_block_is_kept(
    table: Map<Seq<char>, Seq<char>>,
    segments: Seq<SegmentView>,
    start: int,
    i: int,
)
    requires
        0 <= start < i < segments.len(),
        segments[start] is CodeBlockStart,
        !ends_between(segments, start, i),
    ensures
        rewritten(table, segments)[i] == segments[i],
{
    lemma_rewritable_at(segments, i);
}

/// Text outside every code block is rewritten: where each code block that
/// started before a text span has ended before it, the span comes out with
/// its shortcodes resolved.
pub proof fn lemma_prose_is_resolved(
    table: Map<Seq<char>, Seq<char>>,
    segments: Seq<SegmentView>,
    i: int,
)
    requires
        0 <= i < segments.len(),
        segments[i] is Text,
        forall|j: int|
            0 <= j < i && #[trigger] segments[j] is CodeBlockStart ==> ends_between(segments, j, i),
    ensures
        rewritten(table, segments)[i] == SegmentView::Text(resolve(table, segments[i]->Text_0)),
{
    lemma_rewritable_at(segments, i);
}

/// A stream in which no prose holds a shortcode that resolving would change
/// comes out as it went in.
pub proof fn lemma_rewritten_unchanged(
    table: Map<Seq<char>, Seq<char>>,
    segments: Seq<SegmentView>,
)
    requires
        forall|i: int|
            0 <= i < segments.len() && rewritable_at(segments, i) ==> (
            #[trigger] segments[i] matches SegmentView::Text(text) ==> resolve(table, text) == text),
    ensures
        rewritten(table, segments) == segments,
{
    assert(rewritten(table, segments) =~= segments);
}

} // verus!
