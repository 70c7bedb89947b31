//! The segment stream of a chapter: what the markdown parser makes of its
//! text, and what the serializer turns back into text.

use pulldown_cmark::{CowStr, Event, Tag, TagEnd};
use vstd::prelude::*;

verus! {

/// An event of the `pulldown_cmark` parser. It is carried through as it is.
#[verifier::external_type_specification]
#[verifier::external_body]
pub struct ExEvent<'a>(Event<'a>);

/// One unit of a chapter's structure.
pub enum Segment<'a> {
    /// A span of text.
    Text(String),
    /// The start of a code block, with the parser's event.
    CodeBlockStart(Event<'a>),
    /// The end of a code block, with the parser's event.
    CodeBlockEnd(Event<'a>),
    /// Any other event of the parser.
    Other(Event<'a>),
}

/// A segment as a value: a text span is the sequence of its characters.
pub ghost enum SegmentView<'a> {
    Text(Seq<char>),
    CodeBlockStart(Event<'a>),
    CodeBlockEnd(Event<'a>),
    Other(Event<'a>),
}

impl<'a> View for Segment<'a> {
    type V = SegmentView<'a>;

    open spec fn view(&self) -> SegmentView<'a> {
        match self {
            Segment::Text(text) => SegmentView::Text(text@),
            Segment::CodeBlockStart(event) => SegmentView::CodeBlockStart(*event),
            Segment::CodeBlockEnd(event) => SegmentView::CodeBlockEnd(*event),
            Segment::Other(event) => SegmentView::Other(*event),
        }
    }
}

/// The values of a list of segments.
pub open spec fn views<'a>(segments: Seq<Segment<'a>>) -> Seq<SegmentView<'a>> {
    Seq::new(segments.len(), |i: int| segments[i]@)
}

/// The segments that the parser makes of `content`, with smart punctuation
/// switched on or off.
pub uninterp spec fn markdown_segments(content: Seq<char>, smart_punctuation: bool) -> Seq<
    SegmentView<'static>,
>;

/// The text that the serializer makes of `segments`, or `None` where it
/// fails.
pub uninterp spec fn markdown_text(segments: Seq<SegmentView<'static>>) -> Option<Seq<char>>;

/// `rewritten` is `parsed` with nothing changed but the characters of text
/// spans.
pub open spec fn is_text_rewrite(rewritten: Seq<SegmentView>, parsed: Seq<SegmentView>) -> bool {
    &&& rewritten.len() == parsed.len()
    &&& forall|i: int|
        0 <= i < parsed.len() ==> (#[trigger] rewritten[i] == parsed[i] || (rewritten[i] is Text
            && parsed[i] is Text))
}

/// `mdbook::utils::new_cmark_parser`, run to its end: the events that the
/// parser yields for `content`, each as a segment. A text event gives its
/// string, the start and the end of a code block are told apart, and every
/// other event is kept as it is. The parser is a function of its input; the
/// contract gives its result a name.
#[verifier::external_body]
pub(crate) fn parse_segments(content: &str, smart_punctuation: bool) -> (segments: Vec<Segment<'_>>)
    ensures
        views(segments@) == markdown_segments(content@, smart_punctuation),
{
    mdbook::utils::new_cmark_parser(content, smart_punctuation)
        .map(|event| match event {
            Event::Text(text) => Segment::Text(text.into_string()),
            Event::Start(Tag::CodeBlock(_)) => Segment::CodeBlockStart(event),
            Event::End(TagEnd::CodeBlock) => Segment::CodeBlockEnd(event),
            _ => Segment::Other(event),
        })
        .collect()
}

/// `pulldown_cmark_to_cmark::cmark` into a fresh string: the markdown text of
/// the events that `segments` stand for. A text segment goes in as a text
/// event; every other segment gives back the event it carries. The
/// serializer is a function of the events; the contract gives its result a
/// name. It panics where a link, an image or a heading ends that never
/// started, or a heading starts inside a heading. The parser yields balanced
/// events and no nested headings, and changing the string of a text event
/// changes neither, so the streams admitted here are those of the parser
/// with their text spans rewritten.
#[verifier::external_body]
pub(crate) fn serialize_segments(segments: Vec<Segment<'_>>) -> (result: Result<
    String,
    std::fmt::Error,
>)
    requires
        exists|content: Seq<char>, smart_punctuation: bool|
            is_text_rewrite(
                views(segments@),
                #[trigger] markdown_segments(content, smart_punctuation),
            ),
    ensures
        match result {
            Ok(text) => markdown_text(views(segments@)) == Some(text@),
            Err(_) => markdown_text(views(segments@)) is None,
        },
{
    let mut buffer = String::new();
    let events = segments.into_iter().map(|segment| match segment {
        Segment::Text(text) => Event::Text(CowStr::from(text)),
        Segment::CodeBlockStart(event) => event,
        Segment::CodeBlockEnd(event) => event,
        Segment::Other(event) => event,
    });
    pulldown_cmark_to_cmark::cmark(events, &mut buffer).map(|_| buffer)
}

} // verus!
