//! The preprocessor: it walks the segments of a chapter and resolves the
//! shortcodes of the prose among them.

use crate::book::{item_views, BookItem, BookItemView};
use crate::classifier::{
    after_segment, converted, lemma_rewritten_keeps_structure, rewritable_at, rewritten,
};
use crate::emoji::{emoji_table, lookup_glyph};
use crate::error::Error;
use crate::resolver::{apply_glyph, convert_shortcodes_to_codepoints, name_of, resolve_one};
use crate::segment::{
    markdown_segments, markdown_text, parse_segments, serialize_segments, views, Segment,
};
use vstd::prelude::*;

verus! {

/// What `process_content` makes of a chapter's content: the text that the
/// serializer gives for the rewritten segments of the parsed content, or
/// `None` where the serializer fails.
pub open spec fn processed(content: Seq<char>) -> Option<Seq<char>> {
    markdown_text(rewritten(emoji_table(), markdown_segments(content, false)))
}

/// Whether `item` can be processed: anything but a chapter on which the
/// serializer fails.
pub open spec fn item_succeeds(item: BookItemView) -> bool {
    match item {
        BookItemView::Chapter(content) => processed(content) is Some,
        BookItemView::Other => true,
    }
}

/// `item` after it has been processed: a chapter has its content rewritten,
/// unless that fails; nothing else changes.
pub open spec fn processed_item(item: BookItemView) -> BookItemView {
    match item {
        BookItemView::Chapter(content) => match processed(content) {
            Some(text) => BookItemView::Chapter(text),
            None => item,
        },
        BookItemView::Other => item,
    }
}

/// The state of one walk over a chapter.
pub struct EmojiPreprocessor {
    /// Whether text met now is prose, to be rewritten: false inside a code
    /// block.
    pub convert_text: bool,
}

impl EmojiPreprocessor {
    /// A preprocessor at the start of a chapter, outside any code block.
    pub fn new() -> (preprocessor: Self)
        ensures
            preprocessor.convert_text,
    {
        EmojiPreprocessor { convert_text: true }
    }

    /// The name under which a host registers this preprocessor.
    pub fn name(&self) -> (name: &'static str)
        ensures
            name@ == "emoji-preprocessor"@,
    {
        "emoji-preprocessor"
    }

    /// Processes every item of `book`, each on its own: one chapter's
    /// failure stops none of the others. The book comes back with every
    /// chapter rewritten if none failed; if any did, the error of the first
    /// one that failed comes back instead.
    pub fn run(&self, book: Vec<BookItem>) -> (result: Result<Vec<BookItem>, Error>)
        ensures
            result is Ok <==> forall|i: int|
                0 <= i < book@.len() ==> item_succeeds(#[trigger] item_views(book@)[i]),
            result matches Ok(out) ==> {
                &&& out@.len() == book@.len()
                &&& forall|i: int|
                    0 <= i < book@.len() ==> #[trigger] item_views(out@)[i] == processed_item(
                        item_views(book@)[i],
                    )
            },
    {
        let ghost before = item_views(book@);
        let mut out: Vec<BookItem> = Vec::new();
        let mut err: Option<Error> = None;
        for item in it: book
            invariant
                item_views(it.seq()) == before,
                out@.len() == it.index(),
                err is None <==> forall|k: int|
                    0 <= k < it.index() ==> item_succeeds(#[trigger] before[k]),
                forall|k: int|
                    0 <= k < it.index() ==> #[trigger] item_views(out@)[k] == processed_item(
                        before[k],
                    ),
        {
            let ghost done = item_views(out@);
            assert(item@ == before[it.index()]);
            let mut item = item;
            let outcome = EmojiPreprocessor::process_item(&mut item);
            out.push(item);
            assert forall|k: int| 0 <= k < it.index() + 1 implies #[trigger] item_views(out@)[k]
                == processed_item(before[k]) by {
                if k < it.index() {
                    assert(item_views(out@)[k] == done[k]);
                }
            }
            match outcome {
                Ok(()) => {},
                Err(e) => {
                    if err.is_none() {
                        err = Some(e);
                    }
                },
            }
        }
        match err {
            None => Ok(out),
            Some(e) => Err(e),
        }
    }

    /// Rewrites the content of `item` if it is a chapter. Where that fails
    /// the item is left as it was and the error comes back; anything but a
    /// chapter is left alone.
    pub fn process_item(item: &mut BookItem) -> (result: Result<(), Error>)
        ensures
            result is Ok <==> item_succeeds(old(item)@),
            final(item)@ == processed_item(old(item)@),
    {
        match item {
            BookItem::Chapter(content) => {
                match EmojiPreprocessor::process_content(content.as_str()) {
                    Ok(text) => {
                        *content = text;
                        Ok(())
                    },
                    Err(error) => Err(error),
                }
            },
            BookItem::Other => Ok(()),
        }
    }

    /// Rewrites the chapter `content`: its text is parsed into segments, the
    /// shortcodes of its prose are resolved, and the segments are turned
    /// back into text. It fails exactly where the serializer does.
    pub fn process_content(content: &str) -> (result: Result<String, Error>)
        ensures
            match result {
                Ok(text) => processed(content@) == Some(text@),
                Err(error) => processed(content@) is None,
            },
    {
        let segments = parse_segments(content, false);
        let ghost parsed = views(segments@);
        let mut preprocess = EmojiPreprocessor::new();
        let mut events: Vec<Segment<'_>> = Vec::new();
        for event in it: segments
            invariant
                views(it.seq()) == parsed,
                events@.len() == it.index(),
                preprocess.convert_text == rewritable_at(parsed, it.index()),
                views(events@) == rewritten(emoji_table(), parsed).take(it.index()),
        {
            let ghost done = events@;
            assert(event@ == parsed[it.index()]);
            let event = preprocess.convert_event(event);
            events.push(event);
            assert(views(events@) =~= rewritten(emoji_table(), parsed).take(it.index() + 1)) by {
                assert forall|i: int| 0 <= i < events@.len() implies views(events@)[i]
                    == rewritten(emoji_table(), parsed)[i] by {
                    if i < done.len() {
                        assert(views(events@)[i] == views(done)[i]);
                    }
                }
            }
        }
        assert(rewritten(emoji_table(), parsed).take(events@.len() as int) =~= rewritten(
            emoji_table(),
            parsed,
        ));
        proof {
            lemma_rewritten_keeps_structure(emoji_table(), parsed);
        }
        match serialize_segments(events) {
            Ok(buffer) => Ok(buffer),
            Err(cause) => Err(Error::SerializationFailed(cause)),
        }
    }

    /// Lets one segment of the stream pass. The start of a code block
    /// switches rewriting off and its end switches it on again; a text span
    /// met while rewriting is on has its shortcodes resolved; every segment
    /// but such a text span comes back as it went in.
    pub fn convert_event<'a>(&mut self, event: Segment<'a>) -> (out: Segment<'a>)
        ensures
            final(self).convert_text == after_segment(old(self).convert_text, event@),
            out@ == converted(emoji_table(), old(self).convert_text, event@),
    {
        match event {
            Segment::CodeBlockStart(start) => {
                self.convert_text = false;
                Segment::CodeBlockStart(start)
            },
            Segment::CodeBlockEnd(end) => {
                self.convert_text = true;
                Segment::CodeBlockEnd(end)
            },
            Segment::Text(text) => {
                if self.convert_text {
                    Segment::Text(convert_shortcodes_to_codepoints(text.as_str()))
                } else {
                    Segment::Text(text)
                }
            },
            Segment::Other(other) => Segment::Other(other),
        }
    }

    /// Resolves one shortcode in `buffer`: if the emoji table knows its name,
    /// every occurrence of `shortcode` becomes the glyph; if not, `buffer`
    /// comes back unchanged. This never fails.
    pub fn process_capture(shortcode: String, buffer: &str) -> (result: Result<String, Error>)
        ensures
            result matches Ok(replaced) && replaced@ == resolve_one(
                emoji_table(),
                buffer@,
                shortcode@,
            ),
    {
        let name = name_of(shortcode.as_str());
        let emoji = lookup_glyph(name.as_str());
        Ok(apply_glyph(shortcode.as_str(), buffer, emoji))
    }
}

} // verus!
