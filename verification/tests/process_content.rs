use mdbook_emojis::book::BookItem;
use mdbook_emojis::error::Error;
use mdbook_emojis::preprocessor::EmojiPreprocessor;
use mdbook_emojis::segment::Segment;
use pulldown_cmark::{CodeBlockKind, Event, Tag, TagEnd};

#[test]
fn process_content() {
    let new_content =
        EmojiPreprocessor::process_content(":sparkling_heart: `:smile:` :smile:\n:sparkling_heart: :bowtie:\n```\n:smile:\n````").unwrap();
    assert_eq!(new_content, "💖 `:smile:` 😄\n💖 :bowtie:\n\n````\n:smile:\n````")
}

#[test]
fn fenced_code_is_left_alone() {
    let out = EmojiPreprocessor::process_content(":smile:\n\n```rust\n:smile:\n```\n:smile:").unwrap();
    assert_eq!(out, "😄\n\n````rust\n:smile:\n````\n\n😄");
}

#[test]
fn indented_code_is_left_alone() {
    let out = EmojiPreprocessor::process_content("    :smile:\n\ntext :smile:").unwrap();
    assert_eq!(out, "````\n:smile:\n````\n\ntext 😄");
}

#[test]
fn unclosed_fence_is_code_to_the_end() {
    let out = EmojiPreprocessor::process_content("```\n:smile:").unwrap();
    assert_eq!(out, "\n````\n:smile:\n````");
}

#[test]
fn inline_code_is_left_alone() {
    let out = EmojiPreprocessor::process_content("`:smile:` :smile:").unwrap();
    assert_eq!(out, "`:smile:` 😄");
}

#[test]
fn link_text_is_prose_and_its_target_is_not() {
    let out = EmojiPreprocessor::process_content("[:smile:](http://x/:smile:)").unwrap();
    assert_eq!(out, "[😄](http://x/:smile:)");
}

#[test]
fn text_without_shortcodes_comes_back() {
    assert_eq!(EmojiPreprocessor::process_content("hello world").unwrap(), "hello world");
    assert_eq!(
        EmojiPreprocessor::process_content("a :bowtie: *b* `c`").unwrap(),
        "a :bowtie: *b* `c`"
    );
    assert_eq!(EmojiPreprocessor::process_content("").unwrap(), "");
}

#[test]
fn headings_and_emphasis_keep_their_marks() {
    let out = EmojiPreprocessor::process_content("# Title\n\na :smile: *b* :smile:").unwrap();
    assert_eq!(out, "# Title\n\na 😄 *b* 😄");
}

#[test]
fn new_starts_outside_code() {
    assert!(EmojiPreprocessor::new().convert_text);
}

#[test]
fn convert_event_rewrites_prose() {
    let mut pre = EmojiPreprocessor::new();
    let out = pre.convert_event(Segment::Text(String::from("a :smile:")));
    assert!(matches!(out, Segment::Text(ref t) if t == "a 😄"));
    assert!(pre.convert_text);
}

#[test]
fn convert_event_keeps_text_inside_a_code_block() {
    let mut pre = EmojiPreprocessor::new();
    let start = Event::Start(Tag::CodeBlock(CodeBlockKind::Indented));
    let out = pre.convert_event(Segment::CodeBlockStart(start.clone()));
    assert!(matches!(out, Segment::CodeBlockStart(ref e) if *e == start));
    assert!(!pre.convert_text);
    let out = pre.convert_event(Segment::Text(String::from(":smile:")));
    assert!(matches!(out, Segment::Text(ref t) if t == ":smile:"));
    assert!(!pre.convert_text);
    let out = pre.convert_event(Segment::Other(Event::SoftBreak));
    assert!(matches!(out, Segment::Other(Event::SoftBreak)));
    assert!(!pre.convert_text);
    let end = Event::End(TagEnd::CodeBlock);
    let out = pre.convert_event(Segment::CodeBlockEnd(end.clone()));
    assert!(matches!(out, Segment::CodeBlockEnd(ref e) if *e == end));
    assert!(pre.convert_text);
    let out = pre.convert_event(Segment::Text(String::from(":smile:")));
    assert!(matches!(out, Segment::Text(ref t) if t == "😄"));
}

#[test]
fn a_start_that_nothing_ends_keeps_the_rest() {
    let mut pre = EmojiPreprocessor::new();
    pre.convert_event(Segment::CodeBlockStart(Event::Start(Tag::CodeBlock(CodeBlockKind::Indented))));
    for _ in 0..3 {
        let out = pre.convert_event(Segment::Text(String::from(":smile:")));
        assert!(matches!(out, Segment::Text(ref t) if t == ":smile:"));
        pre.convert_event(Segment::Other(Event::Rule));
    }
    assert!(!pre.convert_text);
}

#[test]
fn other_events_pass_unchanged() {
    let mut pre = EmojiPreprocessor::new();
    let code = Event::Code(":smile:".into());
    let out = pre.convert_event(Segment::Other(code.clone()));
    assert!(matches!(out, Segment::Other(ref e) if *e == code));
    assert!(pre.convert_text);
}

#[test]
fn process_item_rewrites_a_chapter() {
    let mut item = BookItem::Chapter(String::from(":smile: `:smile:`"));
    assert!(EmojiPreprocessor::process_item(&mut item).is_ok());
    assert!(matches!(item, BookItem::Chapter(ref c) if c == "😄 `:smile:`"));
}

#[test]
fn process_item_leaves_other_items() {
    let mut item = BookItem::Other;
    assert!(EmojiPreprocessor::process_item(&mut item).is_ok());
    assert!(matches!(item, BookItem::Other));
}

#[test]
fn run_rewrites_every_chapter() {
    let book = vec![
        BookItem::Chapter(String::from(":smile:")),
        BookItem::Other,
        BookItem::Chapter(String::from("plain")),
        BookItem::Chapter(String::from("```\n:smile:\n```")),
    ];
    let out = EmojiPreprocessor::new().run(book).unwrap();
    assert_eq!(out.len(), 4);
    assert!(matches!(&out[0], BookItem::Chapter(c) if c == "😄"));
    assert!(matches!(&out[1], BookItem::Other));
    assert!(matches!(&out[2], BookItem::Chapter(c) if c == "plain"));
    assert!(matches!(&out[3], BookItem::Chapter(c) if c == "\n````\n:smile:\n````"));
}

#[test]
fn run_on_an_empty_book() {
    assert!(EmojiPreprocessor::new().run(Vec::new()).unwrap().is_empty());
}

#[test]
fn name_is_fixed() {
    assert_eq!(EmojiPreprocessor::new().name(), "emoji-preprocessor");
}

#[test]
fn serialization_failure_has_its_message() {
    let error = Error::SerializationFailed(std::fmt::Error);
    assert_eq!(error.message(), "Markdown serialization failed");
}
