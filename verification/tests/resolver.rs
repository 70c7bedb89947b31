use mdbook_emojis::distinct::{distinct_sorted_texts, insert_text, precedes_chars, same_chars};
use mdbook_emojis::preprocessor::EmojiPreprocessor;
use mdbook_emojis::resolver::{apply_glyph, convert_shortcodes_to_codepoints, name_of};
use mdbook_emojis::text::{chars_of, occurs_at_index, replace_chars, string_of};

fn chars(s: &str) -> Vec<char> {
    s.chars().collect()
}

#[test]
fn two_known_shortcodes_become_glyphs() {
    assert_eq!(convert_shortcodes_to_codepoints(":sparkling_heart: :smile:"), "💖 😄");
}

#[test]
fn unknown_shortcode_is_kept() {
    assert_eq!(convert_shortcodes_to_codepoints(":unknown_code:"), ":unknown_code:");
}

#[test]
fn text_without_colons_is_unchanged() {
    assert_eq!(convert_shortcodes_to_codepoints("no shortcodes here"), "no shortcodes here");
}

#[test]
fn empty_text_is_unchanged() {
    assert_eq!(convert_shortcodes_to_codepoints(""), "");
}

#[test]
fn every_occurrence_is_replaced() {
    assert_eq!(convert_shortcodes_to_codepoints(":smile: and :smile:"), "😄 and 😄");
    assert_eq!(convert_shortcodes_to_codepoints("a:smile:b:smile:c:smile:"), "a😄b😄c😄");
}

#[test]
fn unknown_shortcode_beside_known_one_is_kept() {
    assert_eq!(convert_shortcodes_to_codepoints(":bowtie: and :smile:"), ":bowtie: and 😄");
    assert_eq!(
        convert_shortcodes_to_codepoints(":bowtie: :smile: :bowtie:"),
        ":bowtie: 😄 :bowtie:"
    );
}

#[test]
fn resolving_twice_changes_nothing_more() {
    let once = convert_shortcodes_to_codepoints(":sparkling_heart: :bowtie: :smile: :q:");
    assert_eq!(once, "💖 :bowtie: 😄 :q:");
    assert_eq!(convert_shortcodes_to_codepoints(&once), once);
}

#[test]
fn digits_and_signs_are_no_part_of_a_shortcode() {
    assert_eq!(convert_shortcodes_to_codepoints(":100:"), ":100:");
    assert_eq!(convert_shortcodes_to_codepoints(":+1:"), ":+1:");
    assert_eq!(convert_shortcodes_to_codepoints(":smile1:"), ":smile1:");
}

#[test]
fn a_shortcode_needs_a_body() {
    assert_eq!(convert_shortcodes_to_codepoints("::"), "::");
    assert_eq!(convert_shortcodes_to_codepoints("::smile::"), ":😄:");
}

#[test]
fn matching_is_case_sensitive() {
    assert_eq!(convert_shortcodes_to_codepoints(":SMILE:"), ":SMILE:");
}

#[test]
fn a_colon_belongs_to_one_match_only() {
    // `:q:` is matched first, so the scan never sees `:smile:`.
    assert_eq!(convert_shortcodes_to_codepoints(":q:smile:"), ":q:smile:");
    // `:x:` is matched and replaced; what is left holds no shortcode.
    assert_eq!(convert_shortcodes_to_codepoints(":x:smile:"), "❌smile:");
}

#[test]
fn replacement_reaches_occurrences_that_the_scan_passed_over() {
    assert_eq!(convert_shortcodes_to_codepoints(":q:v: :v:"), ":q✌\u{fe0f} ✌\u{fe0f}");
    assert_eq!(
        convert_shortcodes_to_codepoints(":v:k:q:v:k:smile:"),
        "✌\u{fe0f}k:q✌\u{fe0f}k:smile:"
    );
}

#[test]
fn shortcodes_are_taken_in_ascending_order() {
    assert_eq!(convert_shortcodes_to_codepoints(":b:a:a:b:"), ":b🅰\u{fe0f}a🅱\u{fe0f}");
}

#[test]
fn process_capture_replaces_a_known_shortcode() {
    let out = EmojiPreprocessor::process_capture(String::from(":smile:"), "a :smile: b :smile:");
    assert_eq!(out.unwrap(), "a 😄 b 😄");
}

#[test]
fn process_capture_keeps_an_unknown_shortcode() {
    let out = EmojiPreprocessor::process_capture(String::from(":bowtie:"), "a :bowtie: b");
    assert_eq!(out.unwrap(), "a :bowtie: b");
}

#[test]
fn process_capture_touches_no_other_shortcode() {
    let out = EmojiPreprocessor::process_capture(String::from(":smile:"), ":rocket: :smile:");
    assert_eq!(out.unwrap(), ":rocket: 😄");
}

#[test]
fn apply_glyph_with_and_without_a_glyph() {
    assert_eq!(apply_glyph(":t:", "x:t:y:t:", Some(String::from("G"))), "xGyG");
    assert_eq!(apply_glyph(":t:", "x:t:y:t:", None), "x:t:y:t:");
    assert_eq!(apply_glyph("", "abc", Some(String::from("G"))), "abc");
}

#[test]
fn name_of_drops_the_colons() {
    assert_eq!(name_of(":sparkling_heart:"), "sparkling_heart");
    assert_eq!(name_of(":a:b:"), "ab");
    assert_eq!(name_of(""), "");
}

#[test]
fn replace_chars_is_leftmost_and_non_overlapping() {
    assert_eq!(replace_chars(&chars("aaaa"), &chars("aa"), &chars("b")), chars("bb"));
    assert_eq!(replace_chars(&chars("aaa"), &chars("aa"), &chars("b")), chars("ba"));
    assert_eq!(replace_chars(&chars(":a:a:"), &chars(":a:"), &chars("G")), chars("Ga:"));
    assert_eq!(replace_chars(&chars("abc"), &chars("abcd"), &chars("x")), chars("abc"));
    assert_eq!(replace_chars(&chars("abc"), &chars(""), &chars("x")), chars("abc"));
    assert_eq!(replace_chars(&chars(""), &chars("a"), &chars("x")), chars(""));
    assert_eq!(replace_chars(&chars("xay"), &chars("a"), &chars("")), chars("xy"));
}

#[test]
fn occurs_at_index_compares_in_place() {
    let text = chars("hello");
    assert!(occurs_at_index(&text, &chars("ll"), 2));
    assert!(!occurs_at_index(&text, &chars("ll"), 3));
    assert!(!occurs_at_index(&text, &chars("lo!"), 3));
    assert!(occurs_at_index(&text, &chars(""), 5));
}

#[test]
fn chars_and_strings_convert_both_ways() {
    assert_eq!(chars_of("a💖b"), vec!['a', '💖', 'b']);
    assert_eq!(string_of(&vec!['a', '💖', 'b']), "a💖b");
    assert_eq!(chars_of(""), Vec::<char>::new());
}

#[test]
fn lexicographic_order_of_texts() {
    assert!(precedes_chars(&chars(":a:"), &chars(":b:")));
    assert!(!precedes_chars(&chars(":b:"), &chars(":a:")));
    assert!(precedes_chars(&chars(":a"), &chars(":a:")));
    assert!(!precedes_chars(&chars(":a:"), &chars(":a:")));
    assert!(precedes_chars(&chars(":B:"), &chars(":a:")));
    assert!(precedes_chars(&chars(""), &chars("a")));
    assert!(!precedes_chars(&chars(""), &chars("")));
    assert!(same_chars(&chars("ab"), &chars("ab")));
    assert!(!same_chars(&chars("ab"), &chars("abc")));
    assert!(!same_chars(&chars("ab"), &chars("ac")));
}

#[test]
fn distinct_sorted_texts_sorts_and_drops_repeats() {
    let found = vec![chars(":smile:"), chars(":a:"), chars(":smile:"), chars(":b:"), chars(":a:")];
    assert_eq!(distinct_sorted_texts(&found), vec![chars(":a:"), chars(":b:"), chars(":smile:")]);
    assert_eq!(distinct_sorted_texts(&Vec::new()), Vec::<Vec<char>>::new());
}

#[test]
fn insert_text_keeps_the_list_sorted() {
    let mut list = vec![chars("b"), chars("d")];
    insert_text(&mut list, chars("c"));
    assert_eq!(list, vec![chars("b"), chars("c"), chars("d")]);
    insert_text(&mut list, chars("c"));
    assert_eq!(list, vec![chars("b"), chars("c"), chars("d")]);
    insert_text(&mut list, chars("a"));
    insert_text(&mut list, chars("e"));
    assert_eq!(list, vec![chars("a"), chars("b"), chars("c"), chars("d"), chars("e")]);
}
