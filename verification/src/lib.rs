//! Emoji shortcodes in book chapters: `:smile:` in prose becomes the glyph it
//! names, while fenced code is left alone.

pub mod book;
pub mod classifier;
pub mod distinct;
pub mod emoji;
pub mod error;
pub mod in_place;
pub mod laws;
pub mod preprocessor;
pub mod resolver;
pub mod segment;
pub mod shortcode;
pub mod text;
