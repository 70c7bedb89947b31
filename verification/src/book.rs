//! The items of a book, as far as the preprocessor reads them.

use vstd::prelude::*;

verus! {

/// One item of a book, in the order in which the book is walked.
pub enum BookItem {
    /// A chapter, with its content.
    Chapter(String),
    /// Anything that has no content to rewrite: a separator, a part title.
    Other,
}

/// An item as a value: a chapter is the sequence of its content's
/// characters.
pub ghost enum BookItemView {
    Chapter(Seq<char>),
    Other,
}

impl View for BookItem {
    type V = BookItemView;

    open spec fn view(&self) -> BookItemView {
        match self {
            BookItem::Chapter(content) => BookItemView::Chapter(content@),
            BookItem::Other => BookItemView::Other,
        }
    }
}

/// The values of a list of items.
pub open spec fn item_views(items: Seq<BookItem>) -> Seq<BookItemView> {
    Seq::new(items.len(), |i: int| items[i]@)
}

} // verus!
