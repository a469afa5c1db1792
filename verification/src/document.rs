//! The document record.

use vstd::prelude::*;

verus! {

/// A document: its id, title and content.
#[derive(Debug)]
pub struct Document {
    pub id: u64,
    pub title: String,
    pub content: String,
}

/// A document seen as plain values.
pub struct DocumentView {
    pub id: u64,
    pub title: Seq<char>,
    pub content: Seq<char>,
}

impl View for Document {
    type V = DocumentView;

    open spec fn view(&self) -> DocumentView {
        DocumentView { id: self.id, title: self.title@, content: self.content@ }
    }
}

impl Document {
    /// A copy of the document.
    pub fn duplicate(&self) -> (d: Document)
        ensures
            d@ == self@,
    {
        Document { id: self.id, title: self.title.clone(), content: self.content.clone() }
    }
}

} // verus!
