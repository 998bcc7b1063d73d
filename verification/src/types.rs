//! The catalog tree and the error taxonomy.
//!
//! The tree has two node kinds: a named `Category` holding an ordered
//! sequence of children, and a `Document` leaf describing one downloadable
//! application.  Names, titles and URLs are byte strings, exactly as they
//! stand on the fetched pages.

use vstd::prelude::*;

verus! {

/// How a document is retrieved; this crawler only ever produces `Http`.
#[derive(Clone, Copy, PartialEq, Eq, Structural, Debug)]
pub enum DownloadType {
    Http,
}

/// Why a crawl step failed.  Every failure is fatal to the whole run: the
/// crawl either produces a complete tree or produces nothing.
#[derive(Clone, Copy, PartialEq, Eq, Structural, Debug)]
pub enum Error {
    /// A network retrieval failed or its body could not be decoded as text.
    Fetch,
    /// A page lacked a structural marker the grammar insists on
    /// (the "Last Updated" section of a listing page).
    StructuralMismatch,
    /// A detail page held no complete download block
    /// (title, download link and size).
    MissingField,
    /// A size string had no space separator, a numeric portion that does not
    /// parse as an unsigned decimal, or a value too large for a byte count.
    MalformedSize,
}

/// A leaf node: one downloadable application.
#[derive(Debug)]
pub struct Document {
    pub title: Vec<u8>,
    pub url: Vec<u8>,
    pub size: u64,
    pub download_type: DownloadType,
}

/// An internal node: a named grouping of items.
#[derive(Debug)]
pub struct Category {
    pub name: Vec<u8>,
    pub children: Vec<LibraryItem>,
    pub is_leaf_hint: bool,
}

/// A node of the catalog tree.
#[derive(Debug)]
pub enum LibraryItem {
    Category(Category),
    Document(Document),
}

impl Document {
    /// A document is meaningful only with a non-empty title and URL.
    pub open spec fn wf(self) -> bool {
        self.title@.len() > 0 && self.url@.len() > 0
    }

    pub fn new(title: Vec<u8>, url: Vec<u8>, size: u64, download_type: DownloadType) -> (d: Self)
        ensures
            d.title@ == title@,
            d.url@ == url@,
            d.size == size,
            d.download_type == download_type,
    {
        Document { title, url, size, download_type }
    }
}

impl Category {
    /// A category is meaningful only with a non-empty name.
    pub open spec fn wf(self) -> bool {
        self.name@.len() > 0
    }

    pub fn new(name: Vec<u8>, children: Vec<LibraryItem>, is_leaf_hint: bool) -> (c: Self)
        ensures
            c.name@ == name@,
            c.children@ == children@,
            c.is_leaf_hint == is_leaf_hint,
    {
        Category { name, children, is_leaf_hint }
    }
}

} // verus!
