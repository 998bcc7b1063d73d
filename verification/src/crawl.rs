//! The pagination state machine of one category crawl, and root assembly.
//!
//! Network retrieval happens outside the library; the crawl state decides
//! everything else.  The driver asks for the next listing URL, hands back
//! the fetched page, then feeds each pending detail page, until the crawl
//! reports itself finished — which happens in exactly the iteration whose
//! listing page carries the disabled next-page marker.

use vstd::prelude::*;
use vstd::string::StringSliceAdditionalSpecFns;

use crate::extract::{
    has_disabled_next, item_fields, listing_result, page_has_disabled_next, parse_category_page,
    parse_item,
};
use crate::scan::{bytes_to_vec, concat_bytes};
use crate::size::size_result;
use crate::types::{Category, Document, DownloadType, Error, LibraryItem};

verus! {

/// The decimal digits of `n`, most significant first.
pub open spec fn dec_rep(n: nat) -> Seq<u8>
    decreases n,
{
    if n < 10 {
        seq![(48 + n) as u8]
    } else {
        dec_rep(n / 10).push((48 + n % 10) as u8)
    }
}

/// Render a page counter as decimal digits.
fn u64_to_dec(n: u64) -> (r: Vec<u8>)
    ensures
        r@ == dec_rep(n as nat),
    decreases n,
{
    if n < 10 {
        let mut r: Vec<u8> = Vec::new();
        r.push(48 + n as u8);
        proof {
            assert(r@ =~= dec_rep(n as nat));
        }
        r
    } else {
        let mut r = u64_to_dec(n / 10);
        r.push(48 + (n % 10) as u8);
        r
    }
}

pub open spec fn category_base() -> Seq<u8> {
    "https://f-droid.org/en/categories/".spec_bytes()
}

pub open spec fn slash() -> Seq<u8> {
    "/".spec_bytes()
}

/// The root listing URL of the catalog.
pub open spec fn root_url_spec() -> Seq<u8> {
    "https://f-droid.org/en/packages/".spec_bytes()
}

/// The URL of page `k` (counted from 1) of a category's listing: the first
/// page is the category path itself, every later page appends its counter.
pub open spec fn listing_url_spec(name: Seq<u8>, k: nat) -> Seq<u8> {
    if k <= 1 {
        category_base() + name + slash()
    } else {
        category_base() + name + slash() + dec_rep(k) + slash()
    }
}

/// The root listing URL of the catalog.
pub fn root_url() -> (u: Vec<u8>)
    ensures
        u@ == root_url_spec(),
{
    bytes_to_vec("https://f-droid.org/en/packages/".as_bytes())
}

/// One category's crawl in progress.
pub struct CategoryCrawl {
    /// The category's identifier, as captured from the root page.
    pub name: Vec<u8>,
    /// Every document gathered so far, in page order then in-page order.
    pub docs: Vec<Document>,
    /// How many listing pages have been consumed.
    pub pages_done: u64,
    /// Whether a consumed listing page carried the disabled next-page marker.
    pub done: bool,
    /// The detail URLs of the last consumed listing page.
    pub pending: Vec<Vec<u8>>,
    /// How many of `pending` have been consumed.
    pub next_detail: usize,
    /// Ghost count of every detail link seen across all consumed pages.
    pub links_seen: Ghost<nat>,
}

impl CategoryCrawl {
    /// The crawl bookkeeping invariant: the documents gathered plus the
    /// details still pending account for every link seen.
    pub open spec fn wf(self) -> bool {
        &&& self.next_detail <= self.pending@.len()
        &&& self.docs@.len() + self.pending@.len() - self.next_detail == self.links_seen@
    }

    /// Start a crawl for a named category.
    pub fn new(name: Vec<u8>) -> (s: Self)
        ensures
            s.wf(),
            s.name@ == name@,
            s.docs@.len() == 0,
            !s.done,
            s.pages_done == 0,
            s.links_seen@ == 0,
            s.next_detail == s.pending@.len(),
    {
        CategoryCrawl {
            name,
            docs: Vec::new(),
            pages_done: 0,
            done: false,
            pending: Vec::new(),
            next_detail: 0,
            links_seen: Ghost(0),
        }
    }

    /// The URL of the next listing page to fetch.  No next page exists once
    /// a consumed page carried the end-of-pagination marker.
    pub fn listing_url(&self) -> (u: Vec<u8>)
        requires
            !self.done,
            self.pages_done < u64::MAX,
        ensures
            u@ == listing_url_spec(self.name@, (self.pages_done + 1) as nat),
    {
        let base: &[u8] = "https://f-droid.org/en/categories/".as_bytes();
        let sl: &[u8] = "/".as_bytes();
        let head = concat_bytes(base, self.name.as_slice());
        let path = concat_bytes(head.as_slice(), sl);
        if self.pages_done == 0 {
            proof {
                assert(path@ =~= listing_url_spec(self.name@, (self.pages_done + 1) as nat));
            }
            path
        } else {
            let k = self.pages_done + 1;
            let digits = u64_to_dec(k);
            let with_digits = concat_bytes(path.as_slice(), digits.as_slice());
            let u = concat_bytes(with_digits.as_slice(), sl);
            proof {
                assert(u@ =~= listing_url_spec(self.name@, (self.pages_done + 1) as nat));
            }
            u
        }
    }

    /// Consume one fetched listing page: its detail links become pending,
    /// and the crawl is done exactly when the page carries the disabled
    /// next-page marker.  A page without the "Last Updated" marker is a
    /// `StructuralMismatch` and leaves the crawl unchanged.
    pub fn on_listing_page(&mut self, page: &[u8]) -> (r: Result<(), Error>)
        requires
            old(self).wf(),
            !old(self).done,
            old(self).next_detail == old(self).pending@.len(),
            old(self).pages_done < u64::MAX,
        ensures
            match r {
                Ok(()) => {
                    &&& listing_result(page@) == Some(final(self).pending.deep_view())
                    &&& final(self).next_detail == 0
                    &&& final(self).docs@ == old(self).docs@
                    &&& final(self).name@ == old(self).name@
                    &&& final(self).done == has_disabled_next(page@)
                    &&& final(self).pages_done == old(self).pages_done + 1
                    &&& final(self).links_seen@ == old(self).links_seen@ + final(self).pending@.len()
                    &&& final(self).wf()
                },
                Err(e) => {
                    &&& e == Error::StructuralMismatch
                    &&& listing_result(page@) is None
                    &&& *final(self) == *old(self)
                },
            },
    {
        let urls = match parse_category_page(page) {
            Err(e) => {
                return Err(e);
            },
            Ok(urls) => urls,
        };
        let has_marker = page_has_disabled_next(page);
        let ghost seen = self.links_seen@ + urls@.len();
        self.pending = urls;
        self.next_detail = 0;
        self.done = has_marker;
        self.pages_done = self.pages_done + 1;
        self.links_seen = Ghost(seen);
        Ok(())
    }

    /// The next pending detail URL, if one is left for the current page.
    pub fn next_detail_url(&self) -> (r: Option<Vec<u8>>)
        ensures
            match r {
                Some(u) => self.next_detail < self.pending@.len() && u@ == self.pending@[
                    self.next_detail as int
                ]@,
                None => self.next_detail >= self.pending@.len(),
            },
    {
        if self.next_detail < self.pending.len() {
            Some(bytes_to_vec(self.pending[self.next_detail].as_slice()))
        } else {
            None
        }
    }

    /// Consume one fetched detail page: its document joins the gathered
    /// children.  A failed parse leaves the crawl unchanged.
    pub fn on_detail_page(&mut self, page: &[u8]) -> (r: Result<(), Error>)
        requires
            old(self).wf(),
            old(self).next_detail < old(self).pending@.len(),
        ensures
            match r {
                Ok(()) => {
                    &&& final(self).docs@.len() == old(self).docs@.len() + 1
                    &&& final(self).docs@ == old(self).docs@.push(final(self).docs@.last())
                    &&& ({
                        let d = final(self).docs@.last();
                        &&& item_fields(page@) matches Some((t, u, sz)) && d.title@ == t
                            && d.url@ == u && size_result(sz) == Some(d.size as nat)
                        &&& d.download_type == DownloadType::Http
                        &&& d.wf()
                    })
                    &&& final(self).next_detail == old(self).next_detail + 1
                    &&& final(self).pending@ == old(self).pending@
                    &&& final(self).name@ == old(self).name@
                    &&& final(self).done == old(self).done
                    &&& final(self).pages_done == old(self).pages_done
                    &&& final(self).links_seen@ == old(self).links_seen@
                    &&& final(self).wf()
                },
                Err(e) => {
                    &&& *final(self) == *old(self)
                    &&& match item_fields(page@) {
                        None => e == Error::MissingField,
                        Some(f) => e == Error::MalformedSize && match size_result(f.2) {
                            None => true,
                            Some(n) => n > u64::MAX,
                        },
                    }
                },
            },
    {
        let doc = match parse_item(page) {
            Err(e) => {
                return Err(e);
            },
            Ok(d) => d,
        };
        self.docs.push(doc);
        let n_pending = self.pending.len();
        self.next_detail = self.next_detail + 1;
        Ok(())
    }

    /// Whether the crawl is complete: the end-of-pagination marker was seen
    /// and no detail page is left pending.
    pub fn finished(&self) -> (r: bool)
        ensures
            r == (self.done && self.next_detail >= self.pending@.len()),
    {
        self.done && self.next_detail >= self.pending.len()
    }

    /// Wrap the gathered documents as this category's node.  The children
    /// are exactly the documents, in discovery order, and their number
    /// equals the number of detail links found across all pages consumed.
    pub fn finish(self) -> (c: Category)
        requires
            self.wf(),
            self.done,
            self.next_detail >= self.pending@.len(),
        ensures
            c.name@ == self.name@,
            !c.is_leaf_hint,
            c.children@.len() == self.docs@.len(),
            c.children@.len() == self.links_seen@,
            forall|i: int|
                0 <= i < c.children@.len() ==> c.children@[i] == LibraryItem::Document(
                    self.docs@[i],
                ),
    {
        let CategoryCrawl { name, mut docs, .. } = self;
        let ghost orig = docs@;
        let mut children: Vec<LibraryItem> = Vec::new();
        while docs.len() > 0
            invariant
                children@.len() + docs@.len() == orig.len(),
                docs@ =~= orig.skip(children@.len() as int),
                forall|i: int|
                    0 <= i < children@.len() ==> children@[i] == LibraryItem::Document(orig[i]),
            decreases docs@.len(),
        {
            let d = docs.remove(0);
            proof {
                assert(d == orig[children@.len() as int]);
            }
            children.push(LibraryItem::Document(d));
            proof {
                assert(docs@ =~= orig.skip(children@.len() as int));
            }
        }
        Category::new(name, children, false)
    }
}

/// Wrap the per-category nodes as the catalog's root node, named after the
/// catalog itself.
pub fn catalog_root(children: Vec<LibraryItem>) -> (c: Category)
    ensures
        c.name@ == crate::catalog_name(),
        !c.is_leaf_hint,
        c.children@ == children@,
{
    let name = bytes_to_vec("F-Droid".as_bytes());
    Category::new(name, children, false)
}

} // verus!

