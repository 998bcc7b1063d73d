//! Verified core of an application-catalog crawler.
//!
//! The library holds everything that can be stated and proved: the byte-level
//! page grammar (category links, listing links, item detail blocks), size
//! normalization, and the pagination state machine that decides which page to
//! fetch next.  Network retrieval and JSON output live outside the library.

use vstd::prelude::*;
use vstd::string::StringSliceAdditionalSpecFns;

pub mod codec;
pub mod crawl;
pub mod extract;
pub mod scan;
pub mod size;
pub mod types;

verus! {

/// The fixed display name of the catalog; the root tree node carries it.
pub open spec fn catalog_name() -> Seq<u8> {
    "F-Droid".spec_bytes()
}

} // verus!
