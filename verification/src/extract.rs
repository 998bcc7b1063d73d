//! The page grammar: what the crawler reads out of the catalog's HTML.
//!
//! Three page families are read with positional byte patterns:
//! - the root listing, whose category anchors name every category;
//! - a category's listing pages, whose package-header anchors point at
//!   detail pages — everything from the "Last Updated" section onward is
//!   discarded, because the items there are recommendations, not members;
//! - a detail page, whose single download block yields title, download URL
//!   and size string.
//!
//! Every capture is taken lazily (shortest match), must be non-empty and
//! must not span a line break, mirroring single-line anchor markup.

use vstd::prelude::*;
use vstd::string::StringSliceAdditionalSpecFns;

use crate::scan::{
    bytes_to_vec, concat_bytes, find_byte, find_byte_spec, find_from, find_spec,
    lemma_find_byte_props, lemma_find_spec_first, lemma_find_spec_props, match_at, occurs_at,
};
use crate::size::{is_digit, size_result};
use crate::types::{Document, DownloadType, Error};

verus! {

pub open spec fn marker_pat() -> Seq<u8> {
    "<h3>Last Updated</h3>".spec_bytes()
}

pub open spec fn next_disabled_pat() -> Seq<u8> {
    "<li class=\"nav next disabled\">".spec_bytes()
}

pub open spec fn link_open_pat() -> Seq<u8> {
    "<a class=\"package-header\" href=\"".spec_bytes()
}

pub open spec fn quote_close_pat() -> Seq<u8> {
    "\">".spec_bytes()
}

pub open spec fn cat_open_pat() -> Seq<u8> {
    "<p><a href=\"/en/categories/".spec_bytes()
}

pub open spec fn cat_mid_pat() -> Seq<u8> {
    "/\">Show all ".spec_bytes()
}

pub open spec fn cat_close_pat() -> Seq<u8> {
    " packages</a></p>".spec_bytes()
}

pub open spec fn origin_pat() -> Seq<u8> {
    "https://f-droid.org".spec_bytes()
}

pub open spec fn title_open_pat() -> Seq<u8> {
    "<title>".spec_bytes()
}

pub open spec fn title_sep_pat() -> Seq<u8> {
    " | ".spec_bytes()
}

pub open spec fn title_close_pat() -> Seq<u8> {
    "</title>".spec_bytes()
}

pub open spec fn dl_block_pat() -> Seq<u8> {
    "<p class=\"package-version-download\">".spec_bytes()
}

pub open spec fn b_open_pat() -> Seq<u8> {
    "<b>".spec_bytes()
}

pub open spec fn a_open_pat() -> Seq<u8> {
    "<a href=\"".spec_bytes()
}

pub open spec fn dl_text_pat() -> Seq<u8> {
    "Download APK".spec_bytes()
}

pub open spec fn a_close_pat() -> Seq<u8> {
    "</a>".spec_bytes()
}

pub open spec fn b_close_pat() -> Seq<u8> {
    "</b>".spec_bytes()
}

/// Every pattern is a non-empty byte string.
pub proof fn lemma_pattern_props()
    ensures
        marker_pat().len() >= 1,
        next_disabled_pat().len() >= 1,
        link_open_pat().len() >= 1,
        quote_close_pat().len() >= 1,
        cat_open_pat().len() >= 1,
        cat_mid_pat().len() >= 1,
        cat_close_pat().len() >= 1,
        origin_pat().len() >= 1,
        title_open_pat().len() >= 1,
        title_sep_pat().len() >= 1,
        title_close_pat().len() >= 1,
        dl_block_pat().len() >= 1,
        b_open_pat().len() >= 1,
        a_open_pat().len() >= 1,
        dl_text_pat().len() >= 1,
        a_close_pat().len() >= 1,
        b_close_pat().len() >= 1,
{
    reveal_strlit("<h3>Last Updated</h3>");
    reveal_strlit("<li class=\"nav next disabled\">");
    reveal_strlit("<a class=\"package-header\" href=\"");
    reveal_strlit("\">");
    reveal_strlit("<p><a href=\"/en/categories/");
    reveal_strlit("/\">Show all ");
    reveal_strlit(" packages</a></p>");
    reveal_strlit("https://f-droid.org");
    reveal_strlit("<title>");
    reveal_strlit(" | ");
    reveal_strlit("</title>");
    reveal_strlit("<p class=\"package-version-download\">");
    reveal_strlit("<b>");
    reveal_strlit("<a href=\"");
    reveal_strlit("Download APK");
    reveal_strlit("</a>");
    reveal_strlit("</b>");
    assert(vstd::utf8::is_ascii_chars("<h3>Last Updated</h3>"@));
    vstd::utf8::is_ascii_chars_encode_utf8("<h3>Last Updated</h3>"@);
    assert(vstd::utf8::is_ascii_chars("<li class=\"nav next disabled\">"@));
    vstd::utf8::is_ascii_chars_encode_utf8("<li class=\"nav next disabled\">"@);
    assert(vstd::utf8::is_ascii_chars("<a class=\"package-header\" href=\""@));
    vstd::utf8::is_ascii_chars_encode_utf8("<a class=\"package-header\" href=\""@);
    assert(vstd::utf8::is_ascii_chars("\">"@));
    vstd::utf8::is_ascii_chars_encode_utf8("\">"@);
    assert(vstd::utf8::is_ascii_chars("<p><a href=\"/en/categories/"@));
    vstd::utf8::is_ascii_chars_encode_utf8("<p><a href=\"/en/categories/"@);
    assert(vstd::utf8::is_ascii_chars("/\">Show all "@));
    vstd::utf8::is_ascii_chars_encode_utf8("/\">Show all "@);
    assert(vstd::utf8::is_ascii_chars(" packages</a></p>"@));
    vstd::utf8::is_ascii_chars_encode_utf8(" packages</a></p>"@);
    assert(vstd::utf8::is_ascii_chars("https://f-droid.org"@));
    vstd::utf8::is_ascii_chars_encode_utf8("https://f-droid.org"@);
    assert(vstd::utf8::is_ascii_chars("<title>"@));
    vstd::utf8::is_ascii_chars_encode_utf8("<title>"@);
    assert(vstd::utf8::is_ascii_chars(" | "@));
    vstd::utf8::is_ascii_chars_encode_utf8(" | "@);
    assert(vstd::utf8::is_ascii_chars("</title>"@));
    vstd::utf8::is_ascii_chars_encode_utf8("</title>"@);
    assert(vstd::utf8::is_ascii_chars("<p class=\"package-version-download\">"@));
    vstd::utf8::is_ascii_chars_encode_utf8("<p class=\"package-version-download\">"@);
    assert(vstd::utf8::is_ascii_chars("<b>"@));
    vstd::utf8::is_ascii_chars_encode_utf8("<b>"@);
    assert(vstd::utf8::is_ascii_chars("<a href=\""@));
    vstd::utf8::is_ascii_chars_encode_utf8("<a href=\""@);
    assert(vstd::utf8::is_ascii_chars("Download APK"@));
    vstd::utf8::is_ascii_chars_encode_utf8("Download APK"@);
    assert(vstd::utf8::is_ascii_chars("</a>"@));
    vstd::utf8::is_ascii_chars_encode_utf8("</a>"@);
    assert(vstd::utf8::is_ascii_chars("</b>"@));
    vstd::utf8::is_ascii_chars_encode_utf8("</b>"@);
}

/// A usable capture: non-empty and within a single line.
pub open spec fn valid_cap(c: Seq<u8>) -> bool {
    c.len() > 0 && forall|i: int| 0 <= i < c.len() ==> c[i] != 10
}

/// The detail-page URLs of one listing region, scanned from `from`: each is
/// the lazy capture between a package-header anchor opening and the next
/// closing quote, resolved against the catalog's origin.
pub open spec fn links_from(s: Seq<u8>, from: int) -> Seq<Seq<u8>>
    decreases s.len() - from,
    via links_from_dec
{
    if from < 0 || from >= s.len() {
        Seq::empty()
    } else if match_at(s, link_open_pat(), from) {
        let cs = from + link_open_pat().len();
        match find_spec(s, quote_close_pat(), cs) {
            None => Seq::empty(),
            Some(j) => {
                if valid_cap(s.subrange(cs, j)) {
                    seq![origin_pat() + s.subrange(cs, j)] + links_from(
                        s,
                        j + quote_close_pat().len(),
                    )
                } else {
                    links_from(s, from + 1)
                }
            },
        }
    } else {
        links_from(s, from + 1)
    }
}

#[via_fn]
proof fn links_from_dec(s: Seq<u8>, from: int) {
    lemma_pattern_props();
    if 0 <= from < s.len() && match_at(s, link_open_pat(), from) {
        let cs = from + link_open_pat().len();
        lemma_find_spec_props(s, quote_close_pat(), cs);
    }
}

/// Scanning may start anywhere in a stretch free of anchor openings.
pub proof fn lemma_links_from_skip(s: Seq<u8>, from: int, to: int)
    requires
        0 <= from <= to <= s.len(),
        forall|j: int| from <= j < to ==> !match_at(s, link_open_pat(), j),
    ensures
        links_from(s, from) == links_from(s, to),
    decreases to - from,
{
    if from < to {
        lemma_links_from_skip(s, from + 1, to);
    }
}

/// What `parse_category_page` extracts from a full listing page: `None`
/// where the "Last Updated" marker is missing, else the resolved anchor
/// captures of the page truncated at the first marker.
pub open spec fn listing_result(s: Seq<u8>) -> Option<Seq<Seq<u8>>> {
    match find_spec(s, marker_pat(), 0) {
        None => None,
        Some(m) => Some(links_from(s.take(m), 0)),
    }
}

/// First position at or after `p` that does not hold an ASCII digit.
pub open spec fn digit_run_end(s: Seq<u8>, p: int) -> int
    decreases s.len() - p,
{
    if p < 0 || p >= s.len() || !is_digit(s[p]) {
        p
    } else {
        digit_run_end(s, p + 1)
    }
}

pub proof fn lemma_digit_run_end_bounds(s: Seq<u8>, p: int)
    requires
        0 <= p <= s.len(),
    ensures
        p <= digit_run_end(s, p) <= s.len(),
    decreases s.len() - p,
{
    if p < s.len() && is_digit(s[p]) {
        lemma_digit_run_end_bounds(s, p + 1);
    }
}

/// The category names of the root listing page, scanned from `from`: each is
/// the lazy capture of a category anchor that a package count follows.
pub open spec fn cat_names_from(s: Seq<u8>, from: int) -> Seq<Seq<u8>>
    decreases s.len() - from,
    via cat_names_dec
{
    if from < 0 || from >= s.len() {
        Seq::empty()
    } else if match_at(s, cat_open_pat(), from) {
        let cs = from + cat_open_pat().len();
        match find_spec(s, cat_mid_pat(), cs) {
            None => Seq::empty(),
            Some(j) => {
                let ds = j + cat_mid_pat().len();
                let de = digit_run_end(s, ds);
                if valid_cap(s.subrange(cs, j)) && de > ds && match_at(s, cat_close_pat(), de) {
                    seq![s.subrange(cs, j)] + cat_names_from(s, de + cat_close_pat().len())
                } else {
                    cat_names_from(s, from + 1)
                }
            },
        }
    } else {
        cat_names_from(s, from + 1)
    }
}

#[via_fn]
proof fn cat_names_dec(s: Seq<u8>, from: int) {
    lemma_pattern_props();
    if 0 <= from < s.len() && match_at(s, cat_open_pat(), from) {
        let cs = from + cat_open_pat().len();
        lemma_find_spec_props(s, cat_mid_pat(), cs);
        match find_spec(s, cat_mid_pat(), cs) {
            None => {},
            Some(j) => {
                let ds = j + cat_mid_pat().len();
                if ds <= s.len() {
                    lemma_digit_run_end_bounds(s, ds);
                }
            },
        }
    }
}

/// Scanning may start anywhere in a stretch free of category anchor openings.
pub proof fn lemma_cat_names_skip(s: Seq<u8>, from: int, to: int)
    requires
        0 <= from <= to <= s.len(),
        forall|j: int| from <= j < to ==> !match_at(s, cat_open_pat(), j),
    ensures
        cat_names_from(s, from) == cat_names_from(s, to),
    decreases to - from,
{
    if from < to {
        lemma_cat_names_skip(s, from + 1, to);
    }
}

/// The category names of a root listing page.
pub open spec fn cat_names(s: Seq<u8>) -> Seq<Seq<u8>> {
    cat_names_from(s, 0)
}

/// A page closes its pagination with the disabled next-page marker.
pub open spec fn has_disabled_next(s: Seq<u8>) -> bool {
    find_spec(s, next_disabled_pat(), 0) is Some
}

/// A regex-class whitespace byte.
pub open spec fn is_ws(b: u8) -> bool {
    b == 32 || b == 9 || b == 10 || b == 13 || b == 12 || b == 11
}

/// First position at or after `p` that does not hold whitespace.
pub open spec fn ws_run_end(s: Seq<u8>, p: int) -> int
    decreases s.len() - p,
{
    if p < 0 || p >= s.len() || !is_ws(s[p]) {
        p
    } else {
        ws_run_end(s, p + 1)
    }
}

/// After at least one whitespace byte, the pattern must stand; the result is
/// the position just past it.
pub open spec fn expect_ws_then(s: Seq<u8>, p: int, pat: Seq<u8>) -> Option<int> {
    let q = ws_run_end(s, p);
    if q > p && match_at(s, pat, q) {
        Some(q + pat.len() as int)
    } else {
        None
    }
}

/// The title of a detail page: the lazy capture between the title opening
/// and the separator before the site name, which the closing tag must
/// follow on the same line.  Returns the position past the closing tag and
/// the capture.
pub open spec fn item_title(s: Seq<u8>) -> Option<(int, Seq<u8>)> {
    match find_spec(s, title_open_pat(), 0) {
        None => None,
        Some(t0) => {
            let ts = t0 + title_open_pat().len();
            match find_spec(s, title_sep_pat(), ts) {
                None => None,
                Some(t1) => {
                    let r0 = t1 + title_sep_pat().len();
                    match find_spec(s, title_close_pat(), r0) {
                        None => None,
                        Some(t2) => {
                            if valid_cap(s.subrange(ts, t1)) && valid_cap(s.subrange(r0, t2)) {
                                Some((t2 + title_close_pat().len() as int, s.subrange(ts, t1)))
                            } else {
                                None
                            }
                        },
                    }
                },
            }
        },
    }
}

/// The download anchor and size string inside a download block that starts
/// just past position `d`: bold and anchor tags each preceded by
/// whitespace, the anchor's lazy href capture, the download caption, the
/// closing tags, and the size text running to the end of its line.
pub open spec fn item_dl(s: Seq<u8>, d: int) -> Option<(Seq<u8>, Seq<u8>)> {
    match expect_ws_then(s, d, b_open_pat()) {
        None => None,
        Some(p1) => match expect_ws_then(s, p1, a_open_pat()) {
            None => None,
            Some(cs) => match find_spec(s, quote_close_pat(), cs) {
                None => None,
                Some(q) => {
                    if !valid_cap(s.subrange(cs, q)) {
                        None
                    } else {
                        match expect_ws_then(s, q + quote_close_pat().len(), dl_text_pat()) {
                            None => None,
                            Some(p2) => match expect_ws_then(s, p2, a_close_pat()) {
                                None => None,
                                Some(p3) => match expect_ws_then(s, p3, b_close_pat()) {
                                    None => None,
                                    Some(p4) => {
                                        let w = ws_run_end(s, p4);
                                        if w > p4 {
                                            match find_byte_spec(s, 10, w) {
                                                None => None,
                                                Some(nl) => {
                                                    if nl > w {
                                                        Some(
                                                            (s.subrange(cs, q), s.subrange(w, nl)),
                                                        )
                                                    } else {
                                                        None
                                                    }
                                                },
                                            }
                                        } else {
                                            None
                                        }
                                    },
                                },
                            },
                        }
                    }
                },
            },
        },
    }
}

/// What a detail page yields: title, download URL and raw size string.
pub open spec fn item_fields(s: Seq<u8>) -> Option<(Seq<u8>, Seq<u8>, Seq<u8>)> {
    match item_title(s) {
        None => None,
        Some((p, title)) => match find_spec(s, dl_block_pat(), p) {
            None => None,
            Some(d0) => match item_dl(s, d0 + dl_block_pat().len()) {
                None => None,
                Some((url, size)) => Some((title, url, size)),
            },
        },
    }
}

fn ws_end(s: &[u8], p: usize) -> (r: usize)
    requires
        p <= s@.len(),
    ensures
        r as int == ws_run_end(s@, p as int),
        p <= r <= s@.len(),
{
    let s_len = s.len();
    let mut i = p;
    while i < s_len && (s[i] == 32 || s[i] == 9 || s[i] == 10 || s[i] == 13 || s[i] == 12 || s[i]
        == 11)
        invariant
            p <= i <= s@.len(),
            s_len == s@.len(),
            ws_run_end(s@, p as int) == ws_run_end(s@, i as int),
        decreases s@.len() - i,
    {
        i += 1;
    }
    i
}

fn digit_end(s: &[u8], p: usize) -> (r: usize)
    requires
        p <= s@.len(),
    ensures
        r as int == digit_run_end(s@, p as int),
        p <= r <= s@.len(),
{
    let s_len = s.len();
    let mut i = p;
    while i < s_len && s[i] >= 48 && s[i] <= 57
        invariant
            p <= i <= s@.len(),
            s_len == s@.len(),
            digit_run_end(s@, p as int) == digit_run_end(s@, i as int),
        decreases s@.len() - i,
    {
        i += 1;
    }
    i
}

fn cap_ok(c: &[u8]) -> (r: bool)
    ensures
        r == valid_cap(c@),
{
    if c.len() == 0 {
        return false;
    }
    match find_byte(c, 10, 0) {
        Some(_) => false,
        None => {
            proof {
                lemma_find_byte_props(c@, 10, 0);
            }
            true
        },
    }
}

fn expect_ws_then_exec(s: &[u8], p: usize, pat: &[u8]) -> (r: Option<usize>)
    requires
        p <= s@.len(),
    ensures
        match r {
            Some(q) => expect_ws_then(s@, p as int, pat@) == Some(q as int) && q <= s@.len(),
            None => expect_ws_then(s@, p as int, pat@) is None,
        },
{
    let s_len = s.len();
    let q = ws_end(s, p);
    if q > p && occurs_at(s, pat, q) {
        Some(q + pat.len())
    } else {
        None
    }
}

/// Extract the detail-page URLs of one listing page, resolved against the
/// catalog's origin.  Everything at and after the first "Last Updated"
/// marker is discarded; a page without the marker violates the expected
/// layout and is a `StructuralMismatch`.
pub fn parse_category_page(page: &[u8]) -> (r: Result<Vec<Vec<u8>>, Error>)
    ensures
        match r {
            Ok(urls) => listing_result(page@) == Some(urls.deep_view()),
            Err(e) => e == Error::StructuralMismatch && listing_result(page@) is None,
        },
{
    let m = match find_from(page, "<h3>Last Updated</h3>".as_bytes(), 0) {
        None => {
            return Err(Error::StructuralMismatch);
        },
        Some(m) => m,
    };
    proof {
        lemma_find_spec_props(page@, marker_pat(), 0);
    }
    let region: &[u8] = &page[0..m];
    let ghost reg = page@.take(m as int);
    proof {
        assert(region@ =~= reg);
    }
    let origin: &[u8] = "https://f-droid.org".as_bytes();
    let open: &[u8] = "<a class=\"package-header\" href=\"".as_bytes();
    let close: &[u8] = "\">".as_bytes();
    let reg_len = region.len();
    let mut urls: Vec<Vec<u8>> = Vec::new();
    let mut pos: usize = 0;
    loop
        invariant
            pos <= reg.len(),
            region@ == reg,
            reg_len == reg.len(),
            origin@ == origin_pat(),
            open@ == link_open_pat(),
            close@ == quote_close_pat(),
            urls.deep_view() + links_from(reg, pos as int) =~= links_from(reg, 0),
        ensures
            urls.deep_view() =~= links_from(reg, 0),
        decreases reg.len() - pos,
    {
        let i = match find_from(region, open, pos) {
            None => {
                proof {
                    lemma_find_spec_props(reg, link_open_pat(), pos as int);
                    lemma_links_from_skip(reg, pos as int, reg.len() as int);
                }
                break;
            },
            Some(i) => i,
        };
        proof {
            lemma_find_spec_props(reg, link_open_pat(), pos as int);
            lemma_links_from_skip(reg, pos as int, i as int);
        }
        let cs = i + open.len();
        let j = match find_from(region, close, cs) {
            None => {
                break;
            },
            Some(j) => j,
        };
        proof {
            lemma_find_spec_props(reg, quote_close_pat(), cs as int);
        }
        let cap: &[u8] = &region[cs..j];
        proof {
            assert(cap@ =~= reg.subrange(cs as int, j as int));
        }
        if cap_ok(cap) {
            let u = concat_bytes(origin, cap);
            let ghost prev = urls.deep_view();
            urls.push(u);
            proof {
                let next = j + quote_close_pat().len();
                assert(urls.deep_view() =~~= prev.push(u@));
                assert(links_from(reg, i as int) == seq![
                    origin_pat() + reg.subrange(cs as int, j as int),
                ] + links_from(reg, next));
                assert(prev.push(u@) + links_from(reg, next) =~= prev + links_from(
                    reg,
                    i as int,
                ));
            }
            pos = j + close.len();
        } else {
            proof {
                lemma_pattern_props();
            }
            pos = i + 1;
        }
    }
    Ok(urls)
}

/// Whether a fetched listing page carries the disabled next-page marker,
/// the catalog's end-of-pagination signal.
pub fn page_has_disabled_next(page: &[u8]) -> (r: bool)
    ensures
        r == has_disabled_next(page@),
{
    match find_from(page, "<li class=\"nav next disabled\">".as_bytes(), 0) {
        Some(_) => true,
        None => false,
    }
}

/// Extract every category name of the root listing page, in page order.
pub fn parse_catalog_page(page: &[u8]) -> (names: Vec<Vec<u8>>)
    ensures
        names.deep_view() == cat_names(page@),
{
    let open: &[u8] = "<p><a href=\"/en/categories/".as_bytes();
    let mid: &[u8] = "/\">Show all ".as_bytes();
    let close: &[u8] = " packages</a></p>".as_bytes();
    let mut names: Vec<Vec<u8>> = Vec::new();
    let mut pos: usize = 0;
    let page_len = page.len();
    loop
        invariant
            pos <= page@.len(),
            page_len == page@.len(),
            open@ == cat_open_pat(),
            mid@ == cat_mid_pat(),
            close@ == cat_close_pat(),
            names.deep_view() + cat_names_from(page@, pos as int) =~= cat_names_from(page@, 0),
        ensures
            names.deep_view() =~= cat_names_from(page@, 0),
        decreases page@.len() - pos,
    {
        let i = match find_from(page, open, pos) {
            None => {
                proof {
                    lemma_find_spec_props(page@, cat_open_pat(), pos as int);
                    lemma_cat_names_skip(page@, pos as int, page@.len() as int);
                }
                break;
            },
            Some(i) => i,
        };
        proof {
            lemma_find_spec_props(page@, cat_open_pat(), pos as int);
            lemma_cat_names_skip(page@, pos as int, i as int);
        }
        let cs = i + open.len();
        let j = match find_from(page, mid, cs) {
            None => {
                break;
            },
            Some(j) => j,
        };
        proof {
            lemma_find_spec_props(page@, cat_mid_pat(), cs as int);
        }
        let ds = j + mid.len();
        let de = digit_end(page, ds);
        let cap: &[u8] = &page[cs..j];
        proof {
            assert(cap@ =~= page@.subrange(cs as int, j as int));
        }
        if cap_ok(cap) && de > ds && occurs_at(page, close, de) {
            let name = bytes_to_vec(cap);
            let ghost prev = names.deep_view();
            names.push(name);
            proof {
                let next = de + cat_close_pat().len();
                assert(names.deep_view() =~~= prev.push(name@));
                assert(cat_names_from(page@, i as int) == seq![
                    page@.subrange(cs as int, j as int),
                ] + cat_names_from(page@, next));
                assert(prev.push(name@) + cat_names_from(page@, next) =~= prev + cat_names_from(
                    page@,
                    i as int,
                ));
            }
            pos = de + close.len();
        } else {
            proof {
                lemma_pattern_props();
            }
            pos = i + 1;
        }
    }
    names
}

/// Extract one application's document node from its detail page.
///
/// Succeeds exactly where the page holds a complete download block whose
/// size string normalizes to a byte count: the document carries the title
/// and URL verbatim and the normalized size, and is retrieved over HTTP.
pub fn parse_item(page: &[u8]) -> (r: Result<Document, Error>)
    ensures
        match r {
            Ok(d) => ({
                &&& item_fields(page@) matches Some((t, u, sz)) && d.title@ == t && d.url@ == u
                    && size_result(sz) == Some(d.size as nat)
                &&& d.download_type == DownloadType::Http
                &&& d.wf()
            }),
            Err(e) => match item_fields(page@) {
                None => e == Error::MissingField,
                Some(f) => e == Error::MalformedSize && match size_result(f.2) {
                    None => true,
                    Some(n) => n > u64::MAX,
                },
            },
        },
{
    let title_open: &[u8] = "<title>".as_bytes();
    let title_sep: &[u8] = " | ".as_bytes();
    let title_close: &[u8] = "</title>".as_bytes();
    let dl_block: &[u8] = "<p class=\"package-version-download\">".as_bytes();
    let quote_close: &[u8] = "\">".as_bytes();
    let page_len = page.len();
    let t0 = match find_from(page, title_open, 0) {
        None => {
            return Err(Error::MissingField);
        },
        Some(i) => i,
    };
    proof {
        lemma_find_spec_props(page@, title_open_pat(), 0);
    }
    let ts = t0 + title_open.len();
    let t1 = match find_from(page, title_sep, ts) {
        None => {
            return Err(Error::MissingField);
        },
        Some(i) => i,
    };
    proof {
        lemma_find_spec_props(page@, title_sep_pat(), ts as int);
    }
    let r0 = t1 + title_sep.len();
    let t2 = match find_from(page, title_close, r0) {
        None => {
            return Err(Error::MissingField);
        },
        Some(i) => i,
    };
    proof {
        lemma_find_spec_props(page@, title_close_pat(), r0 as int);
    }
    let title: &[u8] = &page[ts..t1];
    let gap: &[u8] = &page[r0..t2];
    proof {
        assert(title@ =~= page@.subrange(ts as int, t1 as int));
        assert(gap@ =~= page@.subrange(r0 as int, t2 as int));
    }
    if !cap_ok(title) || !cap_ok(gap) {
        return Err(Error::MissingField);
    }
    let p = t2 + title_close.len();
    let d0 = match find_from(page, dl_block, p) {
        None => {
            return Err(Error::MissingField);
        },
        Some(i) => i,
    };
    proof {
        lemma_find_spec_props(page@, dl_block_pat(), p as int);
    }
    let d = d0 + dl_block.len();
    let p1 = match expect_ws_then_exec(page, d, "<b>".as_bytes()) {
        None => {
            return Err(Error::MissingField);
        },
        Some(i) => i,
    };
    let cs = match expect_ws_then_exec(page, p1, "<a href=\"".as_bytes()) {
        None => {
            return Err(Error::MissingField);
        },
        Some(i) => i,
    };
    let q = match find_from(page, quote_close, cs) {
        None => {
            return Err(Error::MissingField);
        },
        Some(i) => i,
    };
    proof {
        lemma_find_spec_props(page@, quote_close_pat(), cs as int);
    }
    let url: &[u8] = &page[cs..q];
    proof {
        assert(url@ =~= page@.subrange(cs as int, q as int));
    }
    if !cap_ok(url) {
        return Err(Error::MissingField);
    }
    let p2 = match expect_ws_then_exec(page, q + quote_close.len(), "Download APK".as_bytes()) {
        None => {
            return Err(Error::MissingField);
        },
        Some(i) => i,
    };
    let p3 = match expect_ws_then_exec(page, p2, "</a>".as_bytes()) {
        None => {
            return Err(Error::MissingField);
        },
        Some(i) => i,
    };
    let p4 = match expect_ws_then_exec(page, p3, "</b>".as_bytes()) {
        None => {
            return Err(Error::MissingField);
        },
        Some(i) => i,
    };
    let w = ws_end(page, p4);
    if !(w > p4) {
        return Err(Error::MissingField);
    }
    let nl = match find_byte(page, 10, w) {
        None => {
            return Err(Error::MissingField);
        },
        Some(i) => i,
    };
    if !(nl > w) {
        return Err(Error::MissingField);
    }
    let size_str: &[u8] = &page[w..nl];
    proof {
        assert(size_str@ =~= page@.subrange(w as int, nl as int));
        assert(item_fields(page@) == Some(
            (
                page@.subrange(ts as int, t1 as int),
                page@.subrange(cs as int, q as int),
                page@.subrange(w as int, nl as int),
            ),
        ));
    }
    let size = match crate::size::parse_size_bytes(size_str) {
        Err(e) => {
            return Err(e);
        },
        Ok(v) => v,
    };
    let title_v = bytes_to_vec(title);
    let url_v = bytes_to_vec(url);
    Ok(Document::new(title_v, url_v, size, DownloadType::Http))
}

/// Content after the "Last Updated" marker never contributes a URL: however
/// a listing page continues past its marker — even with more package-header
/// anchors — the extracted links are those of the part before it.
pub proof fn lemma_no_links_after_marker(p: Seq<u8>, extra: Seq<u8>)
    requires
        find_spec(p, marker_pat(), 0) is Some,
    ensures
        listing_result(p + extra) == listing_result(p),
{
    let m = find_spec(p, marker_pat(), 0)->Some_0;
    lemma_find_spec_props(p, marker_pat(), 0);
    let s = p + extra;
    assert(s.subrange(m, m + marker_pat().len() as int) =~= p.subrange(
        m,
        m + marker_pat().len() as int,
    ));
    assert(match_at(s, marker_pat(), m));
    assert forall|j: int| 0 <= j < m implies !match_at(s, marker_pat(), j) by {
        if match_at(s, marker_pat(), j) {
            assert(j + marker_pat().len() <= m + marker_pat().len() <= p.len());
            assert(s.subrange(j, j + marker_pat().len() as int) =~= p.subrange(
                j,
                j + marker_pat().len() as int,
            ));
            assert(match_at(p, marker_pat(), j));
        }
    }
    lemma_find_spec_first(s, marker_pat(), 0, m);
    assert(s.take(m) =~= p.take(m));
}

} // verus!
