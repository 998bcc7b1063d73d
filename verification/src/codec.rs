//! A byte codec for the crawler's output tree, with a proved round trip.
//!
//! The crawl produces a root category whose children are categories of
//! document leaves.  The codec frames that shape with tag bytes and
//! little-endian 64-bit length prefixes: decoding an encoded tree yields
//! the same tree, node for node and in order.

use vstd::bytes::{
    lemma_auto_spec_u64_to_from_le_bytes, spec_u64_from_le_bytes, spec_u64_to_le_bytes,
    u64_from_le_bytes, u64_to_le_bytes,
};
use vstd::prelude::*;

use crate::scan::bytes_to_vec;
use crate::types::{Category, Document, DownloadType, Error, LibraryItem};

verus! {

/// The mathematical shape of a document leaf.
pub struct DocModel {
    pub title: Seq<u8>,
    pub url: Seq<u8>,
    pub size: u64,
}

/// The mathematical shape of a category of document leaves.
pub struct CatModel {
    pub name: Seq<u8>,
    pub hint: bool,
    pub docs: Seq<DocModel>,
}

/// The mathematical shape of the whole output tree.
pub struct RootModel {
    pub name: Seq<u8>,
    pub hint: bool,
    pub cats: Seq<CatModel>,
}

pub open spec fn doc_model(d: Document) -> DocModel {
    DocModel { title: d.title@, url: d.url@, size: d.size }
}

/// Every child is a document leaf.
pub open spec fn docs_only(items: Seq<LibraryItem>) -> bool {
    forall|i: int| 0 <= i < items.len() ==> items[i] is Document
}

pub open spec fn item_doc(it: LibraryItem) -> Document
    recommends
        it is Document,
{
    match it {
        LibraryItem::Document(d) => d,
        LibraryItem::Category(_) => vstd::pervasive::arbitrary(),
    }
}

pub open spec fn item_cat(it: LibraryItem) -> Category
    recommends
        it is Category,
{
    match it {
        LibraryItem::Category(c) => c,
        LibraryItem::Document(_) => vstd::pervasive::arbitrary(),
    }
}

pub open spec fn doc_models(items: Seq<LibraryItem>) -> Seq<DocModel> {
    Seq::new(items.len(), |i: int| doc_model(item_doc(items[i])))
}

pub open spec fn cat_model(c: Category) -> CatModel {
    CatModel { name: c.name@, hint: c.is_leaf_hint, docs: doc_models(c.children@) }
}

pub open spec fn cat_models(items: Seq<LibraryItem>) -> Seq<CatModel> {
    Seq::new(items.len(), |i: int| cat_model(item_cat(items[i])))
}

pub open spec fn root_model(c: Category) -> RootModel {
    RootModel { name: c.name@, hint: c.is_leaf_hint, cats: cat_models(c.children@) }
}

/// The fixed shape the crawl produces: categories of document leaves.
pub open spec fn depth2_wf(c: Category) -> bool {
    forall|i: int|
        0 <= i < c.children@.len() ==> c.children@[i] is Category && docs_only(
            item_cat(#[trigger] c.children@[i]).children@,
        )
}

/// A length-prefixed byte string.
pub open spec fn enc_bytes(b: Seq<u8>) -> Seq<u8> {
    spec_u64_to_le_bytes(b.len() as u64) + b
}

pub open spec fn enc_doc_m(m: DocModel) -> Seq<u8> {
    seq![1u8] + enc_bytes(m.title) + enc_bytes(m.url) + spec_u64_to_le_bytes(m.size)
}

pub open spec fn enc_docs_m(ds: Seq<DocModel>) -> Seq<u8>
    decreases ds.len(),
{
    if ds.len() == 0 {
        Seq::empty()
    } else {
        enc_doc_m(ds[0]) + enc_docs_m(ds.drop_first())
    }
}

pub open spec fn enc_hint(h: bool) -> Seq<u8> {
    if h {
        seq![1u8]
    } else {
        seq![0u8]
    }
}

pub open spec fn enc_cat_m(c: CatModel) -> Seq<u8> {
    seq![0u8] + enc_bytes(c.name) + enc_hint(c.hint) + spec_u64_to_le_bytes(c.docs.len() as u64)
        + enc_docs_m(c.docs)
}

pub open spec fn enc_cats_m(cs: Seq<CatModel>) -> Seq<u8>
    decreases cs.len(),
{
    if cs.len() == 0 {
        Seq::empty()
    } else {
        enc_cat_m(cs[0]) + enc_cats_m(cs.drop_first())
    }
}

/// The encoded form of a whole tree.
pub open spec fn enc_root_m(r: RootModel) -> Seq<u8> {
    seq![0u8] + enc_bytes(r.name) + enc_hint(r.hint) + spec_u64_to_le_bytes(r.cats.len() as u64)
        + enc_cats_m(r.cats)
}

pub open spec fn dec_u64(w: Seq<u8>, i: int) -> Option<(u64, int)> {
    if 0 <= i && i + 8 <= w.len() {
        Some((spec_u64_from_le_bytes(w.subrange(i, i + 8)), i + 8))
    } else {
        None
    }
}

pub open spec fn dec_bytes(w: Seq<u8>, i: int) -> Option<(Seq<u8>, int)> {
    match dec_u64(w, i) {
        None => None,
        Some((n, j)) => if j + n <= w.len() {
            Some((w.subrange(j, j + n), j + n))
        } else {
            None
        },
    }
}

pub open spec fn dec_hint(w: Seq<u8>, i: int) -> Option<(bool, int)> {
    if 0 <= i < w.len() && (w[i] == 0 || w[i] == 1) {
        Some((w[i] == 1, i + 1))
    } else {
        None
    }
}

pub open spec fn dec_doc(w: Seq<u8>, i: int) -> Option<(DocModel, int)> {
    if 0 <= i < w.len() && w[i] == 1 {
        match dec_bytes(w, i + 1) {
            None => None,
            Some((title, j)) => match dec_bytes(w, j) {
                None => None,
                Some((url, k)) => match dec_u64(w, k) {
                    None => None,
                    Some((size, l)) => Some((DocModel { title, url, size }, l)),
                },
            },
        }
    } else {
        None
    }
}

pub open spec fn dec_docs(w: Seq<u8>, i: int, n: nat) -> Option<(Seq<DocModel>, int)>
    decreases n,
{
    if n == 0 {
        Some((Seq::empty(), i))
    } else {
        match dec_doc(w, i) {
            None => None,
            Some((d, j)) => match dec_docs(w, j, (n - 1) as nat) {
                None => None,
                Some((ds, k)) => Some((seq![d] + ds, k)),
            },
        }
    }
}

pub open spec fn dec_cat(w: Seq<u8>, i: int) -> Option<(CatModel, int)> {
    if 0 <= i < w.len() && w[i] == 0 {
        match dec_bytes(w, i + 1) {
            None => None,
            Some((name, j)) => match dec_hint(w, j) {
                None => None,
                Some((hint, k)) => match dec_u64(w, k) {
                    None => None,
                    Some((n, l)) => match dec_docs(w, l, n as nat) {
                        None => None,
                        Some((docs, m)) => Some((CatModel { name, hint, docs }, m)),
                    },
                },
            },
        }
    } else {
        None
    }
}

pub open spec fn dec_cats(w: Seq<u8>, i: int, n: nat) -> Option<(Seq<CatModel>, int)>
    decreases n,
{
    if n == 0 {
        Some((Seq::empty(), i))
    } else {
        match dec_cat(w, i) {
            None => None,
            Some((c, j)) => match dec_cats(w, j, (n - 1) as nat) {
                None => None,
                Some((cs, k)) => Some((seq![c] + cs, k)),
            },
        }
    }
}

/// What decoding reads at the front of a buffer.
pub open spec fn dec_root(w: Seq<u8>, i: int) -> Option<(RootModel, int)> {
    if 0 <= i < w.len() && w[i] == 0 {
        match dec_bytes(w, i + 1) {
            None => None,
            Some((name, j)) => match dec_hint(w, j) {
                None => None,
                Some((hint, k)) => match dec_u64(w, k) {
                    None => None,
                    Some((n, l)) => match dec_cats(w, l, n as nat) {
                        None => None,
                        Some((cats, m)) => Some((RootModel { name, hint, cats }, m)),
                    },
                },
            },
        }
    } else {
        None
    }
}

/// Length bounds under which the 64-bit length prefixes are lossless.
pub open spec fn doc_fits(m: DocModel) -> bool {
    m.title.len() <= u64::MAX && m.url.len() <= u64::MAX
}

pub open spec fn cat_fits(c: CatModel) -> bool {
    &&& c.name.len() <= u64::MAX
    &&& c.docs.len() <= u64::MAX
    &&& forall|i: int| 0 <= i < c.docs.len() ==> doc_fits(#[trigger] c.docs[i])
}

pub open spec fn root_fits(r: RootModel) -> bool {
    &&& r.name.len() <= u64::MAX
    &&& r.cats.len() <= u64::MAX
    &&& forall|i: int| 0 <= i < r.cats.len() ==> cat_fits(#[trigger] r.cats[i])
}

/// A window of a known region equals the same window of its contents.
proof fn lemma_chunk(w: Seq<u8>, i: int, e: Seq<u8>, off: int, len: int)
    requires
        0 <= i,
        0 <= off,
        0 <= len,
        off + len <= e.len(),
        i + e.len() <= w.len(),
        w.subrange(i, i + e.len() as int) == e,
    ensures
        w.subrange(i + off, i + off + len) == e.subrange(off, off + len),
{
    assert forall|k: int| 0 <= k < len implies #[trigger] w.subrange(i + off, i + off + len)[k]
        == e.subrange(off, off + len)[k] by {
        assert(w.subrange(i + off, i + off + len)[k] == w[i + off + k]);
        assert(w.subrange(i, i + e.len() as int)[off + k] == w[i + off + k]);
    }
    assert(w.subrange(i + off, i + off + len) =~= e.subrange(off, off + len));
}

proof fn lemma_dec_u64_at(w: Seq<u8>, i: int, x: u64)
    requires
        0 <= i,
        i + 8 <= w.len(),
        w.subrange(i, i + 8) == spec_u64_to_le_bytes(x),
    ensures
        dec_u64(w, i) == Some((x, i + 8)),
{
    lemma_auto_spec_u64_to_from_le_bytes();
}

proof fn lemma_dec_bytes_at(w: Seq<u8>, i: int, b: Seq<u8>)
    requires
        0 <= i,
        b.len() <= u64::MAX,
        i + 8 + b.len() <= w.len(),
        w.subrange(i, i + 8 + b.len()) == enc_bytes(b),
    ensures
        dec_bytes(w, i) == Some((b, i + 8 + b.len())),
{
    lemma_auto_spec_u64_to_from_le_bytes();
    let e = enc_bytes(b);
    lemma_chunk(w, i, e, 0, 8);
    assert(e.subrange(0, 8) =~= spec_u64_to_le_bytes(b.len() as u64));
    lemma_dec_u64_at(w, i, b.len() as u64);
    lemma_chunk(w, i, e, 8, b.len() as int);
    assert(e.subrange(8, 8 + b.len() as int) =~= b);
}

proof fn lemma_dec_hint_at(w: Seq<u8>, i: int, h: bool)
    requires
        0 <= i,
        i + 1 <= w.len(),
        w.subrange(i, i + 1) == enc_hint(h),
    ensures
        dec_hint(w, i) == Some((h, i + 1)),
{
    assert(w[i] == enc_hint(h)[0]);
}

proof fn lemma_dec_doc_at(w: Seq<u8>, i: int, m: DocModel)
    requires
        0 <= i,
        doc_fits(m),
        i + enc_doc_m(m).len() <= w.len(),
        w.subrange(i, i + enc_doc_m(m).len()) == enc_doc_m(m),
    ensures
        dec_doc(w, i) == Some((m, i + enc_doc_m(m).len())),
{
    lemma_auto_spec_u64_to_from_le_bytes();
    let e = enc_doc_m(m);
    let a0 = i + 1;
    let a1 = a0 + 8 + m.title.len();
    let a2 = a1 + 8 + m.url.len();
    let a3 = a2 + 8;
    assert(w.subrange(i, i + e.len() as int)[0] == w[i]);
    assert(e[0] == 1u8);
    lemma_chunk(w, i, e, 1, 8 + m.title.len() as int);
    assert(e.subrange(1, 9 + m.title.len() as int) =~= enc_bytes(m.title));
    lemma_dec_bytes_at(w, a0, m.title);
    lemma_chunk(w, i, e, a1 - i, 8 + m.url.len() as int);
    assert(e.subrange(a1 - i, a2 - i) =~= enc_bytes(m.url));
    lemma_dec_bytes_at(w, a1, m.url);
    lemma_chunk(w, i, e, a2 - i, 8);
    assert(e.subrange(a2 - i, a3 - i) =~= spec_u64_to_le_bytes(m.size));
    lemma_dec_u64_at(w, a2, m.size);
    assert(m == DocModel { title: m.title, url: m.url, size: m.size });
}

proof fn lemma_dec_docs_at(w: Seq<u8>, i: int, ds: Seq<DocModel>)
    requires
        0 <= i,
        forall|k: int| 0 <= k < ds.len() ==> doc_fits(#[trigger] ds[k]),
        i + enc_docs_m(ds).len() <= w.len(),
        w.subrange(i, i + enc_docs_m(ds).len()) == enc_docs_m(ds),
    ensures
        dec_docs(w, i, ds.len()) == Some((ds, i + enc_docs_m(ds).len())),
    decreases ds.len(),
{
    if ds.len() == 0 {
        assert(dec_docs(w, i, 0) == Some((Seq::<DocModel>::empty(), i)));
        assert(ds =~= Seq::<DocModel>::empty());
    } else {
        let e = enc_docs_m(ds);
        let e0 = enc_doc_m(ds[0]);
        let rest = ds.drop_first();
        let re = enc_docs_m(rest);
        let j = i + e0.len();
        assert(e == e0 + re);
        lemma_chunk(w, i, e, 0, e0.len() as int);
        assert(e.subrange(0, e0.len() as int) =~= e0);
        lemma_dec_doc_at(w, i, ds[0]);
        lemma_chunk(w, i, e, e0.len() as int, re.len() as int);
        assert(e.subrange(e0.len() as int, e.len() as int) =~= re);
        assert forall|k: int| 0 <= k < rest.len() implies doc_fits(#[trigger] rest[k]) by {
            assert(rest[k] == ds[k + 1]);
        }
        lemma_dec_docs_at(w, j, rest);
        assert(seq![ds[0]] + rest =~= ds);
    }
}

proof fn lemma_dec_cat_at(w: Seq<u8>, i: int, c: CatModel)
    requires
        0 <= i,
        cat_fits(c),
        i + enc_cat_m(c).len() <= w.len(),
        w.subrange(i, i + enc_cat_m(c).len()) == enc_cat_m(c),
    ensures
        dec_cat(w, i) == Some((c, i + enc_cat_m(c).len())),
{
    lemma_auto_spec_u64_to_from_le_bytes();
    let e = enc_cat_m(c);
    let a0 = i + 1;
    let a1 = a0 + 8 + c.name.len();
    let a2 = a1 + 1;
    let a3 = a2 + 8;
    let a4 = a3 + enc_docs_m(c.docs).len();
    assert(w.subrange(i, i + e.len() as int)[0] == w[i]);
    assert(e[0] == 0u8);
    lemma_chunk(w, i, e, 1, 8 + c.name.len() as int);
    assert(e.subrange(1, 9 + c.name.len() as int) =~= enc_bytes(c.name));
    lemma_dec_bytes_at(w, a0, c.name);
    lemma_chunk(w, i, e, a1 - i, 1);
    assert(e.subrange(a1 - i, a2 - i) =~= enc_hint(c.hint));
    lemma_dec_hint_at(w, a1, c.hint);
    lemma_chunk(w, i, e, a2 - i, 8);
    assert(e.subrange(a2 - i, a3 - i) =~= spec_u64_to_le_bytes(c.docs.len() as u64));
    lemma_dec_u64_at(w, a2, c.docs.len() as u64);
    lemma_chunk(w, i, e, a3 - i, enc_docs_m(c.docs).len() as int);
    assert(e.subrange(a3 - i, a4 - i) =~= enc_docs_m(c.docs));
    lemma_dec_docs_at(w, a3, c.docs);
    assert(c == CatModel { name: c.name, hint: c.hint, docs: c.docs });
}

proof fn lemma_dec_cats_at(w: Seq<u8>, i: int, cs: Seq<CatModel>)
    requires
        0 <= i,
        forall|k: int| 0 <= k < cs.len() ==> cat_fits(#[trigger] cs[k]),
        i + enc_cats_m(cs).len() <= w.len(),
        w.subrange(i, i + enc_cats_m(cs).len()) == enc_cats_m(cs),
    ensures
        dec_cats(w, i, cs.len()) == Some((cs, i + enc_cats_m(cs).len())),
    decreases cs.len(),
{
    if cs.len() == 0 {
        assert(cs =~= Seq::<CatModel>::empty());
    } else {
        let e = enc_cats_m(cs);
        let e0 = enc_cat_m(cs[0]);
        let rest = cs.drop_first();
        let re = enc_cats_m(rest);
        let j = i + e0.len();
        assert(e == e0 + re);
        lemma_chunk(w, i, e, 0, e0.len() as int);
        assert(e.subrange(0, e0.len() as int) =~= e0);
        lemma_dec_cat_at(w, i, cs[0]);
        lemma_chunk(w, i, e, e0.len() as int, re.len() as int);
        assert(e.subrange(e0.len() as int, e.len() as int) =~= re);
        assert forall|k: int| 0 <= k < rest.len() implies cat_fits(#[trigger] rest[k]) by {
            assert(rest[k] == cs[k + 1]);
        }
        lemma_dec_cats_at(w, j, rest);
        assert(seq![cs[0]] + rest =~= cs);
    }
}

/// The round trip: decoding an encoded tree reconstructs it identically,
/// node for node, order preserved, consuming exactly the encoded bytes.
pub proof fn lemma_tree_round_trip(r: RootModel)
    requires
        root_fits(r),
    ensures
        dec_root(enc_root_m(r), 0) == Some((r, enc_root_m(r).len() as int)),
{
    lemma_auto_spec_u64_to_from_le_bytes();
    let w = enc_root_m(r);
    let a0 = 1int;
    let a1 = a0 + 8 + r.name.len();
    let a2 = a1 + 1;
    let a3 = a2 + 8;
    let a4 = a3 + enc_cats_m(r.cats).len();
    assert(w.subrange(0, w.len() as int) =~= w);
    assert(w[0] == 0u8);
    lemma_chunk(w, 0, w, 1, 8 + r.name.len() as int);
    assert(w.subrange(1, 9 + r.name.len() as int) =~= enc_bytes(r.name));
    lemma_dec_bytes_at(w, a0, r.name);
    lemma_chunk(w, 0, w, a1, 1);
    assert(w.subrange(a1, a2) =~= enc_hint(r.hint));
    lemma_dec_hint_at(w, a1, r.hint);
    lemma_chunk(w, 0, w, a2, 8);
    assert(w.subrange(a2, a3) =~= spec_u64_to_le_bytes(r.cats.len() as u64));
    lemma_dec_u64_at(w, a2, r.cats.len() as u64);
    lemma_chunk(w, 0, w, a3, enc_cats_m(r.cats).len() as int);
    assert(w.subrange(a3, a4) =~= enc_cats_m(r.cats));
    lemma_dec_cats_at(w, a3, r.cats);
    assert(r == RootModel { name: r.name, hint: r.hint, cats: r.cats });
}

fn extend_bytes(out: &mut Vec<u8>, b: &[u8])
    ensures
        final(out)@ == old(out)@ + b@,
{
    let b_len = b.len();
    let mut i: usize = 0;
    while i < b_len
        invariant
            i <= b@.len(),
            b_len == b@.len(),
            out@ =~= old(out)@ + b@.take(i as int),
        decreases b@.len() - i,
    {
        out.push(b[i]);
        i += 1;
    }
    proof {
        assert(out@ =~= old(out)@ + b@);
    }
}

fn push_len_bytes(out: &mut Vec<u8>, b: &[u8])
    ensures
        final(out)@ == old(out)@ + enc_bytes(b@),
{
    let lenv = u64_to_le_bytes(b.len() as u64);
    extend_bytes(out, lenv.as_slice());
    extend_bytes(out, b);
    proof {
        assert(out@ =~= old(out)@ + enc_bytes(b@));
    }
}

/// Snoc form of the document-list encoding.
proof fn lemma_enc_docs_snoc(ds: Seq<DocModel>, d: DocModel)
    ensures
        enc_docs_m(ds.push(d)) == enc_docs_m(ds) + enc_doc_m(d),
    decreases ds.len(),
{
    if ds.len() == 0 {
        assert(ds.push(d)[0] == d);
        assert(ds.push(d).drop_first() =~= Seq::<DocModel>::empty());
        assert(enc_docs_m(ds.push(d)) == enc_doc_m(d) + enc_docs_m(Seq::<DocModel>::empty()));
        assert(enc_doc_m(d) + Seq::<u8>::empty() =~= enc_doc_m(d));
        assert(enc_docs_m(ds) + enc_doc_m(d) =~= enc_doc_m(d));
    } else {
        assert(ds.push(d)[0] == ds[0]);
        assert(ds.push(d).drop_first() =~= ds.drop_first().push(d));
        lemma_enc_docs_snoc(ds.drop_first(), d);
        assert(enc_docs_m(ds.push(d)) == enc_doc_m(ds[0]) + (enc_docs_m(ds.drop_first())
            + enc_doc_m(d)));
        assert(enc_doc_m(ds[0]) + (enc_docs_m(ds.drop_first()) + enc_doc_m(d)) =~= (enc_doc_m(
            ds[0],
        ) + enc_docs_m(ds.drop_first())) + enc_doc_m(d));
        assert(enc_docs_m(ds) == enc_doc_m(ds[0]) + enc_docs_m(ds.drop_first()));
    }
}

/// Snoc form of the category-list encoding.
proof fn lemma_enc_cats_snoc(cs: Seq<CatModel>, c: CatModel)
    ensures
        enc_cats_m(cs.push(c)) == enc_cats_m(cs) + enc_cat_m(c),
    decreases cs.len(),
{
    if cs.len() == 0 {
        assert(cs.push(c)[0] == c);
        assert(cs.push(c).drop_first() =~= Seq::<CatModel>::empty());
        assert(enc_cats_m(cs.push(c)) == enc_cat_m(c) + enc_cats_m(Seq::<CatModel>::empty()));
        assert(enc_cat_m(c) + Seq::<u8>::empty() =~= enc_cat_m(c));
        assert(enc_cats_m(cs) + enc_cat_m(c) =~= enc_cat_m(c));
    } else {
        assert(cs.push(c)[0] == cs[0]);
        assert(cs.push(c).drop_first() =~= cs.drop_first().push(c));
        lemma_enc_cats_snoc(cs.drop_first(), c);
        assert(enc_cats_m(cs.push(c)) == enc_cat_m(cs[0]) + (enc_cats_m(cs.drop_first())
            + enc_cat_m(c)));
        assert(enc_cat_m(cs[0]) + (enc_cats_m(cs.drop_first()) + enc_cat_m(c)) =~= (enc_cat_m(
            cs[0],
        ) + enc_cats_m(cs.drop_first())) + enc_cat_m(c));
        assert(enc_cats_m(cs) == enc_cat_m(cs[0]) + enc_cats_m(cs.drop_first()));
    }
}

fn encode_doc(out: &mut Vec<u8>, d: &Document)
    ensures
        final(out)@ == old(out)@ + enc_doc_m(doc_model(*d)),
{
    out.push(1u8);
    push_len_bytes(out, d.title.as_slice());
    push_len_bytes(out, d.url.as_slice());
    let sz = u64_to_le_bytes(d.size);
    extend_bytes(out, sz.as_slice());
    proof {
        assert(out@ =~= old(out)@ + enc_doc_m(doc_model(*d)));
    }
}

fn encode_cat(out: &mut Vec<u8>, c: &Category)
    requires
        docs_only(c.children@),
    ensures
        final(out)@ == old(out)@ + enc_cat_m(cat_model(*c)),
{
    out.push(0u8);
    push_len_bytes(out, c.name.as_slice());
    out.push(if c.is_leaf_hint { 1u8 } else { 0u8 });
    let n = c.children.len();
    let cnt = u64_to_le_bytes(n as u64);
    extend_bytes(out, cnt.as_slice());
    let ghost header = out@;
    let ghost docs = doc_models(c.children@);
    let mut i: usize = 0;
    while i < n
        invariant
            i <= c.children@.len(),
            n == c.children@.len(),
            docs_only(c.children@),
            docs == doc_models(c.children@),
            out@ == header + enc_docs_m(docs.take(i as int)),
        decreases n - i,
    {
        let child = &c.children[i];
        match child {
            LibraryItem::Document(d) => {
                encode_doc(out, d);
                proof {
                    lemma_enc_docs_snoc(docs.take(i as int), docs[i as int]);
                    assert(docs.take(i as int).push(docs[i as int]) =~= docs.take(i as int + 1));
                }
            },
            LibraryItem::Category(_) => {
                proof {
                    assert(false);
                }
            },
        }
        i += 1;
    }
    proof {
        assert(docs.take(n as int) =~= docs);
        assert(out@ =~= old(out)@ + enc_cat_m(cat_model(*c)));
    }
}

/// Encode the output tree as bytes.
pub fn encode_tree(root: &Category) -> (out: Vec<u8>)
    requires
        depth2_wf(*root),
    ensures
        out@ == enc_root_m(root_model(*root)),
{
    let mut out: Vec<u8> = Vec::new();
    out.push(0u8);
    push_len_bytes(&mut out, root.name.as_slice());
    out.push(if root.is_leaf_hint { 1u8 } else { 0u8 });
    let n = root.children.len();
    let cnt = u64_to_le_bytes(n as u64);
    extend_bytes(&mut out, cnt.as_slice());
    let ghost header = out@;
    let ghost cats = cat_models(root.children@);
    let mut i: usize = 0;
    while i < n
        invariant
            i <= root.children@.len(),
            n == root.children@.len(),
            depth2_wf(*root),
            cats == cat_models(root.children@),
            out@ == header + enc_cats_m(cats.take(i as int)),
        decreases n - i,
    {
        let child = &root.children[i];
        match child {
            LibraryItem::Category(c) => {
                encode_cat(&mut out, c);
                proof {
                    lemma_enc_cats_snoc(cats.take(i as int), cats[i as int]);
                    assert(cats.take(i as int).push(cats[i as int]) =~= cats.take(i as int + 1));
                }
            },
            LibraryItem::Document(_) => {
                proof {
                    assert(false);
                }
            },
        }
        i += 1;
    }
    proof {
        assert(cats.take(n as int) =~= cats);
        assert(out@ =~= enc_root_m(root_model(*root)));
    }
    out
}

fn read_u64(w: &[u8], i: usize) -> (r: Option<(u64, usize)>)
    requires
        i <= w@.len(),
    ensures
        match r {
            Some((x, j)) => dec_u64(w@, i as int) == Some((x, j as int)) && j <= w@.len(),
            None => dec_u64(w@, i as int) is None,
        },
{
    let w_len = w.len();
    if w_len - i < 8 {
        return None;
    }
    let part: &[u8] = &w[i..i + 8];
    proof {
        assert(part@ =~= w@.subrange(i as int, i as int + 8));
    }
    let x = u64_from_le_bytes(part);
    Some((x, i + 8))
}

fn read_bytes(w: &[u8], i: usize) -> (r: Option<(Vec<u8>, usize)>)
    requires
        i <= w@.len(),
    ensures
        match r {
            Some((b, j)) => dec_bytes(w@, i as int) == Some((b@, j as int)) && j <= w@.len(),
            None => dec_bytes(w@, i as int) is None,
        },
{
    let w_len = w.len();
    let (n, j) = match read_u64(w, i) {
        None => {
            return None;
        },
        Some(p) => p,
    };
    if n > (w_len - j) as u64 {
        return None;
    }
    let n_us = n as usize;
    let part: &[u8] = &w[j..j + n_us];
    proof {
        assert(part@ =~= w@.subrange(j as int, j as int + n as int));
    }
    Some((bytes_to_vec(part), j + n_us))
}

fn read_hint(w: &[u8], i: usize) -> (r: Option<(bool, usize)>)
    requires
        i <= w@.len(),
    ensures
        match r {
            Some((h, j)) => dec_hint(w@, i as int) == Some((h, j as int)) && j <= w@.len(),
            None => dec_hint(w@, i as int) is None,
        },
{
    if i < w.len() && (w[i] == 0 || w[i] == 1) {
        Some((w[i] == 1, i + 1))
    } else {
        None
    }
}

fn read_doc(w: &[u8], i: usize) -> (r: Option<(Document, usize)>)
    requires
        i <= w@.len(),
    ensures
        match r {
            Some((d, j)) => dec_doc(w@, i as int) == Some((doc_model(d), j as int)) && j
                <= w@.len() && d.download_type == DownloadType::Http,
            None => dec_doc(w@, i as int) is None,
        },
{
    if !(i < w.len() && w[i] == 1) {
        return None;
    }
    let (title, j) = match read_bytes(w, i + 1) {
        None => {
            return None;
        },
        Some(p) => p,
    };
    let (url, k) = match read_bytes(w, j) {
        None => {
            return None;
        },
        Some(p) => p,
    };
    let (size, l) = match read_u64(w, k) {
        None => {
            return None;
        },
        Some(p) => p,
    };
    Some((Document::new(title, url, size, DownloadType::Http), l))
}

#[verifier::loop_isolation(false)]
fn read_cat(w: &[u8], i: usize) -> (r: Option<(Category, usize)>)
    requires
        i <= w@.len(),
    ensures
        match r {
            Some((c, j)) => dec_cat(w@, i as int) == Some((cat_model(c), j as int)) && j
                <= w@.len() && docs_only(c.children@),
            None => dec_cat(w@, i as int) is None,
        },
{
    if !(i < w.len() && w[i] == 0) {
        return None;
    }
    let (name, j) = match read_bytes(w, i + 1) {
        None => {
            return None;
        },
        Some(p) => p,
    };
    let (hint, k) = match read_hint(w, j) {
        None => {
            return None;
        },
        Some(p) => p,
    };
    let (n, l) = match read_u64(w, k) {
        None => {
            return None;
        },
        Some(p) => p,
    };
    let mut children: Vec<LibraryItem> = Vec::new();
    let mut cur = l;
    let mut left = n;
    while left > 0
        invariant
            cur <= w@.len(),
            left <= n,
            docs_only(children@),
            children@.len() + left == n,
            doc_models(children@).len() == children@.len(),
            ({
                let full = dec_docs(w@, l as int, n as nat);
                let rest = dec_docs(w@, cur as int, left as nat);
                match rest {
                    None => full is None,
                    Some((ds, e)) => full == Some((doc_models(children@) + ds, e)),
                }
            }),
        decreases left,
    {
        let (d, j2) = match read_doc(w, cur) {
            None => {
                proof {
                    assert(dec_docs(w@, cur as int, left as nat) is None);
                    assert(dec_docs(w@, l as int, n as nat) is None);
                    assert(dec_bytes(w@, i as int + 1) == Some((name@, j as int)));
                    assert(dec_hint(w@, j as int) == Some((hint, k as int)));
                    assert(dec_u64(w@, k as int) == Some((n, l as int)));
                    assert(dec_cat(w@, i as int) is None);
                }
                return None;
            },
            Some(p) => p,
        };
        let ghost prev = children@;
        children.push(LibraryItem::Document(d));
        proof {
            assert(doc_models(children@) =~= doc_models(prev).push(doc_model(d)));
            assert forall|ds: Seq<DocModel>|
                doc_models(prev).push(doc_model(d)) + ds =~= doc_models(prev) + (seq![
                    doc_model(d),
                ] + ds) by {}
        }
        cur = j2;
        left = left - 1;
    }
    proof {
        assert(doc_models(children@) + Seq::<DocModel>::empty() =~= doc_models(children@));
    }
    let c = Category::new(name, children, hint);
    Some((c, cur))
}

/// Decode an output tree from bytes, expecting the buffer to hold exactly
/// one encoded tree.
#[verifier::loop_isolation(false)]
pub fn decode_tree(w: &[u8]) -> (r: Result<Category, Error>)
    ensures
        match r {
            Ok(c) => ({
                &&& dec_root(w@, 0) == Some((root_model(c), w@.len() as int))
                &&& depth2_wf(c)
            }),
            Err(e) => e == Error::StructuralMismatch && match dec_root(w@, 0) {
                None => true,
                Some((m, end)) => end != w@.len(),
            },
        },
{
    let w_len = w.len();
    if !(w_len > 0 && w[0] == 0) {
        return Err(Error::StructuralMismatch);
    }
    let (name, j) = match read_bytes(w, 1) {
        None => {
            return Err(Error::StructuralMismatch);
        },
        Some(p) => p,
    };
    let (hint, k) = match read_hint(w, j) {
        None => {
            return Err(Error::StructuralMismatch);
        },
        Some(p) => p,
    };
    let (n, l) = match read_u64(w, k) {
        None => {
            return Err(Error::StructuralMismatch);
        },
        Some(p) => p,
    };
    let mut children: Vec<LibraryItem> = Vec::new();
    let mut cur = l;
    let mut left = n;
    while left > 0
        invariant
            cur <= w@.len(),
            left <= n,
            cat_models(children@).len() == children@.len(),
            forall|i: int|
                0 <= i < children@.len() ==> children@[i] is Category && docs_only(
                    item_cat(#[trigger] children@[i]).children@,
                ),
            ({
                let full = dec_cats(w@, l as int, n as nat);
                let rest = dec_cats(w@, cur as int, left as nat);
                match rest {
                    None => full is None,
                    Some((cs, e)) => full == Some((cat_models(children@) + cs, e)),
                }
            }),
        decreases left,
    {
        let (c, j2) = match read_cat(w, cur) {
            None => {
                proof {
                    assert(dec_cats(w@, cur as int, left as nat) is None);
                    assert(dec_cats(w@, l as int, n as nat) is None);
                    assert(dec_bytes(w@, 1) == Some((name@, j as int)));
                    assert(dec_hint(w@, j as int) == Some((hint, k as int)));
                    assert(dec_u64(w@, k as int) == Some((n, l as int)));
                    assert(dec_root(w@, 0) is None);
                }
                return Err(Error::StructuralMismatch);
            },
            Some(p) => p,
        };
        let ghost prev = children@;
        children.push(LibraryItem::Category(c));
        proof {
            assert(cat_models(children@) =~= cat_models(prev).push(cat_model(c)));
        }
        cur = j2;
        left = left - 1;
    }
    proof {
        assert(cat_models(children@) + Seq::<CatModel>::empty() =~= cat_models(children@));
    }
    if cur != w_len {
        return Err(Error::StructuralMismatch);
    }
    let c = Category::new(name, children, hint);
    Ok(c)
}

} // verus!
