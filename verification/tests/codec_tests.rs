use fdroid_catalog::codec::{decode_tree, encode_tree};
use fdroid_catalog::types::{Category, Document, DownloadType, LibraryItem};

fn doc(title: &str, url: &str, size: u64) -> LibraryItem {
    LibraryItem::Document(Document::new(
        title.as_bytes().to_vec(),
        url.as_bytes().to_vec(),
        size,
        DownloadType::Http,
    ))
}

fn sample_tree() -> Category {
    let alpha = Category::new(
        b"alpha".to_vec(),
        vec![doc("App One", "http://x/app1.apk", 2097152)],
        false,
    );
    let beta = Category::new(
        b"beta".to_vec(),
        vec![
            doc("App Two", "http://x/app2.apk", 1024),
            doc("App Three", "http://x/app3.apk", 0),
        ],
        false,
    );
    Category::new(
        b"F-Droid".to_vec(),
        vec![LibraryItem::Category(alpha), LibraryItem::Category(beta)],
        false,
    )
}

fn assert_same_tree(a: &Category, b: &Category) {
    assert_eq!(a.name, b.name);
    assert_eq!(a.is_leaf_hint, b.is_leaf_hint);
    assert_eq!(a.children.len(), b.children.len());
    for (ca, cb) in a.children.iter().zip(b.children.iter()) {
        match (ca, cb) {
            (LibraryItem::Category(x), LibraryItem::Category(y)) => {
                assert_eq!(x.name, y.name);
                assert_eq!(x.is_leaf_hint, y.is_leaf_hint);
                assert_eq!(x.children.len(), y.children.len());
                for (da, db) in x.children.iter().zip(y.children.iter()) {
                    match (da, db) {
                        (LibraryItem::Document(p), LibraryItem::Document(q)) => {
                            assert_eq!(p.title, q.title);
                            assert_eq!(p.url, q.url);
                            assert_eq!(p.size, q.size);
                            assert_eq!(p.download_type, q.download_type);
                        }
                        _ => panic!("document leaves expected"),
                    }
                }
            }
            _ => panic!("category nodes expected"),
        }
    }
}

#[test]
fn round_trip_reconstructs_the_tree() {
    let tree = sample_tree();
    let bytes = encode_tree(&tree);
    let back = decode_tree(bytes.as_slice()).unwrap();
    assert_same_tree(&tree, &back);
}

#[test]
fn round_trip_of_an_empty_root() {
    let tree = Category::new(b"F-Droid".to_vec(), Vec::new(), false);
    let bytes = encode_tree(&tree);
    let back = decode_tree(bytes.as_slice()).unwrap();
    assert_same_tree(&tree, &back);
}

#[test]
fn truncated_bytes_do_not_decode() {
    let tree = sample_tree();
    let bytes = encode_tree(&tree);
    assert!(decode_tree(&bytes[0..bytes.len() - 1]).is_err());
    assert!(decode_tree(&[]).is_err());
}

#[test]
fn trailing_garbage_does_not_decode() {
    let tree = sample_tree();
    let mut bytes = encode_tree(&tree);
    bytes.push(7);
    assert!(decode_tree(bytes.as_slice()).is_err());
}
