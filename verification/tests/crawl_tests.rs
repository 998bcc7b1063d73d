use fdroid_catalog::crawl::{catalog_root, root_url, CategoryCrawl};
use fdroid_catalog::extract::parse_catalog_page;
use fdroid_catalog::types::LibraryItem;

fn detail_page(title: &str, url: &str, size: &str) -> String {
    format!(
        "<title>{} | F-Droid</title>\n\
         <p class=\"package-version-download\">\n\
           <b>\n\
             <a href=\"{}\">\n\
               Download APK\n\
             </a>\n\
           </b>\n\
           {}\n\
         </p>",
        title, url, size
    )
}

fn listing_page(hrefs: &[&str], last: bool) -> String {
    let mut page = String::new();
    for h in hrefs {
        page.push_str(&format!("<a class=\"package-header\" href=\"{}\">\n", h));
    }
    page.push_str("<h3>Last Updated</h3>\n");
    if last {
        page.push_str("<li class=\"nav next disabled\">\n");
    }
    page
}

#[test]
fn root_url_is_the_package_listing() {
    assert_eq!(root_url(), b"https://f-droid.org/en/packages/".to_vec());
}

#[test]
fn listing_urls_follow_the_pagination_scheme() {
    let mut crawl = CategoryCrawl::new(b"games".to_vec());
    assert_eq!(
        crawl.listing_url(),
        b"https://f-droid.org/en/categories/games/".to_vec()
    );
    let page1 = listing_page(&[], false);
    crawl.on_listing_page(page1.as_bytes()).unwrap();
    assert_eq!(
        crawl.listing_url(),
        b"https://f-droid.org/en/categories/games/2/".to_vec()
    );
    let page2 = listing_page(&[], false);
    crawl.on_listing_page(page2.as_bytes()).unwrap();
    assert_eq!(
        crawl.listing_url(),
        b"https://f-droid.org/en/categories/games/3/".to_vec()
    );
}

#[test]
fn first_page_with_disabled_next_ends_the_crawl() {
    // Boundary: the first page already carries the end-of-pagination marker,
    // so exactly that page's items are gathered and no second page is asked
    // for.
    let mut crawl = CategoryCrawl::new(b"games".to_vec());
    let page = listing_page(&["/en/packages/org.a/", "/en/packages/org.b/"], true);
    crawl.on_listing_page(page.as_bytes()).unwrap();
    let mut fetched = Vec::new();
    while let Some(url) = crawl.next_detail_url() {
        fetched.push(url);
        let detail = detail_page("App", "http://x/a.apk", "1 KiB");
        crawl.on_detail_page(detail.as_bytes()).unwrap();
    }
    assert!(crawl.finished());
    assert_eq!(
        fetched,
        vec![
            b"https://f-droid.org/en/packages/org.a/".to_vec(),
            b"https://f-droid.org/en/packages/org.b/".to_vec(),
        ]
    );
    let cat = crawl.finish();
    assert_eq!(cat.name, b"games".to_vec());
    assert_eq!(cat.children.len(), 2);
    assert!(!cat.is_leaf_hint);
}

#[test]
fn children_count_the_links_of_every_page() {
    // Two listing pages with two and one detail links: the category ends up
    // with three children, and the crawl finishes in the iteration whose
    // page carries the marker.
    let mut crawl = CategoryCrawl::new(b"office".to_vec());
    let page1 = listing_page(&["/en/packages/org.a/", "/en/packages/org.b/"], false);
    crawl.on_listing_page(page1.as_bytes()).unwrap();
    assert!(!crawl.finished());
    while crawl.next_detail_url().is_some() {
        let detail = detail_page("App", "http://x/a.apk", "3 KiB");
        crawl.on_detail_page(detail.as_bytes()).unwrap();
    }
    assert!(!crawl.finished());
    let page2 = listing_page(&["/en/packages/org.c/"], true);
    crawl.on_listing_page(page2.as_bytes()).unwrap();
    while crawl.next_detail_url().is_some() {
        let detail = detail_page("App", "http://x/c.apk", "3 KiB");
        crawl.on_detail_page(detail.as_bytes()).unwrap();
    }
    assert!(crawl.finished());
    let cat = crawl.finish();
    assert_eq!(cat.children.len(), 3);
}

#[test]
fn two_categories_end_to_end() {
    // A root page with two category links; each category's single listing
    // page holds one detail link whose page carries "App One", the download
    // URL and "2 MiB".
    let root_page = "<p><a href=\"/en/categories/alpha/\">Show all 1 packages</a></p>\n\
                     <p><a href=\"/en/categories/beta/\">Show all 1 packages</a></p>";
    let names = parse_catalog_page(root_page.as_bytes());
    assert_eq!(names.len(), 2);
    assert_eq!(names[0], b"alpha".to_vec());
    assert_eq!(names[1], b"beta".to_vec());

    let mut categories = Vec::new();
    for name in names {
        let mut crawl = CategoryCrawl::new(name);
        let listing = listing_page(&["/en/packages/org.app1/"], true);
        crawl.on_listing_page(listing.as_bytes()).unwrap();
        while let Some(url) = crawl.next_detail_url() {
            assert_eq!(url, b"https://f-droid.org/en/packages/org.app1/".to_vec());
            let detail = detail_page("App One", "http://x/app1.apk", "2 MiB");
            crawl.on_detail_page(detail.as_bytes()).unwrap();
        }
        assert!(crawl.finished());
        categories.push(LibraryItem::Category(crawl.finish()));
    }

    let root = catalog_root(categories);
    assert_eq!(root.name, b"F-Droid".to_vec());
    assert!(!root.is_leaf_hint);
    assert_eq!(root.children.len(), 2);
    for child in &root.children {
        match child {
            LibraryItem::Category(cat) => {
                assert_eq!(cat.children.len(), 1);
                match &cat.children[0] {
                    LibraryItem::Document(d) => {
                        assert_eq!(d.title, b"App One".to_vec());
                        assert_eq!(d.url, b"http://x/app1.apk".to_vec());
                        assert_eq!(d.size, 2097152);
                    }
                    LibraryItem::Category(_) => panic!("leaf expected"),
                }
            }
            LibraryItem::Document(_) => panic!("category expected"),
        }
    }
}
