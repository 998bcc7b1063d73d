use fdroid_catalog::extract::{
    page_has_disabled_next, parse_category_page, parse_catalog_page, parse_item,
};
use fdroid_catalog::types::{DownloadType, Error};

fn detail_page(title: &str, url: &str, size: &str) -> String {
    format!(
        "<html><head><title>{} | F-Droid</title></head>\n\
         <body>\n\
         <p class=\"package-version-download\">\n\
           <b>\n\
             <a href=\"{}\">\n\
               Download APK\n\
             </a>\n\
           </b>\n\
           {}\n\
         </p>\n\
         </body></html>",
        title, url, size
    )
}

#[test]
fn listing_links_are_resolved_against_the_origin() {
    let page = "<a class=\"package-header\" href=\"/en/packages/org.one/\">\n\
                <a class=\"package-header\" href=\"/en/packages/org.two/\">\n\
                <h3>Last Updated</h3>";
    let urls = parse_category_page(page.as_bytes()).unwrap();
    assert_eq!(urls.len(), 2);
    assert_eq!(urls[0], b"https://f-droid.org/en/packages/org.one/".to_vec());
    assert_eq!(urls[1], b"https://f-droid.org/en/packages/org.two/".to_vec());
}

#[test]
fn links_after_the_last_updated_marker_are_discarded() {
    let page = "<a class=\"package-header\" href=\"/en/packages/org.member/\">\n\
                <h3>Last Updated</h3>\n\
                <a class=\"package-header\" href=\"/en/packages/org.recommended/\">";
    let urls = parse_category_page(page.as_bytes()).unwrap();
    assert_eq!(urls.len(), 1);
    assert_eq!(urls[0], b"https://f-droid.org/en/packages/org.member/".to_vec());
}

#[test]
fn missing_marker_is_a_structural_mismatch() {
    let page = "<a class=\"package-header\" href=\"/en/packages/org.one/\">";
    assert_eq!(
        parse_category_page(page.as_bytes()).unwrap_err(),
        Error::StructuralMismatch
    );
}

#[test]
fn catalog_page_yields_category_names_in_order() {
    let page = "<p><a href=\"/en/categories/connectivity/\">Show all 12 packages</a></p>\n\
                <p><a href=\"/en/categories/games/\">Show all 345 packages</a></p>";
    let names = parse_catalog_page(page.as_bytes());
    assert_eq!(names.len(), 2);
    assert_eq!(names[0], b"connectivity".to_vec());
    assert_eq!(names[1], b"games".to_vec());
}

#[test]
fn catalog_anchor_without_package_count_is_skipped() {
    let page = "<p><a href=\"/en/categories/not-a-count/\">Show all ? packages</a></p>\n\
                <p><a href=\"/en/categories/games/\">Show all 3 packages</a></p>";
    let names = parse_catalog_page(page.as_bytes());
    assert_eq!(names.len(), 1);
    assert_eq!(names[0], b"games".to_vec());
}

#[test]
fn disabled_next_marker_is_detected() {
    assert!(page_has_disabled_next(
        b"<ul><li class=\"nav next disabled\"></li></ul>"
    ));
    assert!(!page_has_disabled_next(b"<ul><li class=\"nav next\"></li></ul>"));
}

#[test]
fn item_page_yields_title_url_and_normalized_size() {
    let page = detail_page("App One", "http://x/app1.apk", "2 MiB");
    let d = parse_item(page.as_bytes()).unwrap();
    assert_eq!(d.title, b"App One".to_vec());
    assert_eq!(d.url, b"http://x/app1.apk".to_vec());
    assert_eq!(d.size, 2097152);
    assert_eq!(d.download_type, DownloadType::Http);
}

#[test]
fn item_page_without_download_block_is_missing_field() {
    let page = "<title>App One | F-Droid</title>\nno download block here\n";
    assert_eq!(parse_item(page.as_bytes()).unwrap_err(), Error::MissingField);
}

#[test]
fn item_page_with_bad_size_is_malformed_size() {
    let page = detail_page("App One", "http://x/app1.apk", "enormous");
    assert_eq!(parse_item(page.as_bytes()).unwrap_err(), Error::MalformedSize);
}
