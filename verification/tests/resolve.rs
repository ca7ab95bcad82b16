//! The lookup rules of `resolve` (exact, `.html`, trailing-slash
//! `index.html`, SPA fallback) and the preference for the `.gz` variant,
//! against a small bundle built here.

use sppl::compress::Algorithm;
use sppl::{Asset, Bundle, Encoding};

fn gz(text: &str) -> Vec<u8> {
    let mut out = Vec::new();
    Algorithm::Gzip.encode(text.as_bytes(), &mut out).expect("gzip");
    out
}

fn fixture() -> Bundle {
    let mut b = Bundle::new();
    b.insert("index.html".to_string(), b"INDEX\n".to_vec());
    b.insert("index.html.gz".to_string(), gz("INDEX\n"));
    b.insert("assets/main.css".to_string(), b"MAIN_CSS\n".to_vec());
    b.insert("assets/main.css.gz".to_string(), gz("MAIN_CSS\n"));
    b.insert("about.html".to_string(), b"ABOUT\n".to_vec());
    b.insert("app/index.html".to_string(), b"APP_INDEX\n".to_vec());
    b
}

fn body(asset: Asset) -> String {
    let bytes = asset.decoded().expect("decode");
    String::from_utf8(bytes).expect("utf8")
}

#[test]
fn root_serves_index_html_via_fallback() {
    let asset = sppl::resolve(&fixture(), "/").expect("root resolves");
    assert_eq!(asset.path, "index.html");
    assert!(
        asset.encoding == Encoding::Gzip,
        "index.html.gz fixture exists, should be preferred"
    );
    assert_eq!(body(asset).trim(), "INDEX");
}

#[test]
fn empty_path_serves_index_html() {
    let asset = sppl::resolve(&fixture(), "").expect("empty resolves");
    assert_eq!(asset.path, "index.html");
}

#[test]
fn exact_path_match_wins() {
    let asset = sppl::resolve(&fixture(), "/assets/main.css").expect("css");
    assert_eq!(asset.path, "assets/main.css");
    assert!(
        asset.encoding == Encoding::Gzip,
        "main.css.gz fixture exists, should be preferred"
    );
    assert_eq!(body(asset).trim(), "MAIN_CSS");
}

#[test]
fn html_extension_is_tried_for_prerendered_routes() {
    let asset = sppl::resolve(&fixture(), "/about").expect("about");
    assert_eq!(asset.path, "about.html");
    assert_eq!(asset.encoding, Encoding::Identity, "no about.html.gz fixture");
    assert_eq!(body(asset).trim(), "ABOUT");
}

#[test]
fn trailing_slash_resolves_to_index_html() {
    let asset = sppl::resolve(&fixture(), "/app/").expect("app");
    assert_eq!(asset.path, "app/index.html");
    assert_eq!(body(asset).trim(), "APP_INDEX");
}

#[test]
fn directory_without_trailing_slash_also_resolves() {
    let asset = sppl::resolve(&fixture(), "/app").expect("app");
    assert_eq!(asset.path, "app/index.html");
}

#[test]
fn unknown_path_falls_back_to_index_html() {
    let asset = sppl::resolve(&fixture(), "/no/such/route").expect("spa fallback");
    assert_eq!(asset.path, "index.html");
}

#[test]
fn leading_slash_is_normalized() {
    let with_slash = sppl::resolve(&fixture(), "/about").expect("with slash");
    let without_slash = sppl::resolve(&fixture(), "about").expect("without slash");
    assert_eq!(with_slash.path, without_slash.path);
}
