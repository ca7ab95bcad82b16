//! Replies, encodings, bundles and compression helpers on concrete values.

use sppl::codec::guess_mime;
use sppl::paths::extension_of_path;
use sppl::compress::{is_compressible, Algorithm, DEFAULT_COMPRESSIBLE_EXTENSIONS};
use sppl::{
    handler, parse_accept_encoding, pick_disposition, resolve, resolve_with, router, router_with,
    serve, AcceptedEncodings, Asset, Bundle, Disposition, Encoding, RouterConfig, DEFAULT_ENCODINGS,
};

fn compressed(alg: Algorithm, text: &str) -> Vec<u8> {
    let mut out = Vec::new();
    alg.encode(text.as_bytes(), &mut out).expect("encode");
    out
}

fn site() -> Bundle {
    let mut b = Bundle::new();
    b.insert("index.html".to_string(), b"INDEX".to_vec());
    b.insert("index.html.br".to_string(), compressed(Algorithm::Brotli, "INDEX"));
    b.insert("index.html.gz".to_string(), compressed(Algorithm::Gzip, "INDEX"));
    b.insert("app.js.gz".to_string(), compressed(Algorithm::Gzip, "let x = 1;"));
    b.insert("style.css".to_string(), b"body{}".to_vec());
    b
}

#[test]
fn encoding_tokens_and_suffixes() {
    assert_eq!(Encoding::Identity.content_encoding(), None);
    assert_eq!(Encoding::Gzip.content_encoding(), Some("gzip"));
    assert_eq!(Encoding::Brotli.content_encoding(), Some("br"));
    assert_eq!(Encoding::Identity.suffix(), None);
    assert_eq!(Encoding::Gzip.suffix(), Some("gz"));
    assert_eq!(Encoding::Brotli.suffix(), Some("br"));
    assert_eq!(
        DEFAULT_ENCODINGS,
        [Encoding::Brotli, Encoding::Gzip, Encoding::Identity]
    );
}

#[test]
fn bundle_insert_replaces_and_get_reads_back() {
    let mut b = Bundle::new();
    assert!(b.get("a.txt").is_none());
    b.insert("a.txt".to_string(), vec![1, 2, 3]);
    b.insert("b.txt".to_string(), vec![4]);
    b.insert("a.txt".to_string(), vec![9]);
    assert_eq!(b.get("a.txt"), Some(&vec![9]));
    assert_eq!(b.get("b.txt"), Some(&vec![4]));
    assert!(b.get("c.txt").is_none());
}

#[test]
fn brotli_preferred_then_gzip_then_raw() {
    let b = site();
    assert_eq!(resolve(&b, "/").expect("root").encoding, Encoding::Brotli);
    let gz_first = resolve_with(&b, "/", &[Encoding::Gzip, Encoding::Identity]).expect("root");
    assert_eq!(gz_first.encoding, Encoding::Gzip);
    let raw_only = resolve_with(&b, "/", &[Encoding::Identity]).expect("root");
    assert_eq!(raw_only.encoding, Encoding::Identity);
    assert_eq!(raw_only.data, b"INDEX".to_vec());
}

#[test]
fn many_leading_slashes_are_dropped() {
    let b = site();
    let a = resolve(&b, "///style.css").expect("css");
    assert_eq!(a.path, "style.css");
    assert_eq!(resolve(&b, "////").expect("root").path, "index.html");
}

#[test]
fn nothing_resolves_in_an_empty_bundle() {
    assert!(resolve(&Bundle::new(), "/anything").is_none());
    assert!(resolve_with(&site(), "/style.css", &[]).is_none());
}

#[test]
fn brotli_round_trip_through_decoded() {
    let data = compressed(Algorithm::Brotli, "hello brotli");
    assert_ne!(data, b"hello brotli".to_vec());
    let asset = Asset::from_embedded("x.txt".to_string(), data, Encoding::Brotli);
    assert_eq!(asset.decoded().expect("decode"), b"hello brotli".to_vec());
}

#[test]
fn gzip_round_trip_through_decoded() {
    let data = compressed(Algorithm::Gzip, "hello gzip");
    assert_ne!(data, b"hello gzip".to_vec());
    let asset = Asset::from_embedded("x.txt".to_string(), data, Encoding::Gzip);
    assert_eq!(asset.decoded().expect("decode"), b"hello gzip".to_vec());
}

#[test]
fn corrupt_gzip_does_not_decode() {
    let asset = Asset::from_embedded("x.txt".to_string(), b"not gzip".to_vec(), Encoding::Gzip);
    assert!(asset.decoded().is_err());
}

#[test]
fn identity_decodes_to_itself() {
    let asset = Asset::from_embedded("x.txt".to_string(), b"raw".to_vec(), Encoding::Identity);
    assert_eq!(asset.decoded().expect("decode"), b"raw".to_vec());
}

#[test]
fn header_with_non_visible_bytes_accepts_nothing() {
    let a = parse_accept_encoding(Some(&[b'g', b'z', b'i', b'p', 0x80][..]));
    assert!(!a.gzip && !a.brotli);
    let b = parse_accept_encoding(Some(&b"gzip\n"[..]));
    assert!(!b.gzip && !b.brotli);
    let c = parse_accept_encoding(Some(&b"\tgzip "[..]));
    assert!(c.gzip && !c.brotli);
}

#[test]
fn mixed_case_and_parameters_and_empty_pieces() {
    let a = parse_accept_encoding(Some(&b"GzIp;q=0, , Br ; q=1"[..]));
    assert!(a.gzip && a.brotli);
    let b = parse_accept_encoding(Some(&b""[..]));
    assert!(!b.gzip && !b.brotli);
    let c = parse_accept_encoding(Some(&b"deflate, identity, *"[..]));
    assert!(!c.gzip && !c.brotli);
}

#[test]
fn disposition_is_always_as_stored() {
    let none = AcceptedEncodings::default();
    assert_eq!(pick_disposition(Encoding::Brotli, none), Disposition::AsIs);
    assert_eq!(pick_disposition(Encoding::Gzip, none), Disposition::AsIs);
    assert_eq!(pick_disposition(Encoding::Identity, none), Disposition::AsIs);
}

#[test]
fn default_router_sends_stored_bytes_to_any_client() {
    let r = router(site());
    assert!(r.config.never_decompress);
    let reply = handler(&r.config, &r.bundle, "/app.js", None);
    assert_eq!(reply.status, 200);
    assert_eq!(reply.content_encoding, Some("gzip"));
    assert!(reply.vary_accept_encoding);
    assert_eq!(reply.body, compressed(Algorithm::Gzip, "let x = 1;"));
    assert!(reply.content_type.contains("javascript"));
}

#[test]
fn decompressing_router_decodes_for_clients_without_gzip() {
    let mut b = Bundle::new();
    b.insert("app.js.gz".to_string(), compressed(Algorithm::Gzip, "let x = 1;"));
    let r = router_with(b, RouterConfig { never_decompress: false });
    let reply = handler(&r.config, &r.bundle, "/app.js", None);
    assert_eq!(reply.status, 200);
    assert_eq!(reply.content_encoding, None);
    assert_eq!(reply.body, b"let x = 1;".to_vec());
    let gz = handler(&r.config, &r.bundle, "/app.js", Some(&b"gzip"[..]));
    assert_eq!(gz.content_encoding, Some("gzip"));
}

#[test]
fn decompression_beats_raw_spa_fallback_when_client_lacks_gzip() {
    // With decompression allowed, a client without gzip gets the requested
    // asset decompressed, not the raw `index.html` fallback.
    let r = router_with(site(), RouterConfig { never_decompress: false });
    let reply = handler(&r.config, &r.bundle, "/app.js", None);
    assert_eq!(reply.status, 200);
    assert_eq!(reply.content_encoding, None);
    assert_eq!(reply.body, b"let x = 1;".to_vec());
}

#[test]
fn raw_variant_is_sent_as_stored_to_plain_clients() {
    let r = router_with(site(), RouterConfig { never_decompress: false });
    let reply = handler(&r.config, &r.bundle, "/index.html", None);
    assert_eq!(reply.content_encoding, None);
    assert_eq!(reply.body, b"INDEX".to_vec());
}

#[test]
fn brotli_only_for_clients_that_ask_when_decompressing() {
    let r = router_with(site(), RouterConfig { never_decompress: false });
    let plain = handler(&r.config, &r.bundle, "/", None);
    assert_eq!(plain.content_encoding, None);
    assert_eq!(plain.body, b"INDEX".to_vec());
    assert_eq!(plain.content_type, "text/html");
    let br = handler(&r.config, &r.bundle, "/", Some(&b"br"[..]));
    assert_eq!(br.content_encoding, Some("br"));
}

#[test]
fn spa_fallback_means_no_not_found() {
    let r = router(site());
    let reply = handler(&r.config, &r.bundle, "/deep/client/route", Some(&b"gzip"[..]));
    assert_eq!(reply.status, 200);
    assert_eq!(reply.content_type, "text/html");
}

#[test]
fn missing_asset_is_not_found() {
    let r = router(Bundle::new());
    let reply = handler(&r.config, &r.bundle, "/x", None);
    assert_eq!(reply.status, 404);
    assert_eq!(reply.body, b"Not Found".to_vec());
    assert_eq!(reply.content_type, "text/plain; charset=utf-8");
    assert!(!reply.vary_accept_encoding);
}

#[test]
fn undecodable_asset_is_a_server_error() {
    let mut b = Bundle::new();
    b.insert("data.json.gz".to_string(), b"garbage".to_vec());
    let r = router_with(b, RouterConfig { never_decompress: false });
    let reply = handler(&r.config, &r.bundle, "/data.json", None);
    assert_eq!(reply.status, 500);
    assert_eq!(reply.body, b"decompression failed".to_vec());
}

#[test]
fn serve_as_is_keeps_bytes_and_encoding_header() {
    let asset = Asset::from_embedded("a.css".to_string(), vec![1, 2, 3], Encoding::Brotli);
    let reply = serve(asset, Disposition::AsIs);
    assert_eq!(reply.status, 200);
    assert_eq!(reply.body, vec![1, 2, 3]);
    assert_eq!(reply.content_encoding, Some("br"));
    assert_eq!(reply.content_type, "text/css");
}

#[test]
fn unknown_extension_is_octet_stream() {
    let asset = Asset::from_embedded("blob".to_string(), vec![0], Encoding::Identity);
    let reply = serve(asset, Disposition::AsIs);
    assert_eq!(reply.content_type, "application/octet-stream");
}

#[test]
fn compressible_extensions() {
    let exts = &DEFAULT_COMPRESSIBLE_EXTENSIONS;
    assert!(is_compressible("html", exts));
    assert!(is_compressible("HTML", exts));
    assert!(is_compressible("webmanifest", exts));
    assert!(!is_compressible("png", exts));
    assert!(!is_compressible("gz", &["gz", "html"]));
    assert!(!is_compressible("br", &["br"]));
    assert!(is_compressible("GZ", &["gz"]));
    assert_eq!(Algorithm::Gzip.suffix(), "gz");
    assert_eq!(Algorithm::Brotli.suffix(), "br");
}

#[test]
fn gzip_only_clients_get_gzip_before_brotli() {
    let prefs = sppl::encoding_prefs(
        AcceptedEncodings { gzip: true, brotli: false },
        &RouterConfig::default(),
    );
    assert_eq!(prefs, vec![Encoding::Gzip, Encoding::Brotli, Encoding::Identity]);
    let r = router(site());
    let reply = handler(&r.config, &r.bundle, "/", Some(&b"gzip"[..]));
    assert_eq!(reply.content_encoding, Some("gzip"));
    let br = handler(&r.config, &r.bundle, "/", Some(&b"gzip, br"[..]));
    assert_eq!(br.content_encoding, Some("br"));
}

#[test]
fn brotli_only_clients_get_brotli_then_gzip() {
    let prefs = sppl::encoding_prefs(
        AcceptedEncodings { gzip: false, brotli: true },
        &RouterConfig::default(),
    );
    assert_eq!(prefs, vec![Encoding::Brotli, Encoding::Gzip, Encoding::Identity]);
    let only = sppl::encoding_prefs(
        AcceptedEncodings { gzip: false, brotli: true },
        &RouterConfig { never_decompress: false },
    );
    assert_eq!(only, vec![Encoding::Brotli, Encoding::Identity]);
}

#[test]
fn comma_separated_parts_accept_their_union() {
    let a = parse_accept_encoding(Some(&b"gzip"[..]));
    let b = parse_accept_encoding(Some(&b"br"[..]));
    let ab = parse_accept_encoding(Some(&b"gzip,br"[..]));
    assert_eq!(ab.gzip, a.gzip || b.gzip);
    assert_eq!(ab.brotli, a.brotli || b.brotli);
}

#[test]
fn stored_name_adds_the_encoding_suffix() {
    let gz = Asset::from_embedded("index.html".to_string(), vec![], Encoding::Gzip);
    assert_eq!(gz.stored_name(), "index.html.gz");
    let br = Asset::from_embedded("a/b.js".to_string(), vec![], Encoding::Brotli);
    assert_eq!(br.stored_name(), "a/b.js.br");
    let raw = Asset::from_embedded("about.html".to_string(), vec![], Encoding::Identity);
    assert_eq!(raw.stored_name(), "about.html");
}

#[test]
fn extensions_follow_unix_path_rules() {
    assert_eq!(extension_of_path("a/b.css"), Some("css"));
    assert_eq!(extension_of_path("archive.tar.gz"), Some("gz"));
    assert_eq!(extension_of_path(".bashrc"), None);
    assert_eq!(extension_of_path("a/.hidden"), None);
    assert_eq!(extension_of_path("dir/"), None);
    assert_eq!(extension_of_path("a/b.c/"), Some("c"));
    assert_eq!(extension_of_path("a/b.c/."), Some("c"));
    assert_eq!(extension_of_path("foo."), Some(""));
    assert_eq!(extension_of_path("..."), Some(""));
    assert_eq!(extension_of_path("a/.."), None);
    assert_eq!(extension_of_path("/"), None);
    assert_eq!(extension_of_path(""), None);
    assert_eq!(extension_of_path("a\\.css"), Some("css"));
}

#[test]
fn media_type_comes_from_the_extension() {
    assert_eq!(guess_mime("app/index.html"), "text/html");
    assert_eq!(guess_mime("STYLE.CSS"), "text/css");
    assert_eq!(guess_mime("a\\.css"), "text/css");
    assert_eq!(guess_mime("noext"), "application/octet-stream");
    assert_eq!(guess_mime(".css"), "application/octet-stream");
    assert_eq!(guess_mime("file."), "application/octet-stream");
}

#[test]
fn backslashes_read_as_slashes_in_lookups() {
    let mut b = Bundle::new();
    b.insert("assets/main.css".to_string(), b"MAIN_CSS".to_vec());
    assert_eq!(b.get("assets\\main.css"), Some(&b"MAIN_CSS".to_vec()));
    assert_eq!(b.get("assets/main.css"), Some(&b"MAIN_CSS".to_vec()));
    assert!(b.get("assets\\other.css").is_none());
    let a = resolve(&b, "/assets\\main.css").expect("css");
    assert_eq!(a.path, "assets\\main.css");
    assert_eq!(a.data, b"MAIN_CSS".to_vec());
    assert_eq!(a.encoding, Encoding::Identity);
}

#[test]
fn extensions_agree_with_std_path_on_unix_style_paths() {
    let cases = [
        "a/b.css", "archive.tar.gz", ".bashrc", "a/.hidden", "dir/", "a/b.c/", "a/b.c/.",
        "foo.", "...", "..", ".", "a/..", "/", "", "./x.js", "a//b.txt", "a/./b.md", "x/y/z",
        "index.html", "a.b/c", ".a.b", "a/.b.c", "//", "a/.//",
    ];
    for p in cases {
        let ours = extension_of_path(p);
        let std_ext = std::path::Path::new(p).extension().and_then(|e| e.to_str());
        assert_eq!(ours, std_ext, "path {:?}", p);
    }
}
