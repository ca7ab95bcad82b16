use sppl::{encoding_prefs, parse_accept_encoding, AcceptedEncodings, Encoding, RouterConfig};

fn h(value: &str) -> Option<&[u8]> {
    Some(value.as_bytes())
}

#[test]
fn missing_header_accepts_nothing() {
    let a = parse_accept_encoding(None);
    assert!(!a.gzip && !a.brotli);
}

#[test]
fn plain_gzip() {
    let a = parse_accept_encoding(h("gzip"));
    assert!(a.gzip && !a.brotli);
}

#[test]
fn plain_brotli() {
    let a = parse_accept_encoding(h("br"));
    assert!(a.brotli && !a.gzip);
}

#[test]
fn br_and_gzip() {
    let a = parse_accept_encoding(h("br, gzip"));
    assert!(a.brotli && a.gzip);
}

#[test]
fn case_insensitive() {
    let a = parse_accept_encoding(h("GZIP, BR"));
    assert!(a.gzip && a.brotli);
}

#[test]
fn ignores_q_parameter() {
    let a = parse_accept_encoding(h("br;q=1.0, gzip;q=0.5"));
    assert!(a.brotli && a.gzip);
}

#[test]
fn substring_match_is_not_enough() {
    let a = parse_accept_encoding(h("x-gzip, brotli"));
    assert!(!a.gzip && !a.brotli);
}

fn default_cfg() -> RouterConfig {
    RouterConfig::default()
}

fn allow_decompress_cfg() -> RouterConfig {
    RouterConfig {
        never_decompress: false,
    }
}

#[test]
fn prefs_prefer_brotli_over_gzip() {
    let prefs = encoding_prefs(
        AcceptedEncodings { gzip: true, brotli: true },
        &default_cfg(),
    );
    assert_eq!(prefs, vec![Encoding::Brotli, Encoding::Gzip, Encoding::Identity]);
}

#[test]
fn default_cfg_offers_all_encodings_even_without_accept() {
    let prefs = encoding_prefs(AcceptedEncodings::default(), &default_cfg());
    assert_eq!(
        prefs,
        vec![Encoding::Brotli, Encoding::Gzip, Encoding::Identity]
    );
}

#[test]
fn allow_decompress_skips_compressed_when_unaccepted() {
    let prefs = encoding_prefs(AcceptedEncodings::default(), &allow_decompress_cfg());
    assert_eq!(prefs, vec![Encoding::Identity]);
}

#[test]
fn allow_decompress_skips_brotli_when_client_only_accepts_gzip() {
    let prefs = encoding_prefs(
        AcceptedEncodings { gzip: true, brotli: false },
        &allow_decompress_cfg(),
    );
    assert!(!prefs.contains(&Encoding::Brotli));
    assert!(prefs.contains(&Encoding::Gzip));
}
