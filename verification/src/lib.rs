//! Serving a static single-page application out of a bundle of embedded
//! files: path resolution with prerendered-route and SPA-fallback rules,
//! pre-compressed (brotli/gzip) variants, `Accept-Encoding` negotiation,
//! and the reply that a request gets.

pub mod accept;
pub mod bundle;
pub mod codec;
pub mod compress;
pub mod encoding;
pub mod paths;
pub mod resolve;
pub mod router;

pub use accept::{parse_accept_encoding, AcceptedEncodings};
pub use bundle::Bundle;
pub use encoding::{Encoding, DEFAULT_ENCODINGS};
pub use resolve::{resolve, resolve_with, Asset};
pub use router::{
    encoding_prefs, handler, pick_disposition, router, router_with, serve, Disposition, Reply,
    Router, RouterConfig,
};
