//! Content encodings of stored assets.

use vstd::prelude::*;

verus! {

/// How an asset's bytes are encoded in the bundle.
#[derive(Clone, Copy, Debug, PartialEq, Eq, Structural)]
pub enum Encoding {
    /// Raw bytes, no content encoding.
    Identity,
    /// Gzip-compressed (`Content-Encoding: gzip`).
    Gzip,
    /// Brotli-compressed (`Content-Encoding: br`).
    Brotli,
}

/// Default lookup order: brotli, then gzip, then the raw file.
pub const DEFAULT_ENCODINGS: [Encoding; 3] = [Encoding::Brotli, Encoding::Gzip, Encoding::Identity];

/// The default lookup order as a sequence.
pub open spec fn default_encodings() -> Seq<Encoding> {
    seq![Encoding::Brotli, Encoding::Gzip, Encoding::Identity]
}

/// The view of an optional string slice.
pub open spec fn opt_str_view(o: Option<&str>) -> Option<Seq<char>> {
    match o {
        Some(s) => Some(s@),
        None => None,
    }
}

/// The HTTP `Content-Encoding` token of an encoding (none for identity).
pub open spec fn content_encoding_token(e: Encoding) -> Option<Seq<char>> {
    match e {
        Encoding::Identity => None,
        Encoding::Gzip => Some("gzip"@),
        Encoding::Brotli => Some("br"@),
    }
}

/// The file-name suffix (without the dot) of an encoding (none for identity).
pub open spec fn suffix_of(e: Encoding) -> Option<Seq<char>> {
    match e {
        Encoding::Identity => None,
        Encoding::Gzip => Some("gz"@),
        Encoding::Brotli => Some("br"@),
    }
}

impl Encoding {
    /// The HTTP `Content-Encoding` token, or `None` for [`Encoding::Identity`].
    pub fn content_encoding(self) -> (r: Option<&'static str>)
        ensures
            opt_str_view(r) == content_encoding_token(self),
    {
        match self {
            Encoding::Identity => None,
            Encoding::Gzip => Some("gzip"),
            Encoding::Brotli => Some("br"),
        }
    }

    /// Filename suffix (without the leading dot), or `None` for identity.
    pub fn suffix(self) -> (r: Option<&'static str>)
        ensures
            opt_str_view(r) == suffix_of(self),
    {
        match self {
            Encoding::Identity => None,
            Encoding::Gzip => Some("gz"),
            Encoding::Brotli => Some("br"),
        }
    }
}

} // verus!
