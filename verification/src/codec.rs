//! Decoding of stored bytes and media-type guessing, through the outside
//! `flate2`, `brotli` and `mime_guess` crates.

use vstd::prelude::*;

use crate::encoding::Encoding;
use crate::paths::{extension_of_path, law_extension_after_last_dot, path_extension};
use crate::resolve::Asset;

verus! {

/// `std::io::Error`, the error of a failed decompression.
#[verifier::external_type_specification]
#[verifier::external_body]
pub struct ExIoError(std::io::Error);

/// What gzip-decoding `data` with `flate2::read::GzDecoder` yields: the
/// decompressed bytes, or `None` where the decoder reports an error.
pub uninterp spec fn gunzipped(data: Seq<u8>) -> Option<Seq<u8>>;

/// What decompressing `data` with `brotli::Decompressor` (internal buffer of
/// `buffer_size` bytes) yields: the decompressed bytes, or `None` where the
/// decompressor reports an error.
pub uninterp spec fn brotli_decompressed(data: Seq<u8>, buffer_size: usize) -> Option<Seq<u8>>;

/// The media type that `mime_guess::from_ext(ext).first_or_octet_stream()`
/// gives for the extension `ext`, as text (a lookup in a static table; an
/// empty extension has no mapping).
pub uninterp spec fn mime_of_extension(ext: Seq<char>) -> Seq<char>;

/// The media type served for an asset with logical path `path`: that of its
/// extension as `Path::extension` finds it on Unix (`/` separating
/// components), or of the empty extension when it has none.
pub open spec fn guessed_mime(path: Seq<char>) -> Seq<char> {
    match path_extension(path) {
        Some(e) => mime_of_extension(e),
        None => mime_of_extension(Seq::<char>::empty()),
    }
}

/// Reads `flate2::read::GzDecoder::new(data)` to its end. The contract
/// claims that the outcome is a function of `data` alone: the decoded bytes
/// when the decoder succeeds, an error otherwise.
#[verifier::external_body]
pub(crate) fn gunzip(data: &[u8]) -> (r: Result<Vec<u8>, std::io::Error>)
    ensures
        r is Ok == gunzipped(data@) is Some,
        r is Ok ==> r->Ok_0@ == gunzipped(data@)->0,
{
    let mut out = Vec::new();
    let mut dec = flate2::read::GzDecoder::new(data);
    match std::io::Read::read_to_end(&mut dec, &mut out) {
        Ok(_) => Ok(out),
        Err(e) => Err(e),
    }
}

/// Reads `brotli::Decompressor::new(data, buffer_size)` to its end. The
/// contract claims that the outcome is a function of the arguments alone: the
/// decompressed bytes when the decompressor succeeds, an error otherwise.
#[verifier::external_body]
pub(crate) fn brotli_decompress(data: &[u8], buffer_size: usize) -> (r: Result<Vec<u8>, std::io::Error>)
    ensures
        r is Ok == brotli_decompressed(data@, buffer_size) is Some,
        r is Ok ==> r->Ok_0@ == brotli_decompressed(data@, buffer_size)->0,
{
    let mut out = Vec::new();
    let mut dec = brotli::Decompressor::new(data, buffer_size);
    match std::io::Read::read_to_end(&mut dec, &mut out) {
        Ok(_) => Ok(out),
        Err(e) => Err(e),
    }
}

/// Calls `mime_guess::from_ext(ext).first_or_octet_stream()` and returns the
/// media type as text; the contract says only that the result is the named
/// function of `ext`.
#[verifier::external_body]
fn mime_for_extension(ext: &str) -> (r: String)
    ensures
        r@ == mime_of_extension(ext@),
{
    let mime = mime_guess::from_ext(ext).first_or_octet_stream();
    AsRef::<str>::as_ref(&mime).to_string()
}

/// The media type of an asset with logical path `path`, guessed from its
/// extension (`application/octet-stream` where there is none or it is
/// unknown). An absent extension is looked up as the empty one, for which
/// `mime_guess` has no mapping either.
pub fn guess_mime(path: &str) -> (r: String)
    ensures
        r@ == guessed_mime(path@),
{
    match extension_of_path(path) {
        Some(e) => mime_for_extension(e),
        None => {
            let empty = String::new();
            mime_for_extension(empty.as_str())
        },
    }
}

/// The raw bytes of stored bytes `data` in encoding `e`, or `None` where
/// they do not decode.
pub open spec fn decoding(data: Seq<u8>, e: Encoding) -> Option<Seq<u8>> {
    match e {
        Encoding::Identity => Some(data),
        Encoding::Gzip => gunzipped(data),
        Encoding::Brotli => brotli_decompressed(data, 4096),
    }
}

impl Asset {
    /// The bytes to send to a client that accepts no content encoding: the
    /// stored bytes, decompressed if needed.
    pub fn decoded(&self) -> (r: Result<Vec<u8>, std::io::Error>)
        ensures
            r is Ok == decoding(self.data@, self.encoding) is Some,
            r is Ok ==> r->Ok_0@ == decoding(self.data@, self.encoding)->0,
    {
        match self.encoding {
            Encoding::Identity => {
                let out = self.data.clone();
                assert(out@ =~= self.data@);
                Ok(out)
            },
            Encoding::Gzip => gunzip(self.data.as_slice()),
            Encoding::Brotli => brotli_decompress(self.data.as_slice(), 4096),
        }
    }
}

/// The media type is that of the path's last extension: for a path `p` not
/// ending in `/` and a non-empty `e` without `/` or `.`, the type guessed for
/// `p.e` is the one `mime_guess` maps `e` to (so a hashed chunk
/// `start.BVfQ2x.js` gets the type of `js`).
pub proof fn law_media_type_of_last_extension(p: Seq<char>, e: Seq<char>)
    requires
        p.len() > 0,
        p.last() != '/',
        e.len() > 0,
        forall|i: int| 0 <= i < e.len() ==> e[i] != '/' && e[i] != '.',
    ensures
        guessed_mime(p + seq!['.'] + e) == mime_of_extension(e),
{
    law_extension_after_last_dot(p, e);
}

} // verus!
