//! Pre-compression of assets, meant for a downstream build script: which
//! files are compressed, under which suffix, and with what.

use vstd::prelude::*;

use crate::codec::{brotli_decompressed, gunzipped};
use crate::paths::{chars_equal, chars_of};

verus! {

/// File extensions whose contents typically compress well. Binary formats
/// that are already compressed (PNG/JPEG/WOFF2/MP4/...) are left out.
pub const DEFAULT_COMPRESSIBLE_EXTENSIONS: [&'static str; 14] = [
    "html",
    "htm",
    "css",
    "js",
    "mjs",
    "cjs",
    "json",
    "map",
    "svg",
    "wasm",
    "txt",
    "xml",
    "ico",
    "webmanifest",
];

/// Compression algorithm to apply to compressible assets.
#[derive(Clone, Copy, Debug, PartialEq, Eq, Structural)]
pub enum Algorithm {
    /// gzip (`Content-Encoding: gzip`). Suffix: `.gz`.
    Gzip,
    /// Brotli (`Content-Encoding: br`). Suffix: `.br`.
    Brotli,
}

/// The suffix of the sibling file an algorithm writes.
pub open spec fn algorithm_suffix(a: Algorithm) -> Seq<char> {
    match a {
        Algorithm::Gzip => "gz"@,
        Algorithm::Brotli => "br"@,
    }
}

/// What `flate2::write::GzEncoder` at compression `level` writes for `src`
/// into a `Vec`, or `None` where it reports an error.
pub uninterp spec fn gzip_compressed(src: Seq<u8>, level: u32) -> Option<Seq<u8>>;

/// What `brotli::BrotliCompress` with the given `quality` and window
/// `lgwin` writes for `src` into a `Vec`, or `None` where it reports an
/// error.
pub uninterp spec fn brotli_compressed(src: Seq<u8>, quality: i32, lgwin: i32) -> Option<Seq<u8>>;

/// Writes `src` through `flate2::write::GzEncoder::new(dst, Compression::new(level))`
/// and finishes it. The contract claims that whether it succeeds, and what
/// it appends to `dst` then, are a function of `src` and `level` alone, and
/// that gzip-decoding what it appended gives `src` back; it says nothing of
/// `dst` after an error.
#[verifier::external_body]
fn gzip_compress(src: &[u8], dst: &mut Vec<u8>, level: u32) -> (r: Result<(), std::io::Error>)
    requires
        level <= 9,
    ensures
        r is Ok == gzip_compressed(src@, level) is Some,
        r is Ok ==> final(dst)@ == old(dst)@ + gzip_compressed(src@, level)->0,
        r is Ok ==> gunzipped(final(dst)@.skip(old(dst)@.len() as int)) == Some(src@),
{
    let mut enc = flate2::write::GzEncoder::new(dst, flate2::Compression::new(level));
    match std::io::Write::write_all(&mut enc, src) {
        Ok(()) => {},
        Err(e) => return Err(e),
    }
    match enc.finish() {
        Ok(_) => Ok(()),
        Err(e) => Err(e),
    }
}

/// Runs `brotli::BrotliCompress` from `src` into `dst` with the given
/// `quality` and `lgwin` (other parameters at their defaults). The contract
/// claims that whether it succeeds, and what it appends to `dst` then, are a
/// function of `src`, `quality` and `lgwin` alone, and that
/// brotli-decompressing what it appended gives `src` back; it says nothing
/// of `dst` after an error.
#[verifier::external_body]
fn brotli_compress(src: &[u8], dst: &mut Vec<u8>, quality: i32, lgwin: i32) -> (r: Result<(), std::io::Error>)
    requires
        0 <= quality <= 11,
        10 <= lgwin <= 24,
    ensures
        r is Ok == brotli_compressed(src@, quality, lgwin) is Some,
        r is Ok ==> final(dst)@ == old(dst)@ + brotli_compressed(src@, quality, lgwin)->0,
        r is Ok ==> brotli_decompressed(final(dst)@.skip(old(dst)@.len() as int), 4096) == Some(src@),
{
    let mut input = src;
    let params = brotli::enc::BrotliEncoderParams { quality, lgwin, ..Default::default() };
    match brotli::BrotliCompress(&mut input, dst, &params) {
        Ok(_) => Ok(()),
        Err(e) => Err(e),
    }
}

/// What an algorithm appends for `src` (`None` where the compressor fails):
/// gzip at its best level, or brotli at quality 11 with a 4 MiB window.
pub open spec fn compressed_by(a: Algorithm, src: Seq<u8>) -> Option<Seq<u8>> {
    match a {
        Algorithm::Gzip => gzip_compressed(src, 9),
        Algorithm::Brotli => brotli_compressed(src, 11, 22),
    }
}

impl Algorithm {
    /// The suffix (without the dot) of the sibling file this algorithm writes.
    pub fn suffix(self) -> (r: &'static str)
        ensures
            r@ == algorithm_suffix(self),
    {
        match self {
            Algorithm::Gzip => "gz",
            Algorithm::Brotli => "br",
        }
    }

    /// Appends the compressed form of `src` to `dst`. It succeeds exactly when
    /// the compressor does, and then what it appended decodes back to `src`.
    pub fn encode(self, src: &[u8], dst: &mut Vec<u8>) -> (r: Result<(), std::io::Error>)
        ensures
            r is Ok == compressed_by(self, src@) is Some,
            r is Ok ==> final(dst)@ == old(dst)@ + compressed_by(self, src@)->0,
            r is Ok ==> match self {
                Algorithm::Gzip => gunzipped(compressed_by(self, src@)->0) == Some(src@),
                Algorithm::Brotli => brotli_decompressed(compressed_by(self, src@)->0, 4096) == Some(src@),
            },
    {
        let ghost before = dst@;
        match self {
            Algorithm::Gzip => {
                let r = gzip_compress(src, dst, 9);
                proof {
                    if r is Ok {
                        assert(dst@.skip(before.len() as int) =~= gzip_compressed(src@, 9)->0);
                    }
                }
                r
            },
            Algorithm::Brotli => {
                // quality 11 = best, lgwin 22 = 4 MiB sliding window.
                let r = brotli_compress(src, dst, 11, 22);
                proof {
                    if r is Ok {
                        assert(dst@.skip(before.len() as int) =~= brotli_compressed(src@, 11, 22)->0);
                    }
                }
                r
            },
        }
    }
}

/// The code of a character, lower-cased if it is an ASCII capital.
pub open spec fn ascii_lower_code(c: char) -> u32 {
    if 65 <= (c as u32) <= 90 {
        (c as u32 + 32) as u32
    } else {
        c as u32
    }
}

/// `str::eq_ignore_ascii_case` on character sequences.
pub open spec fn chars_eq_ignore_ascii_case(a: Seq<char>, b: Seq<char>) -> bool {
    &&& a.len() == b.len()
    &&& forall|i: int| 0 <= i < a.len() ==> ascii_lower_code(#[trigger] a[i]) == ascii_lower_code(b[i])
}

/// Whether a file with extension `ext` is compressed, given the allow-list
/// `exts`: it is not an already-compressed sibling (`gz`, `br`) and some
/// entry of the list equals it ignoring ASCII case.
pub open spec fn compressible(ext: Seq<char>, exts: Seq<Seq<char>>) -> bool {
    &&& ext != "gz"@
    &&& ext != "br"@
    &&& exists|i: int| 0 <= i < exts.len() && chars_eq_ignore_ascii_case(#[trigger] exts[i], ext)
}

fn lower_code(c: char) -> (r: u32)
    ensures
        r == ascii_lower_code(c),
{
    let n = c as u32;
    if 65 <= n && n <= 90 {
        n + 32
    } else {
        n
    }
}

fn vec_chars_eq_ignore_ascii_case(a: &Vec<char>, b: &Vec<char>) -> (r: bool)
    ensures
        r == chars_eq_ignore_ascii_case(a@, b@),
{
    if a.len() != b.len() {
        return false;
    }
    let mut i: usize = 0;
    while i < a.len()
        invariant
            i <= a@.len(),
            a@.len() == b@.len(),
            forall|j: int| 0 <= j < i ==> ascii_lower_code(#[trigger] a@[j]) == ascii_lower_code(b@[j]),
        decreases a@.len() - i,
    {
        if lower_code(a[i]) != lower_code(b[i]) {
            return false;
        }
        i = i + 1;
    }
    true
}

/// The view of a list of string slices.
pub open spec fn strs_view(s: Seq<&str>) -> Seq<Seq<char>> {
    s.map_values(|x: &str| x@)
}

/// Whether a file with extension `ext` is compressed under the allow-list
/// `extensions`: siblings produced by an earlier run (`gz`, `br`) never are;
/// others are when the list holds the extension, ignoring ASCII case.
pub fn is_compressible(ext: &str, extensions: &[&str]) -> (r: bool)
    ensures
        r == compressible(ext@, strs_view(extensions@)),
{
    let e = chars_of(ext);
    let gz = chars_of("gz");
    let br = chars_of("br");
    if chars_equal(&e, &gz) || chars_equal(&e, &br) {
        return false;
    }
    let ghost v = strs_view(extensions@);
    let mut i: usize = 0;
    while i < extensions.len()
        invariant
            i <= extensions@.len(),
            v == strs_view(extensions@),
            e@ == ext@,
            ext@ != "gz"@,
            ext@ != "br"@,
            forall|j: int| 0 <= j < i ==> !chars_eq_ignore_ascii_case(#[trigger] v[j], ext@),
        decreases extensions@.len() - i,
    {
        let x = chars_of(extensions[i]);
        if vec_chars_eq_ignore_ascii_case(&x, &e) {
            assert(v[i as int] == x@);
            return true;
        }
        assert(v[i as int] == x@);
        i = i + 1;
    }
    false
}

/// Two characters are equal ignoring ASCII case: the same code point, or an
/// ASCII capital and its lower-case letter.
pub open spec fn same_letter_ignoring_case(a: char, b: char) -> bool {
    ||| (a as u32) == (b as u32)
    ||| 65 <= (a as u32) <= 90 && (b as u32) == (a as u32) + 32
    ||| 65 <= (b as u32) <= 90 && (a as u32) == (b as u32) + 32
}

/// An extension is compressed exactly when it is not `gz` or `br` and the
/// allow-list has an entry of exactly its length that matches it character
/// by character ignoring ASCII case; so an extension that is only a prefix
/// of an entry (`webm` of `webmanifest`) is not compressed.
pub proof fn law_compressible_needs_whole_entry(ext: Seq<char>, exts: Seq<Seq<char>>)
    ensures
        compressible(ext, exts) <==> {
            &&& ext != "gz"@
            &&& ext != "br"@
            &&& exists|i: int|
                0 <= i < exts.len() && (#[trigger] exts[i]).len() == ext.len() && forall|k: int|
                    0 <= k < ext.len() ==> same_letter_ignoring_case(exts[i][k], ext[k])
        },
{
    assert forall|a: char, b: char| #[trigger] same_letter_ignoring_case(a, b) <==> ascii_lower_code(a) == ascii_lower_code(b) by {
    }
    if compressible(ext, exts) {
        let i = choose|i: int| 0 <= i < exts.len() && chars_eq_ignore_ascii_case(#[trigger] exts[i], ext);
        assert forall|k: int| 0 <= k < ext.len() implies same_letter_ignoring_case(exts[i][k], ext[k]) by {
            assert(ascii_lower_code(exts[i][k]) == ascii_lower_code(ext[k]));
        }
    }
    if ext != "gz"@ && ext != "br"@ && exists|i: int|
        0 <= i < exts.len() && (#[trigger] exts[i]).len() == ext.len() && forall|k: int|
            0 <= k < ext.len() ==> same_letter_ignoring_case(exts[i][k], ext[k]) {
        let i = choose|i: int|
            0 <= i < exts.len() && (#[trigger] exts[i]).len() == ext.len() && forall|k: int|
                0 <= k < ext.len() ==> same_letter_ignoring_case(exts[i][k], ext[k]);
        assert forall|k: int| 0 <= k < exts[i].len() implies ascii_lower_code(#[trigger] exts[i][k]) == ascii_lower_code(ext[k]) by {
            assert(same_letter_ignoring_case(exts[i][k], ext[k]));
        }
        assert(chars_eq_ignore_ascii_case(exts[i], ext));
    }
}

} // verus!
