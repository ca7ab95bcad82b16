//! Answering requests: encoding negotiation, lookup, and the reply.

use vstd::prelude::*;
use vstd::utf8::encode_utf8;

use crate::accept::{accepted_encodings, opt_bytes_view, parse_accept_encoding, AcceptedEncodings};
use crate::bundle::Bundle;
use crate::codec::{decoding, guess_mime, guessed_mime, law_media_type_of_last_extension, mime_of_extension};
use crate::encoding::{content_encoding_token, default_encodings, opt_str_view, Encoding, DEFAULT_ENCODINGS};
use crate::resolve::{
    law_more_encodings_never_lose_a_match, law_resolution_is_first_hit, law_resolved_encoding_is_offered,
    law_spa_fallback, stored_key, resolution, resolve_with,
    Asset,
};

verus! {

/// Runtime knobs of a [`Router`].
#[derive(Clone, Copy, Debug, PartialEq, Eq, Structural)]
pub struct RouterConfig {
    /// When `true` (the default), never decompress on the fly: clients that
    /// don't advertise `gzip` (or `br`) still get the pre-compressed bytes
    /// with the matching `Content-Encoding`, which caps per-request CPU cost.
    /// Set to `false` to decompress for clients that accept neither encoding.
    pub never_decompress: bool,
}

impl Default for RouterConfig {
    /// `never_decompress` on.
    fn default() -> (r: Self)
        ensures
            r.never_decompress,
    {
        RouterConfig { never_decompress: true }
    }
}

/// What is sent back for a resolved asset.
#[derive(Clone, Copy, Debug, PartialEq, Eq, Structural)]
pub enum Disposition {
    /// Send the stored bytes as-is with the appropriate `Content-Encoding`.
    AsIs,
    /// Decode the stored bytes and send the result as identity.
    Decompress,
}

/// The encodings offered for lookup, in order: those the client accepts
/// (brotli before gzip); then, when decompression is never done, the
/// compressed ones it does not accept (brotli before gzip); identity last.
/// So a client that advertises `br` gets brotli, one that advertises only
/// `gzip` gets gzip, and under `never_decompress` a client gets a variant it
/// did not ask for only where nothing it accepts is stored.
pub open spec fn preference_order(accepts: AcceptedEncodings, never_decompress: bool) -> Seq<Encoding> {
    let accepted = (if accepts.brotli { seq![Encoding::Brotli] } else { Seq::empty() }) + (
    if accepts.gzip {
        seq![Encoding::Gzip]
    } else {
        Seq::empty()
    });
    let unaccepted = if never_decompress {
        (if accepts.brotli { Seq::empty() } else { seq![Encoding::Brotli] }) + (if accepts.gzip {
            Seq::empty()
        } else {
            seq![Encoding::Gzip]
        })
    } else {
        Seq::empty()
    };
    accepted + unaccepted + seq![Encoding::Identity]
}

/// Builds the preference list passed to [`resolve_with`] from what the
/// client accepts. `Identity` always comes last, so the lookup succeeds even
/// if only a raw file exists.
pub fn encoding_prefs(accepts: AcceptedEncodings, config: &RouterConfig) -> (r: Vec<Encoding>)
    ensures
        r@ == preference_order(accepts, config.never_decompress),
{
    let mut prefs: Vec<Encoding> = Vec::with_capacity(3);
    if accepts.brotli {
        prefs.push(Encoding::Brotli);
    }
    if accepts.gzip {
        prefs.push(Encoding::Gzip);
    }
    if config.never_decompress {
        if !accepts.brotli {
            prefs.push(Encoding::Brotli);
        }
        if !accepts.gzip {
            prefs.push(Encoding::Gzip);
        }
    }
    prefs.push(Encoding::Identity);
    assert(prefs@ =~= preference_order(accepts, config.never_decompress));
    prefs
}

/// How an asset found with the client's preferences is sent: always as
/// stored. A gzip asset is either accepted or deliberately chosen under
/// `never_decompress` (clients decompress gzip transparently); a brotli
/// asset is chosen only when accepted or under `never_decompress`.
pub fn pick_disposition(asset_encoding: Encoding, accepts: AcceptedEncodings) -> (d: Disposition)
    ensures
        d == Disposition::AsIs,
{
    match asset_encoding {
        Encoding::Identity => Disposition::AsIs,
        Encoding::Gzip => Disposition::AsIs,
        Encoding::Brotli => Disposition::AsIs,
    }
}

/// An HTTP reply.
pub struct Reply {
    /// The status code.
    pub status: u16,
    /// The `Content-Type` header.
    pub content_type: String,
    /// The `Content-Encoding` header, if any.
    pub content_encoding: Option<&'static str>,
    /// Whether `Vary: Accept-Encoding` is sent.
    pub vary_accept_encoding: bool,
    /// The body.
    pub body: Vec<u8>,
}

/// A reply as values.
pub struct ReplyView {
    pub status: u16,
    pub content_type: Seq<char>,
    pub content_encoding: Option<Seq<char>>,
    pub vary_accept_encoding: bool,
    pub body: Seq<u8>,
}

impl View for Reply {
    type V = ReplyView;

    open spec fn view(&self) -> ReplyView {
        ReplyView {
            status: self.status,
            content_type: self.content_type@,
            content_encoding: opt_str_view(self.content_encoding),
            vary_accept_encoding: self.vary_accept_encoding,
            body: self.body@,
        }
    }
}

/// A plain-text reply with status `status` and body `text`.
pub open spec fn text_reply(status: u16, text: Seq<char>) -> ReplyView {
    ReplyView {
        status,
        content_type: "text/plain; charset=utf-8"@,
        content_encoding: None,
        vary_accept_encoding: false,
        body: encode_utf8(text),
    }
}

/// The reply for a resolved asset `a` (logical path, stored bytes, encoding).
pub open spec fn serve_reply(a: (Seq<char>, Seq<u8>, Encoding), d: Disposition) -> ReplyView {
    match d {
        Disposition::AsIs => ReplyView {
            status: 200,
            content_type: guessed_mime(a.0),
            content_encoding: content_encoding_token(a.2),
            vary_accept_encoding: true,
            body: a.1,
        },
        Disposition::Decompress => match decoding(a.1, a.2) {
            Some(raw) => ReplyView {
                status: 200,
                content_type: guessed_mime(a.0),
                content_encoding: None,
                vary_accept_encoding: true,
                body: raw,
            },
            None => text_reply(500, "decompression failed"@),
        },
    }
}

/// The reply to a request for `path` with `Accept-Encoding` value `accept`.
/// The asset served is the first candidate stored in any encoding (found in
/// the default order): sent as stored when the lookup with the client's
/// preferences finds that same candidate, decompressed otherwise; 404 when
/// no candidate is stored.
pub open spec fn handler_reply(
    never_decompress: bool,
    files: Map<Seq<char>, Seq<u8>>,
    path: Seq<char>,
    accept: Option<Seq<u8>>,
) -> ReplyView {
    let accepts = accepted_encodings(accept);
    match resolution(files, path, default_encodings()) {
        None => text_reply(404, "Not Found"@),
        Some(d) => match resolution(files, path, preference_order(accepts, never_decompress)) {
            Some(p) => if p.0 == d.0 {
                serve_reply(p, Disposition::AsIs)
            } else {
                serve_reply(d, Disposition::Decompress)
            },
            None => serve_reply(d, Disposition::Decompress),
        },
    }
}

/// A plain-text reply.
fn text_response(status: u16, text: &str) -> (r: Reply)
    ensures
        r@ == text_reply(status, text@),
{
    let body = vstd::slice::slice_to_vec(text.as_bytes());
    Reply {
        status,
        content_type: String::from_str("text/plain; charset=utf-8"),
        content_encoding: None,
        vary_accept_encoding: false,
        body,
    }
}

/// The reply for a resolved asset sent with `disposition`.
pub fn serve(asset: Asset, disposition: Disposition) -> (r: Reply)
    ensures
        r@ == serve_reply(asset@, disposition),
{
    let mime = guess_mime(asset.path.as_str());
    match disposition {
        Disposition::AsIs => Reply {
            status: 200,
            content_type: mime,
            content_encoding: asset.encoding.content_encoding(),
            vary_accept_encoding: true,
            body: asset.data,
        },
        Disposition::Decompress => match asset.decoded() {
            Ok(decoded) => Reply {
                status: 200,
                content_type: mime,
                content_encoding: None,
                vary_accept_encoding: true,
                body: decoded,
            },
            Err(_) => text_response(500, "decompression failed"),
        },
    }
}

/// Answers a request for `path` whose `Accept-Encoding` header has the value
/// `accept_encoding` (`None` when absent): the first candidate stored in any
/// encoding is sent as stored when it is stored in an encoding offered to the
/// client, and decompressed on the fly otherwise; 404 when nothing matches.
pub fn handler(
    config: &RouterConfig,
    bundle: &Bundle,
    path: &str,
    accept_encoding: Option<&[u8]>,
) -> (r: Reply)
    ensures
        r@ == handler_reply(config.never_decompress, bundle@, path@, opt_bytes_view(accept_encoding)),
{
    let accepts = parse_accept_encoding(accept_encoding);
    let prefs = encoding_prefs(accepts, config);
    let encs = DEFAULT_ENCODINGS;
    proof {
        assert(encs@ =~= default_encodings());
    }
    match resolve_with(bundle, path, encs.as_slice()) {
        None => text_response(404, "Not Found"),
        Some(found) => match resolve_with(bundle, path, prefs.as_slice()) {
            Some(asset) => {
                if asset.path == found.path {
                    let disposition = pick_disposition(asset.encoding, accepts);
                    serve(asset, disposition)
                } else {
                    serve(found, Disposition::Decompress)
                }
            },
            None => serve(found, Disposition::Decompress),
        },
    }
}

/// A request handler for `bundle`, with its settings.
pub struct Router {
    /// The settings.
    pub config: RouterConfig,
    /// The files served.
    pub bundle: Bundle,
}

/// A router that serves `bundle` with the default settings
/// (`never_decompress` on).
pub fn router(bundle: Bundle) -> (r: Router)
    ensures
        r.config.never_decompress,
        r.bundle@ == bundle@,
{
    router_with(bundle, RouterConfig::default())
}

/// A router that serves `bundle` with the settings `config`.
pub fn router_with(bundle: Bundle, config: RouterConfig) -> (r: Router)
    ensures
        r.config == config,
        r.bundle@ == bundle@,
{
    Router { config, bundle }
}

/// Every encoding offered with the client's preferences is one of the
/// default encodings.
proof fn lemma_preferences_are_default_encodings(accepts: AcceptedEncodings, never_decompress: bool)
    ensures
        forall|j: int| 0 <= j < preference_order(accepts, never_decompress).len()
            ==> default_encodings().contains(#[trigger] preference_order(accepts, never_decompress)[j]),
{
    let prefs = preference_order(accepts, never_decompress);
    let d = default_encodings();
    assert forall|j: int| 0 <= j < prefs.len() implies d.contains(#[trigger] prefs[j]) by {
        match prefs[j] {
            Encoding::Brotli => assert(d[0] == prefs[j]),
            Encoding::Gzip => assert(d[1] == prefs[j]),
            Encoding::Identity => assert(d[2] == prefs[j]),
        }
    }
}

/// The served candidate is the first one stored in any encoding: it is sent
/// as stored (in the client's preferred encoding) when it is stored in some
/// encoding offered to the client, and decompressed otherwise; so a client
/// that cannot accept a compressed asset gets it decompressed rather than a
/// later candidate such as the SPA fallback.
pub proof fn law_serves_first_stored_candidate(
    never_decompress: bool,
    files: Map<Seq<char>, Seq<u8>>,
    path: Seq<char>,
    accept: Option<Seq<u8>>,
)
    ensures
        resolution(files, path, default_encodings()) matches Some(d) ==> {
            let prefs = preference_order(accepted_encodings(accept), never_decompress);
            &&& (exists|j: int| 0 <= j < prefs.len() && files.contains_key(#[trigger] stored_key(d.0, prefs[j])))
                ==> resolution(files, path, prefs) is Some && (resolution(files, path, prefs)->0).0 == d.0
                && handler_reply(never_decompress, files, path, accept) == serve_reply(
                resolution(files, path, prefs)->0,
                Disposition::AsIs,
            )
            &&& !(exists|j: int| 0 <= j < prefs.len() && files.contains_key(#[trigger] stored_key(d.0, prefs[j])))
                ==> handler_reply(never_decompress, files, path, accept) == serve_reply(d, Disposition::Decompress)
        },
{
    let prefs = preference_order(accepted_encodings(accept), never_decompress);
    let d = default_encodings();
    lemma_preferences_are_default_encodings(accepted_encodings(accept), never_decompress);
    law_more_encodings_never_lose_a_match(files, path, prefs, d);
    law_resolved_encoding_is_offered(files, path, prefs);
    if let Some(p) = resolution(files, path, prefs) {
        let k = choose|k: int| 0 <= k < prefs.len() && prefs[k] == p.2;
        assert(files.contains_key(stored_key(p.0, prefs[k])));
    }
}

/// With `never_decompress` on (the default) nothing is ever decompressed:
/// every encoding is offered, so the asset found with the client's
/// preferences is sent exactly as stored, and when none is found the reply
/// is 404.
pub proof fn law_never_decompress(files: Map<Seq<char>, Seq<u8>>, path: Seq<char>, accept: Option<Seq<u8>>)
    ensures
        handler_reply(true, files, path, accept) == match resolution(
            files,
            path,
            preference_order(accepted_encodings(accept), true),
        ) {
            Some(a) => serve_reply(a, Disposition::AsIs),
            None => text_reply(404, "Not Found"@),
        },
{
    let prefs = preference_order(accepted_encodings(accept), true);
    let d = default_encodings();
    assert forall|j: int| 0 <= j < d.len() implies prefs.contains(#[trigger] d[j]) by {
        if d[j] == Encoding::Identity {
            assert(prefs[prefs.len() - 1] == Encoding::Identity);
        } else if d[j] == Encoding::Brotli {
            assert(prefs[0] == Encoding::Brotli || prefs[1] == Encoding::Brotli);
        } else {
            assert(prefs[0] == Encoding::Gzip || prefs[1] == Encoding::Gzip);
        }
    }
    law_more_encodings_never_lose_a_match(files, path, d, prefs);
    lemma_preferences_are_default_encodings(accepted_encodings(accept), true);
    law_more_encodings_never_lose_a_match(files, path, prefs, d);
    law_serves_first_stored_candidate(true, files, path, accept);
    law_resolved_encoding_is_offered(files, path, d);
    if let Some(dd) = resolution(files, path, d) {
        assert(prefs.contains(dd.2));
        let k = choose|k: int| 0 <= k < prefs.len() && prefs[k] == dd.2;
        assert(files.contains_key(stored_key(dd.0, prefs[k])));
        assert(exists|j: int| 0 <= j < prefs.len() && files.contains_key(#[trigger] stored_key(dd.0, prefs[j])));
    }
}

/// A client that accepts both gzip and brotli gets, whatever the settings,
/// the asset found in the default order (brotli, gzip, raw), exactly as
/// stored.
pub proof fn law_full_accept_as_stored(
    never_decompress: bool,
    files: Map<Seq<char>, Seq<u8>>,
    path: Seq<char>,
    accept: Option<Seq<u8>>,
)
    requires
        accepted_encodings(accept).gzip,
        accepted_encodings(accept).brotli,
    ensures
        handler_reply(never_decompress, files, path, accept) == match resolution(
            files,
            path,
            default_encodings(),
        ) {
            Some(a) => serve_reply(a, Disposition::AsIs),
            None => text_reply(404, "Not Found"@),
        },
{
    assert(preference_order(accepted_encodings(accept), never_decompress) =~= default_encodings());
}

/// With an `index.html` stored in any encoding, no request gets a 404: the
/// SPA fallback always finds an asset.
pub proof fn law_no_not_found_with_index(
    never_decompress: bool,
    files: Map<Seq<char>, Seq<u8>>,
    path: Seq<char>,
    accept: Option<Seq<u8>>,
    e: Encoding,
)
    requires
        files.contains_key(stored_key("index.html"@, e)),
    ensures
        handler_reply(never_decompress, files, path, accept).status != 404,
{
    let d = default_encodings();
    let k: int = match e {
        Encoding::Brotli => 0,
        Encoding::Gzip => 1,
        Encoding::Identity => 2,
    };
    assert(d[k] == e);
    law_spa_fallback(files, path, d, k);
}

/// With `never_decompress` off, stored bytes are sent compressed only in an
/// encoding the client advertised: a reply with `Content-Encoding: gzip`
/// (`br`) goes only to a client that accepts gzip (brotli).
pub proof fn law_respects_accept_encoding(
    files: Map<Seq<char>, Seq<u8>>,
    path: Seq<char>,
    accept: Option<Seq<u8>>,
)
    ensures
        handler_reply(false, files, path, accept).content_encoding == Some("gzip"@) ==> accepted_encodings(
            accept,
        ).gzip,
        handler_reply(false, files, path, accept).content_encoding == Some("br"@) ==> accepted_encodings(
            accept,
        ).brotli,
{
    reveal_strlit("gzip");
    reveal_strlit("br");
    let acc = accepted_encodings(accept);
    let prefs = preference_order(acc, false);
    law_resolved_encoding_is_offered(files, path, prefs);
    if let Some(d) = resolution(files, path, default_encodings()) {
        if let Some(a) = resolution(files, path, prefs) {
            assert(prefs.contains(a.2));
            assert(a.2 == Encoding::Gzip ==> acc.gzip);
            assert(a.2 == Encoding::Brotli ==> acc.brotli);
        }
    }
}

/// The variant a client gets for the path that matched: brotli whenever the
/// client advertises `br` and a brotli variant is stored; and for a client
/// that advertises `gzip` but not `br`, brotli only when no gzip variant is
/// stored.
pub proof fn law_best_accepted_variant(
    never_decompress: bool,
    files: Map<Seq<char>, Seq<u8>>,
    path: Seq<char>,
    accept: Option<Seq<u8>>,
)
    ensures
        resolution(files, path, preference_order(accepted_encodings(accept), never_decompress)) matches Some(a)
            ==> {
            &&& accepted_encodings(accept).brotli && files.contains_key(stored_key(a.0, Encoding::Brotli))
                ==> a.2 == Encoding::Brotli
            &&& accepted_encodings(accept).gzip && !accepted_encodings(accept).brotli
                && files.contains_key(stored_key(a.0, Encoding::Gzip)) ==> a.2 != Encoding::Brotli
        },
{
    let acc = accepted_encodings(accept);
    let prefs = preference_order(acc, never_decompress);
    law_resolution_is_first_hit(files, path, prefs);
    if acc.brotli {
        assert(prefs[0] == Encoding::Brotli);
    }
    if acc.gzip && !acc.brotli {
        assert(prefs[0] == Encoding::Gzip);
    }
}

/// The content type of a served asset depends on its logical path only: two
/// assets with the same logical path get the same `Content-Type` whatever
/// their stored bytes and encodings, and whether they are sent as stored or
/// decompressed (where the bytes decode).
pub proof fn law_content_type_from_logical_path(
    path: Seq<char>,
    d1: Seq<u8>,
    e1: Encoding,
    x1: Disposition,
    d2: Seq<u8>,
    e2: Encoding,
    x2: Disposition,
)
    requires
        x1 == Disposition::Decompress ==> decoding(d1, e1) is Some,
        x2 == Disposition::Decompress ==> decoding(d2, e2) is Some,
    ensures
        serve_reply((path, d1, e1), x1).status == 200,
        serve_reply((path, d1, e1), x1).content_type == serve_reply((path, d2, e2), x2).content_type,
{
}

/// A served asset whose logical path is `p.e` (with `p` not ending in `/`
/// and `e` a non-empty extension without `/` or `.`) gets the media type of
/// `e`, whether sent as stored or decompressed.
pub proof fn law_content_type_of_extension(
    p: Seq<char>,
    e: Seq<char>,
    data: Seq<u8>,
    enc: Encoding,
    x: Disposition,
)
    requires
        p.len() > 0,
        p.last() != '/',
        e.len() > 0,
        forall|i: int| 0 <= i < e.len() ==> e[i] != '/' && e[i] != '.',
        x == Disposition::Decompress ==> decoding(data, enc) is Some,
    ensures
        serve_reply((p + seq!['.'] + e, data, enc), x).content_type == mime_of_extension(e),
{
    law_media_type_of_last_extension(p, e);
}

} // verus!
