//! Resolution of a request path to an asset of the bundle.

use vstd::prelude::*;
use vstd::string::*;

use crate::bundle::{embedded_key, Bundle};
use crate::encoding::{suffix_of, default_encodings, Encoding, DEFAULT_ENCODINGS};
use crate::paths::chars_of;

verus! {

/// `p` without its leading slashes.
pub open spec fn trim_start_slashes(p: Seq<char>) -> Seq<char>
    decreases p.len(),
{
    if p.len() > 0 && p[0] == '/' {
        trim_start_slashes(p.drop_first())
    } else {
        p
    }
}

/// `p` without its trailing slashes.
pub open spec fn trim_end_slashes(p: Seq<char>) -> Seq<char>
    decreases p.len(),
{
    if p.len() > 0 && p.last() == '/' {
        trim_end_slashes(p.drop_last())
    } else {
        p
    }
}

/// The request path with its leading slashes removed; `index.html` when
/// nothing is left.
pub open spec fn normalized_path(path: Seq<char>) -> Seq<char> {
    let p = trim_start_slashes(path);
    if p.len() == 0 {
        "index.html"@
    } else {
        p
    }
}

/// The logical paths tried for a request, in order: the exact path,
/// `<path>.html`, `<path>/index.html` (trailing slashes dropped first), and
/// the SPA fallback `index.html`.
pub open spec fn candidates(path: Seq<char>) -> Seq<Seq<char>> {
    let p = normalized_path(path);
    let t = trim_end_slashes(p);
    seq![p, t + ".html"@, t + "/index.html"@, "index.html"@]
}

/// The bundle name under which candidate `c` is stored in encoding `e`.
pub open spec fn lookup_name(c: Seq<char>, e: Encoding) -> Seq<char> {
    match suffix_of(e) {
        Some(x) => c + "."@ + x,
        None => c,
    }
}

/// The bundle entry that a lookup of candidate `c` in encoding `e` reads.
pub open spec fn stored_key(c: Seq<char>, e: Encoding) -> Seq<char> {
    embedded_key(lookup_name(c, e))
}

/// The first encoding, from position `j` on, in which `c` is stored.
pub open spec fn first_encoding_hit(
    files: Map<Seq<char>, Seq<u8>>,
    c: Seq<char>,
    encs: Seq<Encoding>,
    j: int,
) -> Option<int>
    decreases encs.len() - j,
{
    if j < 0 || j >= encs.len() {
        None
    } else if files.contains_key(stored_key(c, encs[j])) {
        Some(j)
    } else {
        first_encoding_hit(files, c, encs, j + 1)
    }
}

/// The first candidate, from position `i` on, stored in some encoding, and
/// the first such encoding.
pub open spec fn first_hit(
    files: Map<Seq<char>, Seq<u8>>,
    cands: Seq<Seq<char>>,
    encs: Seq<Encoding>,
    i: int,
) -> Option<(int, int)>
    decreases cands.len() - i,
{
    if i < 0 || i >= cands.len() {
        None
    } else {
        match first_encoding_hit(files, cands[i], encs, 0) {
            Some(j) => Some((i, j)),
            None => first_hit(files, cands, encs, i + 1),
        }
    }
}

/// What a request for `path` resolves to, trying the encodings `encs` in
/// order for each candidate: the matched logical path, the stored bytes and
/// their encoding.
pub open spec fn resolution(
    files: Map<Seq<char>, Seq<u8>>,
    path: Seq<char>,
    encs: Seq<Encoding>,
) -> Option<(Seq<char>, Seq<u8>, Encoding)> {
    let cands = candidates(path);
    match first_hit(files, cands, encs, 0) {
        Some((i, j)) => Some((cands[i], files[stored_key(cands[i], encs[j])], encs[j])),
        None => None,
    }
}

/// A resolved asset.
pub struct Asset {
    /// The matched logical path (without any compression suffix).
    pub path: String,
    /// The bytes as stored in the bundle; `encoding` says how they're encoded.
    pub data: Vec<u8>,
    /// How `data` is encoded.
    pub encoding: Encoding,
}

impl View for Asset {
    type V = (Seq<char>, Seq<u8>, Encoding);

    open spec fn view(&self) -> (Seq<char>, Seq<u8>, Encoding) {
        (self.path@, self.data@, self.encoding)
    }
}

/// The view of an optional asset.
pub open spec fn opt_asset_view(a: Option<Asset>) -> Option<(Seq<char>, Seq<u8>, Encoding)> {
    match a {
        Some(a) => Some(a@),
        None => None,
    }
}

impl Asset {
    /// The asset for logical path `path`, stored as `data` in `encoding`.
    pub fn from_embedded(path: String, data: Vec<u8>, encoding: Encoding) -> (a: Asset)
        ensures
            a@ == (path@, data@, encoding),
    {
        Asset { path, data, encoding }
    }

    /// The bundle name the asset is stored under: its logical path, followed
    /// by `.` and the encoding's suffix when it is compressed.
    pub fn stored_name(&self) -> (r: String)
        ensures
            r@ == lookup_name(self.path@, self.encoding),
    {
        lookup_key(&self.path, self.encoding)
    }
}

proof fn lemma_trim_start_slashes(p: Seq<char>, k: int)
    requires
        0 <= k <= p.len(),
        forall|i: int| 0 <= i < k ==> #[trigger] p[i] == '/',
        k == p.len() || p[k] != '/',
    ensures
        trim_start_slashes(p) == p.skip(k),
    decreases k,
{
    if k == 0 {
        assert(p.skip(0) =~= p);
    } else {
        let rest = p.drop_first();
        assert(p[0] == '/');
        assert(forall|i: int| 0 <= i < k - 1 ==> rest[i] == p[i + 1]);
        lemma_trim_start_slashes(rest, k - 1);
        assert(rest.skip(k - 1) =~= p.skip(k));
    }
}

proof fn lemma_trim_end_slashes(p: Seq<char>, m: int)
    requires
        0 <= m <= p.len(),
        forall|i: int| m <= i < p.len() ==> #[trigger] p[i] == '/',
        m == 0 || p[m - 1] != '/',
    ensures
        trim_end_slashes(p) == p.take(m),
    decreases p.len() - m,
{
    if m == p.len() {
        assert(p.take(m) =~= p);
        if p.len() > 0 {
            assert(p.last() != '/');
        }
    } else {
        let rest = p.drop_last();
        assert(p[p.len() - 1] == '/');
        assert(forall|i: int| m <= i < rest.len() ==> rest[i] == p[i]);
        lemma_trim_end_slashes(rest, m);
        assert(rest.take(m) =~= p.take(m));
    }
}

/// `path` with its leading slashes removed, or `index.html` if nothing is left.
fn normalize(path: &str) -> (r: &str)
    ensures
        r@ == normalized_path(path@),
{
    let cs = chars_of(path);
    let n = cs.len();
    let mut k: usize = 0;
    while k < n && cs[k] == '/'
        invariant
            k <= n,
            n == cs@.len(),
            cs@ == path@,
            forall|i: int| 0 <= i < k ==> #[trigger] path@[i] == '/',
        decreases n - k,
    {
        k = k + 1;
    }
    proof {
        lemma_trim_start_slashes(path@, k as int);
    }
    if k == n {
        "index.html"
    } else {
        path.substring_char(k, n)
    }
}

/// `p` with its trailing slashes removed.
fn trim_trailing_slashes(p: &str) -> (r: &str)
    ensures
        r@ == trim_end_slashes(p@),
{
    let cs = chars_of(p);
    let mut m: usize = cs.len();
    while m > 0 && cs[m - 1] == '/'
        invariant
            m <= cs@.len(),
            cs@ == p@,
            forall|i: int| m <= i < p@.len() ==> #[trigger] p@[i] == '/',
        decreases m,
    {
        m = m - 1;
    }
    proof {
        lemma_trim_end_slashes(p@, m as int);
    }
    p.substring_char(0, m)
}

/// The candidate logical paths for a request, in lookup order.
fn candidate_paths(path: &str) -> (r: Vec<String>)
    ensures
        r@.len() == 4,
        forall|i: int| 0 <= i < 4 ==> #[trigger] r@[i]@ == candidates(path@)[i],
{
    let p = normalize(path);
    let t = trim_trailing_slashes(p);
    let c0 = String::from_str(p);
    let c1 = String::from_str(t).concat(".html");
    let c2 = String::from_str(t).concat("/index.html");
    let c3 = String::from_str("index.html");
    let r = vec![c0, c1, c2, c3];
    assert(r@[0]@ == candidates(path@)[0]);
    assert(r@[1]@ == candidates(path@)[1]);
    assert(r@[2]@ == candidates(path@)[2]);
    assert(r@[3]@ == candidates(path@)[3]);
    r
}

/// The bundle name of candidate `c` stored in encoding `e`.
fn lookup_key(c: &String, e: Encoding) -> (r: String)
    ensures
        r@ == lookup_name(c@, e),
{
    match e.suffix() {
        Some(sfx) => c.clone().concat(".").concat(sfx),
        None => c.clone(),
    }
}

/// Looks up a file in the bundle, applying SvelteKit `adapter-static`
/// resolution rules. For each candidate path the given `encodings` are tried
/// in order:
///
/// 1. exact path
/// 2. `<path>.html`            (prerendered route)
/// 3. `<path>/index.html`      (prerendered route with trailing slash)
/// 4. `index.html`             (SPA fallback)
pub fn resolve_with(bundle: &Bundle, path: &str, encodings: &[Encoding]) -> (r: Option<Asset>)
    ensures
        opt_asset_view(r) == resolution(bundle@, path@, encodings@),
{
    let cands = candidate_paths(path);
    let ghost cs = candidates(path@);
    let ghost files = bundle@;
    let ghost es = encodings@;
    assert(cands@.len() == cs.len());
    let mut i: usize = 0;
    while i < cands.len()
        invariant
            i <= cands@.len(),
            cands@.len() == 4,
            cs == candidates(path@),
            cs.len() == 4,
            forall|q: int| 0 <= q < 4 ==> #[trigger] cands@[q]@ == cs[q],
            files == bundle@,
            es == encodings@,
            first_hit(files, cs, es, 0) == first_hit(files, cs, es, i as int),
        decreases cands@.len() - i,
    {
        let mut j: usize = 0;
        while j < encodings.len()
            invariant
                i < cands@.len(),
                cands@.len() == 4,
                cs == candidates(path@),
                cs.len() == 4,
                forall|q: int| 0 <= q < 4 ==> #[trigger] cands@[q]@ == cs[q],
                j <= encodings@.len(),
                files == bundle@,
                es == encodings@,
                first_hit(files, cs, es, 0) == first_hit(files, cs, es, i as int),
                first_encoding_hit(files, cs[i as int], es, 0) == first_encoding_hit(
                    files,
                    cs[i as int],
                    es,
                    j as int,
                ),
            decreases encodings@.len() - j,
        {
            let enc = encodings[j];
            let key = lookup_key(&cands[i], enc);
            match bundle.get(key.as_str()) {
                Some(d) => {
                    assert(cands@[i as int]@ == cs[i as int]);
                    assert(first_encoding_hit(files, cs[i as int], es, j as int) == Some(j as int));
                    assert(first_hit(files, cs, es, i as int) == Some((i as int, j as int)));
                    let asset = Asset::from_embedded(cands[i].clone(), d.clone(), enc);
                    assert(asset.data@ =~= d@);
                    assert(enc == es[j as int]);
                    assert(key@ == lookup_name(cs[i as int], es[j as int]));
                    assert(asset.path@ == cs[i as int]);
                    assert(asset.data@ == files[stored_key(cs[i as int], es[j as int])]);
                    assert(resolution(files, path@, es) == Some((cs[i as int], files[stored_key(cs[i as int], es[j as int])], es[j as int])));
                    return Some(asset);
                },
                None => {},
            }
            j = j + 1;
        }
        i = i + 1;
    }
    None
}

/// Looks up a file using the default encoding order (brotli, then gzip,
/// then raw).
pub fn resolve(bundle: &Bundle, path: &str) -> (r: Option<Asset>)
    ensures
        opt_asset_view(r) == resolution(bundle@, path@, default_encodings()),
{
    let encs = DEFAULT_ENCODINGS;
    let r = resolve_with(bundle, path, encs.as_slice());
    assert(encs@ =~= default_encodings());
    r
}

proof fn lemma_first_encoding_hit_some(
    files: Map<Seq<char>, Seq<u8>>,
    c: Seq<char>,
    encs: Seq<Encoding>,
    j: int,
    k: int,
)
    requires
        0 <= j <= k < encs.len(),
        files.contains_key(stored_key(c, encs[k])),
    ensures
        first_encoding_hit(files, c, encs, j) is Some,
    decreases k - j,
{
    if !files.contains_key(stored_key(c, encs[j])) {
        lemma_first_encoding_hit_some(files, c, encs, j + 1, k);
    }
}

proof fn lemma_first_hit_some(
    files: Map<Seq<char>, Seq<u8>>,
    cands: Seq<Seq<char>>,
    encs: Seq<Encoding>,
    i: int,
    k: int,
)
    requires
        0 <= i <= k < cands.len(),
        first_encoding_hit(files, cands[k], encs, 0) is Some,
    ensures
        first_hit(files, cands, encs, i) is Some,
    decreases k - i,
{
    if first_encoding_hit(files, cands[i], encs, 0) is None {
        lemma_first_hit_some(files, cands, encs, i + 1, k);
    }
}

/// The SPA fallback: when the bundle stores `index.html` in one of the
/// encodings tried, every request path resolves to some asset.
pub proof fn law_spa_fallback(files: Map<Seq<char>, Seq<u8>>, path: Seq<char>, encs: Seq<Encoding>, k: int)
    requires
        0 <= k < encs.len(),
        files.contains_key(stored_key("index.html"@, encs[k])),
    ensures
        resolution(files, path, encs) is Some,
{
    let cands = candidates(path);
    assert(cands[3] == "index.html"@);
    lemma_first_encoding_hit_some(files, cands[3], encs, 0, k);
    lemma_first_hit_some(files, cands, encs, 0, 3);
}

/// A leading slash makes no difference: `/p` resolves exactly as `p` does.
pub proof fn law_leading_slash_ignored(
    files: Map<Seq<char>, Seq<u8>>,
    path: Seq<char>,
    encs: Seq<Encoding>,
)
    ensures
        resolution(files, seq!['/'] + path, encs) == resolution(files, path, encs),
{
    let q = seq!['/'] + path;
    assert(q[0] == '/');
    assert(q.drop_first() =~= path);
    assert(trim_start_slashes(q) == trim_start_slashes(path));
    assert(candidates(q) == candidates(path));
}

/// A path made only of slashes (the empty path among them) resolves exactly
/// as `index.html` does.
pub proof fn law_root_is_index(files: Map<Seq<char>, Seq<u8>>, path: Seq<char>, encs: Seq<Encoding>)
    requires
        forall|i: int| 0 <= i < path.len() ==> path[i] == '/',
    ensures
        resolution(files, path, encs) == resolution(files, "index.html"@, encs),
{
    lemma_trim_start_slashes(path, path.len() as int);
    assert(path.skip(path.len() as int) =~= Seq::<char>::empty());
    reveal_strlit("index.html");
    let ix = "index.html"@;
    lemma_trim_start_slashes(ix, 0);
    assert(ix.skip(0) =~= ix);
    assert(normalized_path(path) == normalized_path(ix));
    assert(candidates(path) == candidates(ix));
}

/// `resolution` picks the first hit in lookup order: the candidate with the
/// smallest position stored in some tried encoding, and for it the first
/// such encoding; nothing earlier in that order is stored.
pub proof fn law_resolution_is_first_hit(
    files: Map<Seq<char>, Seq<u8>>,
    path: Seq<char>,
    encs: Seq<Encoding>,
)
    ensures
        match resolution(files, path, encs) {
            Some(a) => exists|i: int, j: int|
                {
                    &&& 0 <= i < 4
                    &&& 0 <= j < encs.len()
                    &&& a == (candidates(path)[i], files[stored_key(candidates(path)[i], encs[j])], encs[j])
                    &&& files.contains_key(stored_key(candidates(path)[i], encs[j]))
                    &&& forall|j2: int| 0 <= j2 < j ==> !files.contains_key(
                        #[trigger] stored_key(candidates(path)[i], encs[j2]),
                    )
                    &&& forall|i2: int, j2: int| 0 <= i2 < i && 0 <= j2 < encs.len() ==> !files.contains_key(
                        #[trigger] stored_key(candidates(path)[i2], encs[j2]),
                    )
                },
            None => forall|i: int, j: int| 0 <= i < 4 && 0 <= j < encs.len() ==> !files.contains_key(
                #[trigger] stored_key(candidates(path)[i], encs[j]),
            ),
        },
{
    let cands = candidates(path);
    lemma_first_hit_spec(files, cands, encs, 0);
}

proof fn lemma_first_encoding_hit_spec(
    files: Map<Seq<char>, Seq<u8>>,
    c: Seq<char>,
    encs: Seq<Encoding>,
    j0: int,
)
    requires
        0 <= j0 <= encs.len(),
    ensures
        match first_encoding_hit(files, c, encs, j0) {
            Some(j) => j0 <= j < encs.len() && files.contains_key(stored_key(c, encs[j])) && forall|
                j2: int,
            | j0 <= j2 < j ==> !files.contains_key(#[trigger] stored_key(c, encs[j2])),
            None => forall|j2: int| j0 <= j2 < encs.len() ==> !files.contains_key(
                #[trigger] stored_key(c, encs[j2]),
            ),
        },
    decreases encs.len() - j0,
{
    if j0 < encs.len() && !files.contains_key(stored_key(c, encs[j0])) {
        lemma_first_encoding_hit_spec(files, c, encs, j0 + 1);
    }
}

proof fn lemma_first_hit_spec(
    files: Map<Seq<char>, Seq<u8>>,
    cands: Seq<Seq<char>>,
    encs: Seq<Encoding>,
    i0: int,
)
    requires
        0 <= i0 <= cands.len(),
    ensures
        match first_hit(files, cands, encs, i0) {
            Some((i, j)) => {
                &&& i0 <= i < cands.len()
                &&& 0 <= j < encs.len()
                &&& files.contains_key(stored_key(cands[i], encs[j]))
                &&& forall|j2: int| 0 <= j2 < j ==> !files.contains_key(#[trigger] stored_key(cands[i], encs[j2]))
                &&& forall|i2: int, j2: int| i0 <= i2 < i && 0 <= j2 < encs.len() ==> !files.contains_key(
                    #[trigger] stored_key(cands[i2], encs[j2]),
                )
            },
            None => forall|i2: int, j2: int| i0 <= i2 < cands.len() && 0 <= j2 < encs.len() ==> !files.contains_key(
                #[trigger] stored_key(cands[i2], encs[j2]),
            ),
        },
    decreases cands.len() - i0,
{
    if i0 < cands.len() {
        lemma_first_encoding_hit_spec(files, cands[i0], encs, 0);
        if first_encoding_hit(files, cands[i0], encs, 0) is None {
            lemma_first_hit_spec(files, cands, encs, i0 + 1);
        }
    }
}

/// A trailing slash only changes the exact-path candidate: when neither `p`
/// nor `p/` is stored (in any encoding tried), `p/` resolves exactly as `p`
/// does (so `/app/` and `/app` both reach `app/index.html`).
pub proof fn law_trailing_slash(files: Map<Seq<char>, Seq<u8>>, p: Seq<char>, encs: Seq<Encoding>)
    requires
        trim_start_slashes(p).len() > 0,
        forall|j: int| 0 <= j < encs.len() ==> !files.contains_key(
            #[trigger] stored_key(normalized_path(p), encs[j]),
        ),
        forall|j: int| 0 <= j < encs.len() ==> !files.contains_key(
            #[trigger] stored_key(normalized_path(p + seq!['/']), encs[j]),
        ),
    ensures
        resolution(files, p + seq!['/'], encs) == resolution(files, p, encs),
{
    lemma_first_encoding_hit_spec(files, normalized_path(p), encs, 0);
    lemma_first_encoding_hit_spec(files, normalized_path(p + seq!['/']), encs, 0);
    let q = p + seq!['/'];
    lemma_trim_start_slashes_append(p);
    let np = trim_start_slashes(p);
    let nq = trim_start_slashes(q);
    assert(nq == np + seq!['/']);
    assert(nq.last() == '/');
    assert(nq.drop_last() =~= np);
    assert(trim_end_slashes(nq) == trim_end_slashes(np));
    let cp = candidates(p);
    let cq = candidates(q);
    assert(cp[1] == cq[1] && cp[2] == cq[2] && cp[3] == cq[3]);
    assert(first_hit(files, cp, encs, 1) == first_hit(files, cq, encs, 1)) by {
        assert(first_hit(files, cp, encs, 4) == first_hit(files, cq, encs, 4));
        assert(first_hit(files, cp, encs, 3) == first_hit(files, cq, encs, 3));
        assert(first_hit(files, cp, encs, 2) == first_hit(files, cq, encs, 2));
    }
}

/// Removing leading slashes from `p + "/"` leaves the same as from `p`,
/// followed by the slash, when `p` is not all slashes.
proof fn lemma_trim_start_slashes_append(p: Seq<char>)
    requires
        trim_start_slashes(p).len() > 0,
    ensures
        trim_start_slashes(p + seq!['/']) == trim_start_slashes(p) + seq!['/'],
    decreases p.len(),
{
    let q = p + seq!['/'];
    if p.len() > 0 && p[0] == '/' {
        assert(q[0] == '/');
        assert(q.drop_first() =~= p.drop_first() + seq!['/']);
        lemma_trim_start_slashes_append(p.drop_first());
    } else {
        if p.len() == 0 {
            assert(false);
        }
        assert(q[0] == p[0]);
    }
}

/// The encoding of a resolved asset is one of those tried, and the asset
/// is stored under that encoding's name.
pub proof fn law_resolved_encoding_is_offered(
    files: Map<Seq<char>, Seq<u8>>,
    path: Seq<char>,
    encs: Seq<Encoding>,
)
    ensures
        resolution(files, path, encs) matches Some(a) ==> encs.contains(a.2) && files.contains_key(
            stored_key(a.0, a.2),
        ),
{
    lemma_first_hit_spec(files, candidates(path), encs, 0);
    if let Some((i, j)) = first_hit(files, candidates(path), encs, 0) {
        assert(0 <= j < encs.len());
    }
}

/// Offering more encodings never loses a match, nor moves it to a later
/// candidate: when every encoding of `e1` is also in `e2`, a request that
/// resolves with `e1` resolves with `e2`; and when the candidate found with
/// `e2` is stored in some encoding of `e1`, resolution with `e1` finds that
/// same candidate.
pub proof fn law_more_encodings_never_lose_a_match(
    files: Map<Seq<char>, Seq<u8>>,
    path: Seq<char>,
    e1: Seq<Encoding>,
    e2: Seq<Encoding>,
)
    requires
        forall|j: int| 0 <= j < e1.len() ==> e2.contains(#[trigger] e1[j]),
    ensures
        resolution(files, path, e1) is Some ==> resolution(files, path, e2) is Some,
        resolution(files, path, e2) is Some && (exists|j: int|
            0 <= j < e1.len() && files.contains_key(
                #[trigger] stored_key((resolution(files, path, e2)->0).0, e1[j]),
            )) ==> resolution(files, path, e1) is Some && (resolution(files, path, e1)->0).0 == (
            resolution(files, path, e2)->0).0,
{
    let cands = candidates(path);
    lemma_first_hit_spec(files, cands, e1, 0);
    lemma_first_hit_spec(files, cands, e2, 0);
    if let Some((i1, j1)) = first_hit(files, cands, e1, 0) {
        assert(e2.contains(e1[j1]));
        let k = choose|k: int| 0 <= k < e2.len() && e2[k] == e1[j1];
        assert(files.contains_key(stored_key(cands[i1], e2[k])));
        if let Some((i2, j2)) = first_hit(files, cands, e2, 0) {
            assert(i2 <= i1);
            if exists|j: int| 0 <= j < e1.len() && files.contains_key(#[trigger] stored_key(cands[i2], e1[j])) {
                let j = choose|j: int| 0 <= j < e1.len() && files.contains_key(#[trigger] stored_key(cands[i2], e1[j]));
                assert(i1 <= i2);
            }
        }
    } else {
        if let Some((i2, j2)) = first_hit(files, cands, e2, 0) {
            if exists|j: int| 0 <= j < e1.len() && files.contains_key(#[trigger] stored_key(cands[i2], e1[j])) {
                let j = choose|j: int| 0 <= j < e1.len() && files.contains_key(#[trigger] stored_key(cands[i2], e1[j]));
                assert(!files.contains_key(stored_key(cands[i2], e1[j])));
            }
        }
    }
}

/// A stored file is served for its own path: when a raw file named `n` (no
/// leading `/`, no backslash) is stored and the raw encoding is tried
/// first, a request for `/n` resolves to that file, with its own bytes.
pub proof fn law_stored_path_found(files: Map<Seq<char>, Seq<u8>>, n: Seq<char>, encs: Seq<Encoding>)
    requires
        n.len() > 0,
        n[0] != '/',
        forall|i: int| 0 <= i < n.len() ==> n[i] != '\\',
        encs.len() > 0,
        encs[0] == Encoding::Identity,
        files.contains_key(n),
    ensures
        resolution(files, seq!['/'] + n, encs) == Some((n, files[n], Encoding::Identity)),
{
    law_leading_slash_ignored(files, n, encs);
    assert(trim_start_slashes(n) == n);
    assert(embedded_key(n) =~= n);
    let cands = candidates(n);
    assert(cands[0] == n);
    assert(stored_key(n, Encoding::Identity) == n);
    assert(first_encoding_hit(files, cands[0], encs, 0) == Some(0int));
}

} // verus!
