//! Parsing of the `Accept-Encoding` request header.

use vstd::prelude::*;

verus! {

/// A byte that `HeaderValue::to_str` accepts: visible ASCII or a tab.
pub open spec fn is_visible_ascii(b: u8) -> bool {
    (32 <= b && b < 127) || b == 9
}

/// Every byte of the header value is visible ASCII (or a tab).
pub open spec fn all_visible_ascii(s: Seq<u8>) -> bool {
    forall|i: int| 0 <= i < s.len() ==> is_visible_ascii(#[trigger] s[i])
}

/// An ASCII byte that `char::is_whitespace` holds of.
pub open spec fn is_whitespace(b: u8) -> bool {
    b == 32 || (9 <= b && b <= 13)
}

/// The pieces of `s` between commas, as `str::split(',')` yields them
/// (an empty input gives one empty piece).
pub open spec fn split_commas(s: Seq<u8>) -> Seq<Seq<u8>>
    decreases s.len(),
{
    if s.len() == 0 {
        seq![Seq::<u8>::empty()]
    } else {
        let p = split_commas(s.drop_last());
        if s.last() == 44u8 {
            p.push(Seq::<u8>::empty())
        } else {
            p.update(p.len() - 1, p.last().push(s.last()))
        }
    }
}

/// The part of a piece before its first `;` (its parameters dropped).
pub open spec fn before_semicolon(seg: Seq<u8>) -> Seq<u8>
    decreases seg.len(),
{
    if seg.len() == 0 {
        seg
    } else if seg[0] == 59u8 {
        Seq::<u8>::empty()
    } else {
        seq![seg[0]] + before_semicolon(seg.drop_first())
    }
}

/// `s` without its leading whitespace.
pub open spec fn trim_start_ws(s: Seq<u8>) -> Seq<u8>
    decreases s.len(),
{
    if s.len() > 0 && is_whitespace(s[0]) {
        trim_start_ws(s.drop_first())
    } else {
        s
    }
}

/// `s` without its trailing whitespace.
pub open spec fn trim_end_ws(s: Seq<u8>) -> Seq<u8>
    decreases s.len(),
{
    if s.len() > 0 && is_whitespace(s.last()) {
        trim_end_ws(s.drop_last())
    } else {
        s
    }
}

/// The coding name of one comma-separated piece: the part before any `;`,
/// trimmed of whitespace on both sides.
pub open spec fn token_of(seg: Seq<u8>) -> Seq<u8> {
    trim_end_ws(trim_start_ws(before_semicolon(seg)))
}

/// ASCII lower-casing of one byte.
pub open spec fn ascii_lower(b: u8) -> u8 {
    if 65 <= b && b <= 90 {
        (b + 32) as u8
    } else {
        b
    }
}

/// `str::eq_ignore_ascii_case` on byte sequences.
pub open spec fn eq_ignore_ascii_case(a: Seq<u8>, b: Seq<u8>) -> bool {
    &&& a.len() == b.len()
    &&& forall|i: int| 0 <= i < a.len() ==> ascii_lower(#[trigger] a[i]) == ascii_lower(b[i])
}

/// The coding name `gzip`.
pub open spec fn gzip_name() -> Seq<u8> {
    seq![103u8, 122u8, 105u8, 112u8]
}

/// The coding name `br`.
pub open spec fn br_name() -> Seq<u8> {
    seq![98u8, 114u8]
}

/// Some piece of `segs` has the coding name `name` (ignoring ASCII case).
pub open spec fn lists_name_in(segs: Seq<Seq<u8>>, name: Seq<u8>) -> bool {
    exists|k: int| 0 <= k < segs.len() && eq_ignore_ascii_case(token_of(#[trigger] segs[k]), name)
}

/// The header value `s` lists the coding name `name`.
pub open spec fn lists_name(s: Seq<u8>, name: Seq<u8>) -> bool {
    lists_name_in(split_commas(s), name)
}

/// Which stored encodings the client accepts.
#[derive(Clone, Copy, Debug, PartialEq, Eq, Structural)]
pub struct AcceptedEncodings {
    pub gzip: bool,
    pub brotli: bool,
}

impl Default for AcceptedEncodings {
    /// Accepts nothing.
    fn default() -> (r: Self)
        ensures
            r == (AcceptedEncodings { gzip: false, brotli: false }),
    {
        AcceptedEncodings { gzip: false, brotli: false }
    }
}

/// The view of an optional byte slice.
pub open spec fn opt_bytes_view(o: Option<&[u8]>) -> Option<Seq<u8>> {
    match o {
        Some(s) => Some(s@),
        None => None,
    }
}

/// What a request with the given `Accept-Encoding` value (absent: `None`)
/// accepts. A value that is not visible ASCII counts as absent.
pub open spec fn accepted_encodings(value: Option<Seq<u8>>) -> AcceptedEncodings {
    match value {
        None => AcceptedEncodings { gzip: false, brotli: false },
        Some(s) => if all_visible_ascii(s) {
            AcceptedEncodings { gzip: lists_name(s, gzip_name()), brotli: lists_name(s, br_name()) }
        } else {
            AcceptedEncodings { gzip: false, brotli: false }
        },
    }
}

proof fn lemma_split_commas_nonempty(s: Seq<u8>)
    ensures
        split_commas(s).len() >= 1,
    decreases s.len(),
{
    if s.len() > 0 {
        lemma_split_commas_nonempty(s.drop_last());
    }
}

/// When `x[start..]` holds no comma and `start` begins a piece, the pieces of
/// `x` are the finished pieces of `x[..start]` followed by `x[start..]`.
proof fn lemma_split_commas_tail(x: Seq<u8>, start: int)
    requires
        0 <= start <= x.len(),
        start == 0 || x[start - 1] == 44u8,
        forall|j: int| start <= j < x.len() ==> x[j] != 44u8,
    ensures
        split_commas(x) == split_commas(x.take(start)).drop_last().push(
            x.subrange(start, x.len() as int),
        ),
    decreases x.len(),
{
    lemma_split_commas_nonempty(x);
    if x.len() == start {
        assert(x.take(start) =~= x);
        assert(x.subrange(start, x.len() as int) =~= Seq::<u8>::empty());
        if start == 0 {
            assert(x =~= Seq::<u8>::empty());
            assert(split_commas(x) == seq![Seq::<u8>::empty()]);
            assert(split_commas(x).drop_last() =~= Seq::<Seq<u8>>::empty());
            assert(split_commas(x) =~= split_commas(x).drop_last().push(Seq::<u8>::empty()));
        } else {
            assert(x.last() == 44u8);
            let p = split_commas(x.drop_last());
            assert(split_commas(x) == p.push(Seq::<u8>::empty()));
            assert(p.push(Seq::<u8>::empty()).drop_last() =~= p);
        }
    } else {
        let y = x.drop_last();
        assert(x.last() != 44u8);
        assert(forall|j: int| start <= j < y.len() ==> y[j] == x[j]);
        lemma_split_commas_tail(y, start);
        lemma_split_commas_nonempty(y);
        assert(y.take(start) =~= x.take(start));
        assert(y.subrange(start, y.len() as int).push(x.last()) =~= x.subrange(
            start,
            x.len() as int,
        ));
        assert(split_commas(x) =~= split_commas(x.take(start)).drop_last().push(
            x.subrange(start, x.len() as int),
        ));
    }
}

proof fn lemma_lists_name_push(segs: Seq<Seq<u8>>, seg: Seq<u8>, name: Seq<u8>)
    ensures
        lists_name_in(segs.push(seg), name) == (lists_name_in(segs, name) || eq_ignore_ascii_case(
            token_of(seg),
            name,
        )),
{
    let t = segs.push(seg);
    if lists_name_in(segs, name) {
        let k = choose|k: int|
            0 <= k < segs.len() && eq_ignore_ascii_case(token_of(#[trigger] segs[k]), name);
        assert(t[k] == segs[k]);
    }
    if eq_ignore_ascii_case(token_of(seg), name) {
        assert(t[segs.len() as int] == seg);
    }
    if lists_name_in(t, name) {
        let k = choose|k: int|
            0 <= k < t.len() && eq_ignore_ascii_case(token_of(#[trigger] t[k]), name);
        if k < segs.len() {
            assert(t[k] == segs[k]);
        }
    }
}

proof fn lemma_before_semicolon(seg: Seq<u8>, k: int)
    requires
        0 <= k <= seg.len(),
        forall|i: int| 0 <= i < k ==> seg[i] != 59u8,
        k == seg.len() || seg[k] == 59u8,
    ensures
        before_semicolon(seg) == seg.take(k),
    decreases k,
{
    if k == 0 {
        assert(seg.take(0) =~= Seq::<u8>::empty());
        if seg.len() == 0 {
            assert(seg =~= Seq::<u8>::empty());
        }
    } else {
        let rest = seg.drop_first();
        assert(forall|i: int| 0 <= i < k - 1 ==> rest[i] == seg[i + 1]);
        lemma_before_semicolon(rest, k - 1);
        assert(seq![seg[0]] + rest.take(k - 1) =~= seg.take(k));
    }
}

proof fn lemma_trim_start_ws(x: Seq<u8>, k: int)
    requires
        0 <= k <= x.len(),
        forall|i: int| 0 <= i < k ==> is_whitespace(#[trigger] x[i]),
        k == x.len() || !is_whitespace(x[k]),
    ensures
        trim_start_ws(x) == x.skip(k),
    decreases k,
{
    if k == 0 {
        assert(x.skip(0) =~= x);
    } else {
        let rest = x.drop_first();
        assert(forall|i: int| 0 <= i < k - 1 ==> rest[i] == x[i + 1]);
        assert(is_whitespace(x[0]));
        lemma_trim_start_ws(rest, k - 1);
        assert(rest.skip(k - 1) =~= x.skip(k));
    }
}

proof fn lemma_trim_end_ws(y: Seq<u8>, k: int)
    requires
        0 <= k <= y.len(),
        forall|i: int| k <= i < y.len() ==> is_whitespace(#[trigger] y[i]),
        k == 0 || !is_whitespace(y[k - 1]),
    ensures
        trim_end_ws(y) == y.take(k),
    decreases y.len() - k,
{
    if k == y.len() {
        assert(y.take(k) =~= y);
        if y.len() > 0 {
            assert(!is_whitespace(y.last()));
        }
    } else {
        let rest = y.drop_last();
        assert(is_whitespace(y[y.len() - 1]));
        assert(forall|i: int| k <= i < rest.len() ==> rest[i] == y[i]);
        lemma_trim_end_ws(rest, k);
        assert(rest.take(k) =~= y.take(k));
    }
}

fn is_whitespace_byte(b: u8) -> (r: bool)
    ensures
        r == is_whitespace(b),
{
    b == 32 || (9 <= b && b <= 13)
}

fn ascii_lower_byte(b: u8) -> (r: u8)
    ensures
        r == ascii_lower(b),
{
    if 65 <= b && b <= 90 {
        b + 32
    } else {
        b
    }
}

/// The bounds, within `s[start..end]`, of that piece's coding name.
fn token_bounds(s: &[u8], start: usize, end: usize) -> (res: (usize, usize))
    requires
        start <= end <= s@.len(),
    ensures
        start <= res.0 <= res.1 <= end,
        s@.subrange(res.0 as int, res.1 as int) == token_of(s@.subrange(start as int, end as int)),
{
    let ghost seg = s@.subrange(start as int, end as int);
    let mut e = start;
    while e < end && s[e] != 59u8
        invariant
            start <= e <= end,
            end <= s@.len(),
            forall|i: int| start <= i < e ==> s@[i] != 59u8,
        decreases end - e,
    {
        e = e + 1;
    }
    proof {
        lemma_before_semicolon(seg, e - start);
        assert(seg.take(e - start) =~= s@.subrange(start as int, e as int));
    }
    let ghost bs = s@.subrange(start as int, e as int);
    let mut a = start;
    while a < e && is_whitespace_byte(s[a])
        invariant
            start <= a <= e,
            e <= s@.len(),
            forall|i: int| start <= i < a ==> is_whitespace(#[trigger] s@[i]),
        decreases e - a,
    {
        a = a + 1;
    }
    proof {
        assert(forall|i: int| 0 <= i < a - start ==> bs[i] == s@[start + i]);
        lemma_trim_start_ws(bs, a - start);
        assert(bs.skip(a - start) =~= s@.subrange(a as int, e as int));
    }
    let ghost ts = s@.subrange(a as int, e as int);
    let mut b = e;
    while b > a && is_whitespace_byte(s[b - 1])
        invariant
            a <= b <= e,
            e <= s@.len(),
            forall|i: int| b <= i < e ==> is_whitespace(#[trigger] s@[i]),
        decreases b - a,
    {
        b = b - 1;
    }
    proof {
        assert(forall|i: int| b - a <= i < ts.len() ==> ts[i] == s@[a + i]);
        lemma_trim_end_ws(ts, b - a);
        assert(ts.take(b - a) =~= s@.subrange(a as int, b as int));
    }
    (a, b)
}

/// Whether `s[a..b]` equals `name`, ignoring ASCII case.
fn range_eq_ignore_ascii_case(s: &[u8], a: usize, b: usize, name: &[u8]) -> (r: bool)
    requires
        a <= b <= s@.len(),
    ensures
        r == eq_ignore_ascii_case(s@.subrange(a as int, b as int), name@),
{
    let ghost t = s@.subrange(a as int, b as int);
    if b - a != name.len() {
        return false;
    }
    let mut i: usize = 0;
    while i < name.len()
        invariant
            i <= name@.len(),
            b - a == name@.len(),
            a <= b <= s@.len(),
            t == s@.subrange(a as int, b as int),
            forall|j: int| 0 <= j < i ==> ascii_lower(#[trigger] t[j]) == ascii_lower(name@[j]),
        decreases name@.len() - i,
    {
        if ascii_lower_byte(s[a + i]) != ascii_lower_byte(name[i]) {
            assert(t[i as int] == s@[a + i]);
            return false;
        }
        assert(t[i as int] == s@[a + i]);
        i = i + 1;
    }
    true
}

/// Whether every byte is visible ASCII or a tab (what `HeaderValue::to_str`
/// accepts).
fn is_visible_header(s: &[u8]) -> (r: bool)
    ensures
        r == all_visible_ascii(s@),
{
    let mut i: usize = 0;
    while i < s.len()
        invariant
            i <= s@.len(),
            forall|j: int| 0 <= j < i ==> is_visible_ascii(#[trigger] s@[j]),
        decreases s@.len() - i,
    {
        let b = s[i];
        if !((32 <= b && b < 127) || b == 9) {
            return false;
        }
        i = i + 1;
    }
    true
}

/// Scans the comma-separated codings of a visible-ASCII header value.
fn scan_codings(s: &[u8]) -> (r: AcceptedEncodings)
    ensures
        r.gzip == lists_name(s@, gzip_name()),
        r.brotli == lists_name(s@, br_name()),
{
    let gz: [u8; 4] = [103u8, 122u8, 105u8, 112u8];
    let br: [u8; 2] = [98u8, 114u8];
    let gz_s = gz.as_slice();
    let br_s = br.as_slice();
    assert(gz_s@ =~= gzip_name());
    assert(br_s@ =~= br_name());
    let mut out = AcceptedEncodings { gzip: false, brotli: false };
    let mut start: usize = 0;
    let mut i: usize = 0;
    assert(split_commas(s@.take(0)).drop_last() =~= Seq::<Seq<u8>>::empty()) by {
        assert(s@.take(0) =~= Seq::<u8>::empty());
    }
    while i < s.len()
        invariant
            start <= i <= s@.len(),
            start == 0 || s@[start - 1] == 44u8,
            forall|j: int| start <= j < i ==> s@[j] != 44u8,
            gz_s@ == gzip_name(),
            br_s@ == br_name(),
            out.gzip == lists_name_in(split_commas(s@.take(start as int)).drop_last(), gzip_name()),
            out.brotli == lists_name_in(split_commas(s@.take(start as int)).drop_last(), br_name()),
        decreases s@.len() - i,
    {
        if s[i] == 44u8 {
            let (a, b) = token_bounds(s, start, i);
            let is_gz = range_eq_ignore_ascii_case(s, a, b, gz_s);
            let is_br = range_eq_ignore_ascii_case(s, a, b, br_s);
            proof {
                let x = s@.take(i as int);
                let seg = s@.subrange(start as int, i as int);
                let done = split_commas(s@.take(start as int)).drop_last();
                assert(x.take(start as int) =~= s@.take(start as int));
                assert(x.subrange(start as int, x.len() as int) =~= seg);
                lemma_split_commas_tail(x, start as int);
                assert(s@.take(i + 1).drop_last() =~= x);
                assert(split_commas(s@.take(i + 1)).drop_last() =~= split_commas(x));
                lemma_split_commas_nonempty(x);
                lemma_lists_name_push(done, seg, gzip_name());
                lemma_lists_name_push(done, seg, br_name());
            }
            if is_gz {
                out.gzip = true;
            } else if is_br {
                out.brotli = true;
            }
            start = i + 1;
        }
        i = i + 1;
    }
    let (a, b) = token_bounds(s, start, s.len());
    let is_gz = range_eq_ignore_ascii_case(s, a, b, gz_s);
    let is_br = range_eq_ignore_ascii_case(s, a, b, br_s);
    proof {
        let seg = s@.subrange(start as int, s@.len() as int);
        let done = split_commas(s@.take(start as int)).drop_last();
        lemma_split_commas_tail(s@, start as int);
        lemma_lists_name_push(done, seg, gzip_name());
        lemma_lists_name_push(done, seg, br_name());
    }
    if is_gz {
        out.gzip = true;
    } else if is_br {
        out.brotli = true;
    }
    out
}

/// Parses the `Accept-Encoding` header value (`None` when the request has no
/// such header) into the stored encodings that the client accepts. Each
/// comma-separated coding is taken up to any `;` parameter, trimmed, and
/// compared with `gzip` and `br` ignoring ASCII case; a value that is not
/// visible ASCII accepts nothing.
pub fn parse_accept_encoding(value: Option<&[u8]>) -> (r: AcceptedEncodings)
    ensures
        r == accepted_encodings(opt_bytes_view(value)),
{
    match value {
        None => AcceptedEncodings { gzip: false, brotli: false },
        Some(s) => {
            if !is_visible_header(s) {
                return AcceptedEncodings { gzip: false, brotli: false };
            }
            scan_codings(s)
        },
    }
}

proof fn lemma_split_commas_concat(s1: Seq<u8>, s2: Seq<u8>)
    ensures
        split_commas(s1 + seq![44u8] + s2) == split_commas(s1) + split_commas(s2),
    decreases s2.len(),
{
    let x = s1 + seq![44u8] + s2;
    let a = split_commas(s1);
    lemma_split_commas_nonempty(s1);
    if s2.len() == 0 {
        assert(x.drop_last() =~= s1);
        assert(x.last() == 44u8);
        assert(split_commas(s2) == seq![Seq::<u8>::empty()]);
        assert(split_commas(x) =~= a + split_commas(s2));
    } else {
        let y = s2.drop_last();
        assert(x.drop_last() =~= s1 + seq![44u8] + y);
        assert(x.last() == s2.last());
        lemma_split_commas_concat(s1, y);
        lemma_split_commas_nonempty(y);
        let b = split_commas(y);
        if s2.last() == 44u8 {
            assert(split_commas(x) =~= a + split_commas(s2));
        } else {
            let p = a + b;
            assert(p.last() == b.last());
            assert(p.update(p.len() - 1, p.last().push(x.last())) =~= a + b.update(
                b.len() - 1,
                b.last().push(s2.last()),
            ));
            assert(split_commas(x) =~= a + split_commas(s2));
        }
    }
}

proof fn lemma_lists_name_concat(a: Seq<Seq<u8>>, b: Seq<Seq<u8>>, name: Seq<u8>)
    ensures
        lists_name_in(a + b, name) == (lists_name_in(a, name) || lists_name_in(b, name)),
{
    let t = a + b;
    if lists_name_in(a, name) {
        let k = choose|k: int| 0 <= k < a.len() && eq_ignore_ascii_case(token_of(#[trigger] a[k]), name);
        assert(t[k] == a[k]);
    }
    if lists_name_in(b, name) {
        let k = choose|k: int| 0 <= k < b.len() && eq_ignore_ascii_case(token_of(#[trigger] b[k]), name);
        assert(t[a.len() + k] == b[k]);
    }
    if lists_name_in(t, name) {
        let k = choose|k: int| 0 <= k < t.len() && eq_ignore_ascii_case(token_of(#[trigger] t[k]), name);
        if k < a.len() {
            assert(t[k] == a[k]);
        } else {
            assert(t[k] == b[k - a.len()]);
        }
    }
}

/// A header value is the union of its comma-separated parts: a client that
/// sends `s1,s2` accepts what `s1` or `s2` accepts.
pub proof fn law_comma_union(s1: Seq<u8>, s2: Seq<u8>)
    requires
        all_visible_ascii(s1),
        all_visible_ascii(s2),
    ensures
        accepted_encodings(Some(s1 + seq![44u8] + s2)).gzip == (accepted_encodings(Some(s1)).gzip
            || accepted_encodings(Some(s2)).gzip),
        accepted_encodings(Some(s1 + seq![44u8] + s2)).brotli == (accepted_encodings(Some(s1)).brotli
            || accepted_encodings(Some(s2)).brotli),
{
    let x = s1 + seq![44u8] + s2;
    assert forall|i: int| 0 <= i < x.len() implies is_visible_ascii(#[trigger] x[i]) by {
        if i < s1.len() {
            assert(x[i] == s1[i]);
        } else if i > s1.len() {
            assert(x[i] == s2[i - s1.len() - 1]);
        }
    }
    lemma_split_commas_concat(s1, s2);
    lemma_lists_name_concat(split_commas(s1), split_commas(s2), gzip_name());
    lemma_lists_name_concat(split_commas(s1), split_commas(s2), br_name());
}

/// A comma-free value is a single piece.
proof fn lemma_split_commas_single(x: Seq<u8>)
    requires
        forall|j: int| 0 <= j < x.len() ==> x[j] != 44u8,
    ensures
        split_commas(x) == seq![x],
{
    lemma_split_commas_tail(x, 0);
    assert(x.take(0) =~= Seq::<u8>::empty());
    assert(split_commas(x.take(0)) == seq![Seq::<u8>::empty()]);
    assert(x.subrange(0, x.len() as int) =~= x);
    assert(split_commas(x) =~= seq![x]);
}

/// Parameters after a `;` do not matter: `name;params` is accepted exactly
/// as `name` is (for a coding free of `,` and `;`, and parameters free of
/// `,`).
pub proof fn law_parameters_ignored(name: Seq<u8>, params: Seq<u8>)
    requires
        all_visible_ascii(name),
        all_visible_ascii(params),
        forall|j: int| 0 <= j < name.len() ==> name[j] != 44u8 && name[j] != 59u8,
        forall|j: int| 0 <= j < params.len() ==> params[j] != 44u8,
    ensures
        accepted_encodings(Some(name + seq![59u8] + params)) == accepted_encodings(Some(name)),
{
    let x = name + seq![59u8] + params;
    assert forall|i: int| 0 <= i < x.len() implies is_visible_ascii(#[trigger] x[i]) && x[i] != 44u8 by {
        if i < name.len() {
            assert(x[i] == name[i]);
        } else if i > name.len() {
            assert(x[i] == params[i - name.len() - 1]);
        }
    }
    lemma_split_commas_single(x);
    lemma_split_commas_single(name);
    assert(forall|j: int| 0 <= j < name.len() ==> x[j] == name[j]);
    lemma_before_semicolon(x, name.len() as int);
    lemma_before_semicolon(name, name.len() as int);
    assert(x.take(name.len() as int) =~= name);
    assert(name.take(name.len() as int) =~= name);
    assert(token_of(x) == token_of(name));
    let sx = split_commas(x);
    let sn = split_commas(name);
    assert(sx[0] == x);
    assert(sn[0] == name);
    assert(lists_name_in(sx, gzip_name()) == lists_name_in(sn, gzip_name()));
    assert(lists_name_in(sx, br_name()) == lists_name_in(sn, br_name()));
}

/// ASCII lower-casing of every byte.
pub open spec fn ascii_lowercase(s: Seq<u8>) -> Seq<u8> {
    s.map_values(|b: u8| ascii_lower(b))
}

proof fn lemma_lowercase_drop_last(s: Seq<u8>)
    requires
        s.len() > 0,
    ensures
        ascii_lowercase(s).drop_last() == ascii_lowercase(s.drop_last()),
        ascii_lowercase(s).last() == ascii_lower(s.last()),
{
    assert(ascii_lowercase(s).drop_last() =~= ascii_lowercase(s.drop_last()));
}

proof fn lemma_lowercase_drop_first(s: Seq<u8>)
    requires
        s.len() > 0,
    ensures
        ascii_lowercase(s).drop_first() == ascii_lowercase(s.drop_first()),
        ascii_lowercase(s)[0] == ascii_lower(s[0]),
{
    assert(ascii_lowercase(s).drop_first() =~= ascii_lowercase(s.drop_first()));
}

proof fn lemma_split_commas_lowercase(s: Seq<u8>)
    ensures
        split_commas(ascii_lowercase(s)) == split_commas(s).map_values(|x: Seq<u8>| ascii_lowercase(x)),
    decreases s.len(),
{
    let l = ascii_lowercase(s);
    if s.len() == 0 {
        assert(l =~= Seq::<u8>::empty());
        assert(ascii_lowercase(Seq::<u8>::empty()) =~= Seq::<u8>::empty());
        assert(split_commas(l) =~= split_commas(s).map_values(|x: Seq<u8>| ascii_lowercase(x)));
    } else {
        lemma_lowercase_drop_last(s);
        lemma_split_commas_lowercase(s.drop_last());
        lemma_split_commas_nonempty(s.drop_last());
        let p = split_commas(s.drop_last());
        let pl = p.map_values(|x: Seq<u8>| ascii_lowercase(x));
        if s.last() == 44u8 {
            assert(ascii_lowercase(Seq::<u8>::empty()) =~= Seq::<u8>::empty());
            assert(split_commas(l) =~= split_commas(s).map_values(|x: Seq<u8>| ascii_lowercase(x)));
        } else {
            assert(ascii_lower(s.last()) != 44u8);
            assert(ascii_lowercase(p.last().push(s.last())) =~= ascii_lowercase(p.last()).push(
                ascii_lower(s.last()),
            ));
            assert(pl.last() == ascii_lowercase(p.last()));
            assert(split_commas(l) =~= split_commas(s).map_values(|x: Seq<u8>| ascii_lowercase(x)));
        }
    }
}

proof fn lemma_before_semicolon_lowercase(x: Seq<u8>)
    ensures
        before_semicolon(ascii_lowercase(x)) == ascii_lowercase(before_semicolon(x)),
    decreases x.len(),
{
    if x.len() == 0 {
        assert(ascii_lowercase(x) =~= x);
    } else {
        lemma_lowercase_drop_first(x);
        if x[0] == 59u8 {
            assert(ascii_lowercase(Seq::<u8>::empty()) =~= Seq::<u8>::empty());
        } else {
            lemma_before_semicolon_lowercase(x.drop_first());
            assert(ascii_lowercase(seq![x[0]] + before_semicolon(x.drop_first())) =~= seq![
                ascii_lower(x[0]),
            ] + ascii_lowercase(before_semicolon(x.drop_first())));
        }
    }
}

proof fn lemma_trim_start_lowercase(x: Seq<u8>)
    ensures
        trim_start_ws(ascii_lowercase(x)) == ascii_lowercase(trim_start_ws(x)),
    decreases x.len(),
{
    if x.len() > 0 {
        lemma_lowercase_drop_first(x);
        if is_whitespace(x[0]) {
            lemma_trim_start_lowercase(x.drop_first());
        }
    }
}

proof fn lemma_trim_end_lowercase(x: Seq<u8>)
    ensures
        trim_end_ws(ascii_lowercase(x)) == ascii_lowercase(trim_end_ws(x)),
    decreases x.len(),
{
    if x.len() > 0 {
        lemma_lowercase_drop_last(x);
        if is_whitespace(x.last()) {
            lemma_trim_end_lowercase(x.drop_last());
        }
    }
}

proof fn lemma_token_lowercase(x: Seq<u8>, name: Seq<u8>)
    ensures
        eq_ignore_ascii_case(token_of(ascii_lowercase(x)), name) == eq_ignore_ascii_case(token_of(x), name),
{
    lemma_before_semicolon_lowercase(x);
    lemma_trim_start_lowercase(before_semicolon(x));
    lemma_trim_end_lowercase(trim_start_ws(before_semicolon(x)));
    let t = token_of(x);
    assert(token_of(ascii_lowercase(x)) == ascii_lowercase(t));
    let lt = ascii_lowercase(t);
    assert forall|i: int| 0 <= i < t.len() implies ascii_lower(#[trigger] lt[i]) == ascii_lower(t[i]) by {
        assert(lt[i] == ascii_lower(t[i]));
    }
    if eq_ignore_ascii_case(t, name) {
        assert forall|i: int| 0 <= i < lt.len() implies ascii_lower(#[trigger] lt[i]) == ascii_lower(name[i]) by {
            assert(ascii_lower(t[i]) == ascii_lower(name[i]));
        }
    }
    if eq_ignore_ascii_case(lt, name) {
        assert forall|i: int| 0 <= i < t.len() implies ascii_lower(#[trigger] t[i]) == ascii_lower(name[i]) by {
            assert(ascii_lower(lt[i]) == ascii_lower(name[i]));
        }
    }
}

proof fn lemma_accepted_lowercase(s: Seq<u8>)
    ensures
        accepted_encodings(Some(ascii_lowercase(s))) == accepted_encodings(Some(s)),
{
    let l = ascii_lowercase(s);
    assert(all_visible_ascii(l) == all_visible_ascii(s)) by {
        if all_visible_ascii(s) {
            assert forall|i: int| 0 <= i < l.len() implies is_visible_ascii(#[trigger] l[i]) by {
                assert(is_visible_ascii(s[i]));
            }
        }
        if all_visible_ascii(l) {
            assert forall|i: int| 0 <= i < s.len() implies is_visible_ascii(#[trigger] s[i]) by {
                assert(is_visible_ascii(l[i]));
            }
        }
    }
    lemma_split_commas_lowercase(s);
    let segs = split_commas(s);
    let lsegs = split_commas(l);
    assert forall|name: Seq<u8>| #[trigger] lists_name_in(lsegs, name) == lists_name_in(segs, name) by {
        if lists_name_in(segs, name) {
            let k = choose|k: int| 0 <= k < segs.len() && eq_ignore_ascii_case(token_of(#[trigger] segs[k]), name);
            lemma_token_lowercase(segs[k], name);
            assert(lsegs[k] == ascii_lowercase(segs[k]));
        }
        if lists_name_in(lsegs, name) {
            let k = choose|k: int| 0 <= k < lsegs.len() && eq_ignore_ascii_case(token_of(#[trigger] lsegs[k]), name);
            lemma_token_lowercase(segs[k], name);
            assert(lsegs[k] == ascii_lowercase(segs[k]));
        }
    }
}

/// Coding names are compared ignoring ASCII case: two header values that
/// differ only in the case of ASCII letters are accepted alike.
pub proof fn law_case_insensitive(s: Seq<u8>, t: Seq<u8>)
    requires
        s.len() == t.len(),
        forall|i: int| 0 <= i < s.len() ==> ascii_lower(#[trigger] s[i]) == ascii_lower(t[i]),
    ensures
        accepted_encodings(Some(s)) == accepted_encodings(Some(t)),
{
    lemma_accepted_lowercase(s);
    lemma_accepted_lowercase(t);
    assert(ascii_lowercase(s) =~= ascii_lowercase(t));
}

} // verus!
