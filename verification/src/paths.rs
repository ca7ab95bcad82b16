//! Character-level helpers on request paths.

use vstd::prelude::*;

verus! {

/// The characters of `s`, in one pass.
pub fn chars_of(s: &str) -> (v: Vec<char>)
    ensures
        v@ == s@,
{
    let mut v: Vec<char> = Vec::new();
    for c in it: s.chars()
        invariant
            v@ == it.seq().take(it.index() as int),
    {
        v.push(c);
    }
    v
}

/// Whether two character lists are equal.
pub fn chars_equal(a: &Vec<char>, b: &Vec<char>) -> (r: bool)
    ensures
        r == (a@ == b@),
{
    if a.len() != b.len() {
        return false;
    }
    let mut i: usize = 0;
    while i < a.len()
        invariant
            i <= a@.len(),
            a@.len() == b@.len(),
            forall|j: int| 0 <= j < i ==> a@[j] == b@[j],
        decreases a@.len() - i,
    {
        if a[i] != b[i] {
            return false;
        }
        i = i + 1;
    }
    assert(a@ =~= b@);
    true
}

/// The position just after the last `c` in `p` (0 when `p` holds none).
pub open spec fn after_last(p: Seq<char>, c: char) -> int
    decreases p.len(),
{
    if p.len() == 0 {
        0
    } else if p.last() == c {
        p.len() as int
    } else {
        after_last(p.drop_last(), c)
    }
}

/// The position after the last `c` lies within `p`.
pub proof fn lemma_after_last_bounds(p: Seq<char>, c: char)
    ensures
        0 <= after_last(p, c) <= p.len(),
    decreases p.len(),
{
    if p.len() > 0 && p.last() != c {
        lemma_after_last_bounds(p.drop_last(), c);
    }
}

proof fn lemma_after_last(p: Seq<char>, c: char, k: int)
    requires
        0 <= k <= p.len(),
        k == 0 || p[k - 1] == c,
        forall|i: int| k <= i < p.len() ==> #[trigger] p[i] != c,
    ensures
        after_last(p, c) == k,
    decreases p.len(),
{
    if k < p.len() {
        assert(p.last() != c);
        assert(forall|i: int| k <= i < p.len() - 1 ==> p.drop_last()[i] == p[i]);
        lemma_after_last(p.drop_last(), c, k);
    }
}

/// The final component of `p` as `Path::file_name` finds it on Unix: the
/// last `/`-separated piece that is neither empty nor `.`; none when that
/// piece is `..` or when there is no such piece.
pub open spec fn file_name(p: Seq<char>) -> Option<Seq<char>>
    decreases p.len(),
{
    let k = after_last(p, '/');
    let piece = p.skip(k);
    if piece.len() == 0 || piece == seq!['.'] {
        if k == 0 {
            None
        } else {
            proof {
                lemma_after_last_bounds(p, '/');
            }
            file_name(p.take(k - 1))
        }
    } else if piece == seq!['.', '.'] {
        None
    } else {
        Some(piece)
    }
}

/// The extension of a file name as `Path::extension` takes it: what follows
/// the last `.`, unless there is no `.` or the only one begins the name.
pub open spec fn name_extension(name: Seq<char>) -> Option<Seq<char>> {
    let j = after_last(name, '.');
    if j <= 1 {
        None
    } else {
        Some(name.skip(j))
    }
}

/// The extension of the path `p`, as `Path::extension` finds it on Unix.
pub open spec fn path_extension(p: Seq<char>) -> Option<Seq<char>> {
    match file_name(p) {
        Some(n) => name_extension(n),
        None => None,
    }
}

/// The extension of `path`, as `Path::extension` finds it on Unix (where
/// only `/` separates components).
pub fn extension_of_path(path: &str) -> (r: Option<&str>)
    ensures
        match r {
            Some(e) => path_extension(path@) == Some(e@),
            None => path_extension(path@) is None,
        },
{
    let cs = chars_of(path);
    let ghost p = path@;
    let mut end: usize = cs.len();
    assert(p.take(end as int) =~= p);
    loop
        invariant
            end <= cs@.len(),
            cs@ == p,
            p == path@,
            file_name(p) == file_name(p.take(end as int)),
        decreases end,
    {
        let ghost q = p.take(end as int);
        let mut k: usize = end;
        while k > 0 && cs[k - 1] != '/'
            invariant
                k <= end <= cs@.len(),
                cs@ == p,
                forall|i: int| k <= i < end ==> #[trigger] p[i] != '/',
            decreases k,
        {
            k = k - 1;
        }
        proof {
            assert(forall|i: int| k <= i < q.len() ==> q[i] == p[i]);
            lemma_after_last(q, '/', k as int);
        }
        let ghost piece = q.skip(k as int);
        assert(piece =~= p.subrange(k as int, end as int));
        let plen = end - k;
        if plen == 0 || (plen == 1 && cs[k] == '.') {
            proof {
                if plen == 1 {
                    assert(piece =~= seq!['.']);
                }
            }
            if k == 0 {
                return None;
            }
            proof {
                assert(q.take(k - 1) =~= p.take(k - 1));
            }
            end = k - 1;
        } else {
            proof {
                if plen == 1 {
                    assert(piece != seq!['.']) by {
                        assert(piece[0] != seq!['.'][0]);
                    }
                }
            }
            if plen == 2 && cs[k] == '.' && cs[k + 1] == '.' {
                assert(piece =~= seq!['.', '.']);
                return None;
            }
            proof {
                if plen == 2 {
                    assert(piece != seq!['.', '.']) by {
                        if piece[0] == '.' {
                            assert(piece[1] != seq!['.', '.'][1]);
                        } else {
                            assert(piece[0] != seq!['.', '.'][0]);
                        }
                    }
                }
                assert(file_name(p) == Some(piece));
            }
            let mut j: usize = end;
            while j > k && cs[j - 1] != '.'
                invariant
                    k <= j <= end <= cs@.len(),
                    cs@ == p,
                    forall|i: int| j <= i < end ==> #[trigger] p[i] != '.',
                decreases j,
            {
                j = j - 1;
            }
            proof {
                assert(forall|i: int| j - k <= i < piece.len() ==> piece[i] == p[k + i]);
                lemma_after_last(piece, '.', (j - k) as int);
            }
            if j - k <= 1 {
                return None;
            }
            let e = path.substring_char(j, end);
            assert(e@ =~= piece.skip((j - k) as int));
            return Some(e);
        }
    }
}

proof fn lemma_after_last_free_tail(p: Seq<char>, q: Seq<char>, c: char)
    requires
        forall|i: int| 0 <= i < q.len() ==> q[i] != c,
    ensures
        after_last(p + q, c) == after_last(p, c),
    decreases q.len(),
{
    if q.len() == 0 {
        assert(p + q =~= p);
    } else {
        assert((p + q).drop_last() =~= p + q.drop_last());
        assert((p + q).last() == q.last());
        lemma_after_last_free_tail(p, q.drop_last(), c);
    }
}

proof fn lemma_after_last_full(p: Seq<char>, c: char)
    requires
        p.len() > 0,
        after_last(p, c) == p.len(),
    ensures
        p.last() == c,
{
    if p.last() != c {
        lemma_after_last_bounds(p.drop_last(), c);
    }
}

/// The extension of a path is what follows its last dot: for a path `p`
/// that does not end in `/`, and a non-empty `e` without `/` or `.`, the
/// extension of `p.e` is `e` (so `app.min.js` has extension `js`).
pub proof fn law_extension_after_last_dot(p: Seq<char>, e: Seq<char>)
    requires
        p.len() > 0,
        p.last() != '/',
        e.len() > 0,
        forall|i: int| 0 <= i < e.len() ==> e[i] != '/' && e[i] != '.',
    ensures
        path_extension(p + seq!['.'] + e) == Some(e),
{
    let tail = seq!['.'] + e;
    let x = p + tail;
    assert(p + seq!['.'] + e =~= x);
    assert forall|i: int| 0 <= i < tail.len() implies tail[i] != '/' by {
        if i > 0 {
            assert(tail[i] == e[i - 1]);
        }
    }
    lemma_after_last_free_tail(p, tail, '/');
    lemma_after_last_bounds(p, '/');
    let k = after_last(p, '/');
    if k == p.len() {
        lemma_after_last_full(p, '/');
    }
    let stem = p.skip(k);
    assert(stem.len() >= 1);
    let piece = x.skip(k);
    assert(piece =~= stem + seq!['.'] + e);
    assert(piece.len() >= 3);
    assert(piece != seq!['.']);
    assert(piece != seq!['.', '.']);
    assert(file_name(x) == Some(piece));
    let head = stem + seq!['.'];
    assert(piece =~= head + e);
    lemma_after_last_free_tail(head, e, '.');
    assert(head.last() == '.');
    assert(after_last(head, '.') == head.len());
    assert(piece.skip(head.len() as int) =~= e);
}

} // verus!
