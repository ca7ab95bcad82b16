//! The bundle of embedded files: a map from file names to their bytes.

use vstd::prelude::*;

use crate::paths::{chars_equal, chars_of};

verus! {

/// `s` with every `\` turned into `/`: the name that a lookup for `s`
/// reads, as `rust_embed`'s `get` does.
pub open spec fn embedded_key(s: Seq<char>) -> Seq<char> {
    s.map_values(|c: char| if c == '\\' { '/' } else { c })
}

/// The characters of `name` with every `\` turned into `/`.
fn embedded_key_chars(name: &str) -> (v: Vec<char>)
    ensures
        v@ == embedded_key(name@),
{
    let cs = chars_of(name);
    let mut v: Vec<char> = Vec::new();
    let mut i: usize = 0;
    while i < cs.len()
        invariant
            i <= cs@.len(),
            cs@ == name@,
            v@ == embedded_key(name@).take(i as int),
        decreases cs@.len() - i,
    {
        let c = cs[i];
        if c == '\\' {
            v.push('/');
        } else {
            v.push(c);
        }
        assert(v@ =~= embedded_key(name@).take(i + 1));
        i = i + 1;
    }
    assert(v@ =~= embedded_key(name@));
    v
}

/// A set of named files, each with its bytes. Names are unique.
pub struct Bundle {
    files: Vec<(String, Vec<u8>)>,
}

impl Bundle {
    /// No two entries share a name.
    #[verifier::type_invariant]
    closed spec fn names_unique(self) -> bool {
        forall|i: int, j: int|
            0 <= i < self.files@.len() && 0 <= j < self.files@.len() && i != j
                ==> #[trigger] self.files@[i].0@ != #[trigger] self.files@[j].0@
    }

    /// Some entry has the name `k`.
    closed spec fn has_name(self, k: Seq<char>) -> bool {
        exists|i: int| 0 <= i < self.files@.len() && #[trigger] self.files@[i].0@ == k
    }

    /// The position of the entry named `k`.
    closed spec fn index_of(self, k: Seq<char>) -> int {
        choose|i: int| 0 <= i < self.files@.len() && #[trigger] self.files@[i].0@ == k
    }

    /// The files as a map from name to bytes.
    pub closed spec fn files_map(self) -> Map<Seq<char>, Seq<u8>> {
        Map::new(|k: Seq<char>| self.has_name(k), |k: Seq<char>| self.files@[self.index_of(k)].1@)
    }

    proof fn lemma_index_of(self, i: int)
        requires
            self.names_unique(),
            0 <= i < self.files@.len(),
        ensures
            self.has_name(self.files@[i].0@),
            self.index_of(self.files@[i].0@) == i,
            self.files_map().contains_key(self.files@[i].0@),
            self.files_map()[self.files@[i].0@] == self.files@[i].1@,
    {
        let k = self.files@[i].0@;
        assert(self.has_name(k));
        let j = self.index_of(k);
        assert(self.files@[j].0@ == k);
    }

    /// An empty bundle.
    pub fn new() -> (b: Bundle)
        ensures
            b@ == Map::<Seq<char>, Seq<u8>>::empty(),
    {
        let b = Bundle { files: Vec::new() };
        assert(b@ =~= Map::<Seq<char>, Seq<u8>>::empty());
        b
    }

    /// The position of the entry named `name`, if any.
    fn find(&self, name: &String) -> (r: Option<usize>)
        ensures
            match r {
                Some(i) => i < self.files@.len() && self.files@[i as int].0@ == name@,
                None => !self.has_name(name@),
            },
    {
        let mut i: usize = 0;
        while i < self.files.len()
            invariant
                i <= self.files@.len(),
                forall|j: int| 0 <= j < i ==> #[trigger] self.files@[j].0@ != name@,
            decreases self.files@.len() - i,
        {
            if self.files[i].0 == *name {
                return Some(i);
            }
            i = i + 1;
        }
        None
    }

    /// The position of the entry whose name has the characters `key`, if any.
    fn find_chars(&self, key: &Vec<char>) -> (r: Option<usize>)
        ensures
            match r {
                Some(i) => i < self.files@.len() && self.files@[i as int].0@ == key@,
                None => !self.has_name(key@),
            },
    {
        let mut i: usize = 0;
        while i < self.files.len()
            invariant
                i <= self.files@.len(),
                forall|j: int| 0 <= j < i ==> #[trigger] self.files@[j].0@ != key@,
            decreases self.files@.len() - i,
        {
            let entry = chars_of(self.files[i].0.as_str());
            if chars_equal(&entry, key) {
                return Some(i);
            }
            i = i + 1;
        }
        None
    }

    /// The bytes of the file that a lookup for `name` finds, if any: as in
    /// `rust_embed`, every `\` in `name` reads as `/`.
    pub fn get(&self, name: &str) -> (r: Option<&Vec<u8>>)
        ensures
            match r {
                Some(d) => self@.contains_key(embedded_key(name@)) && d@ == self@[embedded_key(name@)],
                None => !self@.contains_key(embedded_key(name@)),
            },
    {
        proof {
            use_type_invariant(self);
        }
        let key = embedded_key_chars(name);
        match self.find_chars(&key) {
            Some(i) => {
                proof {
                    self.lemma_index_of(i as int);
                }
                Some(&self.files[i].1)
            },
            None => None,
        }
    }

    /// Adds the file `name` with bytes `data`, replacing any file of that name.
    pub fn insert(&mut self, name: String, data: Vec<u8>)
        ensures
            final(self)@ == old(self)@.insert(name@, data@),
    {
        proof {
            use_type_invariant(&*self);
        }
        let ghost old_b = *self;
        let found = self.find(&name);
        let mut files: Vec<(String, Vec<u8>)> = Vec::new();
        std::mem::swap(&mut files, &mut self.files);
        match found {
            Some(i) => {
                files.set(i, (name, data));
                assert(forall|j: int| 0 <= j < files@.len() ==> #[trigger] files@[j].0@ == old_b.files@[j].0@);
                self.files = files;
                proof {
                    assert forall|k: Seq<char>| #[trigger] self.has_name(k) == (old_b.has_name(k) || k == name@) by {
                        if k == name@ {
                            assert(self.files@[i as int].0@ == k);
                            assert(old_b.files@[i as int].0@ == k);
                        }
                        if old_b.has_name(k) {
                            let j = old_b.index_of(k);
                            if j != i {
                                assert(self.files@[j] == old_b.files@[j]);
                            }
                        }
                        if self.has_name(k) {
                            let j = self.index_of(k);
                            if j != i {
                                assert(self.files@[j] == old_b.files@[j]);
                            }
                        }
                    }
                    assert forall|k: Seq<char>| #[trigger] self.has_name(k) implies
                        self.files@[self.index_of(k)].1@ == old_b.files_map().insert(name@, data@)[k] by {
                        let j = self.index_of(k);
                        self.lemma_index_of(j);
                        if j != i {
                            assert(self.files@[j] == old_b.files@[j]);
                            old_b.lemma_index_of(j);
                        }
                    }
                    assert(self@ =~= old_b@.insert(name@, data@));
                }
            },
            None => {
                files.push((name, data));
                assert(forall|j: int| 0 <= j < old_b.files@.len() ==> #[trigger] files@[j] == old_b.files@[j]);
                assert(forall|j: int| 0 <= j < old_b.files@.len() ==> #[trigger] old_b.files@[j].0@ != name@);
                self.files = files;
                proof {
                    let n = old_b.files@.len() as int;
                    assert forall|k: Seq<char>| #[trigger] self.has_name(k) == (old_b.has_name(k) || k == name@) by {
                        if old_b.has_name(k) {
                            let j = old_b.index_of(k);
                            assert(self.files@[j] == old_b.files@[j]);
                        }
                        if k == name@ {
                            assert(self.files@[n].0@ == k);
                        }
                        if self.has_name(k) {
                            let j = self.index_of(k);
                            if j != n {
                                assert(self.files@[j] == old_b.files@[j]);
                            }
                        }
                    }
                    assert forall|k: Seq<char>| #[trigger] self.has_name(k) implies
                        self.files@[self.index_of(k)].1@ == old_b.files_map().insert(name@, data@)[k] by {
                        let j = self.index_of(k);
                        self.lemma_index_of(j);
                        if j != n {
                            assert(self.files@[j] == old_b.files@[j]);
                            old_b.lemma_index_of(j);
                        }
                    }
                    assert(self@ =~= old_b@.insert(name@, data@));
                }
            },
        }
    }
}

impl View for Bundle {
    type V = Map<Seq<char>, Seq<u8>>;

    open spec fn view(&self) -> Map<Seq<char>, Seq<u8>> {
        self.files_map()
    }
}

/// A name without a backslash is looked up as itself: after inserting `n`
/// with bytes `d`, a lookup for `n` reads `d`.
pub proof fn law_plain_name_found_as_itself(m: Map<Seq<char>, Seq<u8>>, n: Seq<char>, d: Seq<u8>)
    requires
        forall|i: int| 0 <= i < n.len() ==> n[i] != '\\',
    ensures
        embedded_key(n) == n,
        m.insert(n, d).contains_key(embedded_key(n)),
        m.insert(n, d)[embedded_key(n)] == d,
{
    assert(embedded_key(n) =~= n);
}

/// A lookup changes only backslashes: the name it reads has the same
/// length, `/` where the name had `\`, and every other character unchanged.
pub proof fn law_lookup_changes_only_backslashes(n: Seq<char>)
    ensures
        embedded_key(n).len() == n.len(),
        forall|i: int| 0 <= i < n.len() ==> #[trigger] embedded_key(n)[i] == if n[i] == '\\' {
            '/'
        } else {
            n[i]
        },
{
}

} // verus!
