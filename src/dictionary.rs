use vstd::prelude::*;

verus! {

/// Byte that opens and closes a field of a dictionary record.
pub const QUOTE: u8 = 34;

/// Pattern of one record: two quoted fields separated by a comma, on one line.
pub const RECORD_PATTERN: &'static str = "(?-u)\"(.+)\",\"(.+)\"";

/// The capture groups of every successive non-overlapping match of `pattern`
/// in `haystack` (group 0 first, `None` for a group that took no part), or
/// `None` where `pattern` is not a valid regular expression.
pub uninterp spec fn regex_captures(pattern: Seq<char>, haystack: Seq<u8>) -> Option<
    Seq<Seq<Option<Seq<u8>>>>,
>;

/// Relies on `regex::bytes::Regex::new`, which fails exactly on an invalid
/// pattern, and on `Regex::captures_iter` with `Captures::iter`, which list the
/// groups of each successive match.
#[verifier::external_body]
fn captures_all(pattern: &str, haystack: &[u8]) -> (r: Option<Vec<Vec<Option<Vec<u8>>>>>)
    ensures
        r.deep_view() == regex_captures(pattern@, haystack@),
{
    let re = regex::bytes::Regex::new(pattern).ok()?;
    Some(
        re.captures_iter(haystack).map(
            |c| c.iter().map(|m| m.map(|m| m.as_bytes().to_vec())).collect(),
        ).collect(),
    )
}

/// A field with every run of quote bytes collapsed to one quote.
pub open spec fn unquote(s: Seq<u8>) -> Seq<u8>
    decreases s.len(),
{
    if s.len() == 0 {
        s
    } else {
        let p = unquote(s.drop_last());
        if s.len() >= 2 && s.last() == QUOTE && s[s.len() - 2] == QUOTE {
            p
        } else {
            p.push(s.last())
        }
    }
}

/// The entry that one match of the record pattern gives: the unquoted key and
/// the unquoted value with a NUL byte appended.
pub open spec fn capture_record(c: Seq<Option<Seq<u8>>>) -> Option<(Seq<u8>, Seq<u8>)> {
    if c.len() >= 3 && c[1] is Some && c[2] is Some {
        Some((unquote(c[1]->0), unquote(c[2]->0).push(0)))
    } else {
        None
    }
}

/// The map that a list of matches gives, a later record replacing an earlier
/// one with the same key.
pub open spec fn records_map(caps: Seq<Seq<Option<Seq<u8>>>>) -> Map<Seq<u8>, Seq<u8>>
    decreases caps.len(),
{
    if caps.len() == 0 {
        Map::empty()
    } else {
        let m = records_map(caps.drop_last());
        match capture_record(caps.last()) {
            Some(e) => m.insert(e.0, e.1),
            None => m,
        }
    }
}

/// The map that the text of a dictionary file gives, or `None` where the
/// record pattern cannot be used.
pub open spec fn parsed_map(contents: Seq<u8>) -> Option<Map<Seq<u8>, Seq<u8>>> {
    match regex_captures(RECORD_PATTERN@, contents) {
        Some(caps) => Some(records_map(caps)),
        None => None,
    }
}

/// `v` ends with a NUL byte.
pub open spec fn nul_terminated(v: Seq<u8>) -> bool {
    v.len() > 0 && v.last() == 0
}

/// Collapses every run of quote bytes in `s` to one quote.
pub fn unquote_field(s: &[u8]) -> (r: Vec<u8>)
    ensures
        r@ == unquote(s@),
{
    let mut out: Vec<u8> = Vec::new();
    let mut i: usize = 0;
    while i < s.len()
        invariant
            i <= s@.len(),
            out@ == unquote(s@.take(i as int)),
        decreases s@.len() - i,
    {
        proof {
            assert(s@.take(i as int + 1).drop_last() =~= s@.take(i as int));
        }
        if !(i >= 1 && s[i] == QUOTE && s[i - 1] == QUOTE) {
            out.push(s[i]);
        }
        i = i + 1;
    }
    proof {
        assert(s@.take(s@.len() as int) =~= s@);
    }
    out
}

/// Whether two byte strings are equal.
pub fn bytes_equal(a: &[u8], b: &[u8]) -> (r: bool)
    ensures
        r == (a@ == b@),
{
    if a.len() != b.len() {
        return false;
    }
    let mut i: usize = 0;
    while i < a.len()
        invariant
            i <= a@.len(),
            a@.len() == b@.len(),
            forall|j: int| 0 <= j < i ==> a@[j] == b@[j],
        decreases a@.len() - i,
    {
        if a[i] != b[i] {
            return false;
        }
        i = i + 1;
    }
    proof {
        assert(a@ =~= b@);
    }
    true
}

/// Why a dictionary could not be read.
#[derive(Debug, Clone, Copy, PartialEq, Eq, Structural)]
pub enum LoadError {
    /// The record pattern was refused by the regular expression engine.
    Pattern,
}

/// Exact-match translation table from source byte strings to translated byte
/// strings; every translation carries a trailing NUL byte.
pub struct Dictionary {
    entries: Vec<(Vec<u8>, Vec<u8>)>,
    path: String,
}

impl Dictionary {
    /// Keys of the entries, in table order.
    pub closed spec fn keys(&self) -> Seq<Seq<u8>> {
        self.entries@.map_values(|e: (Vec<u8>, Vec<u8>)| e.0@)
    }

    pub closed spec fn wf(&self) -> bool {
        &&& self.keys().no_duplicates()
        &&& forall|j: int| 0 <= j < self.entries@.len() ==> nul_terminated(#[trigger] self.entries@[j].1@)
    }

    /// The translations, by source byte string.
    pub closed spec fn view(&self) -> Map<Seq<u8>, Seq<u8>> {
        Map::new(
            |k: Seq<u8>| self.keys().contains(k),
            |k: Seq<u8>| self.entries@[self.index_of(k)].1@,
        )
    }

    /// Position of the entry whose key is `k`.
    pub closed spec fn index_of(&self, k: Seq<u8>) -> int {
        choose|j: int| 0 <= j < self.entries@.len() && self.entries@[j].0@ == k
    }

    /// The file the dictionary was read from.
    pub closed spec fn source(&self) -> Seq<char> {
        self.path@
    }

    proof fn lemma_lookup(&self, j: int)
        requires
            self.wf(),
            0 <= j < self.entries@.len(),
        ensures
            self@.contains_key(self.entries@[j].0@),
            self@[self.entries@[j].0@] == self.entries@[j].1@,
    {
        let k = self.entries@[j].0@;
        assert(self.keys()[j] == k);
        assert(self.keys().contains(k));
        assert(0 <= j < self.entries@.len() && self.entries@[j].0@ == k);
        let i = self.index_of(k);
        assert(0 <= i < self.entries@.len() && self.entries@[i].0@ == k);
        assert(self.keys()[i] == k);
        assert(i == j);
        assert(self@[k] == self.entries@[i].1@);
    }

    /// A dictionary from `path` with no translations.
    pub fn empty(path: &str) -> (r: Self)
        ensures
            r.wf(),
            r@ == Map::<Seq<u8>, Seq<u8>>::empty(),
            r.source() == path@,
    {
        let r = Dictionary { entries: Vec::new(), path: path.to_string() };
        proof {
            assert(r@ =~= Map::<Seq<u8>, Seq<u8>>::empty());
        }
        r
    }

    /// Reads the records of a dictionary file: each line `"key","value"`
    /// gives one translation, with doubled quotes collapsed and a NUL byte
    /// appended to the value; a later record replaces an earlier one.
    pub fn load(path: &str, contents: &[u8]) -> (r: Option<Self>)
        ensures
            match r {
                Some(d) => d.wf() && parsed_map(contents@) == Some(d@) && d.source() == path@,
                None => parsed_map(contents@).is_none(),
            },
    {
        let caps = match captures_all(RECORD_PATTERN, contents) {
            Some(c) => c,
            None => return None,
        };
        let ghost all = caps.deep_view();
        let mut d = Dictionary::empty(path);
        let mut i: usize = 0;
        while i < caps.len()
            invariant
                i <= caps@.len(),
                all == caps.deep_view(),
                d.wf(),
                d.source() == path@,
                d@ == records_map(all.take(i as int)),
            decreases caps@.len() - i,
        {
            proof {
                assert(all.take(i as int + 1).drop_last() =~= all.take(i as int));
                assert(all[i as int] == caps@[i as int].deep_view());
            }
            let c = &caps[i];
            let ghost cv = all[i as int];
            proof {
                assert(all.take(i as int + 1).last() == cv);
                assert(cv.len() == c@.len());
            }
            if c.len() >= 3 {
                proof {
                    assert(cv[1] == c@[1].deep_view());
                    assert(cv[2] == c@[2].deep_view());
                }
                match (&c[1], &c[2]) {
                    (Some(k), Some(v)) => {
                        let key = unquote_field(k.as_slice());
                        let mut value = unquote_field(v.as_slice());
                        value.push(0);
                        proof {
                            assert(k.deep_view() =~= k@);
                            assert(v.deep_view() =~= v@);
                            assert(capture_record(cv) == Some((key@, value@)));
                        }
                        d.insert(key, value);
                    },
                    _ => {},
                }
            }
            i = i + 1;
        }
        proof {
            assert(all.take(caps@.len() as int) =~= all);
        }
        Some(d)
    }

    /// The dictionary of file `path`, given its contents when it could be
    /// read; empty when it could not be read or parsed.
    pub fn new(path: &str, contents: Option<&[u8]>) -> (r: Self)
        ensures
            r.wf(),
            r.source() == path@,
            r@ == match contents {
                Some(c) => match parsed_map(c@) {
                    Some(m) => m,
                    None => Map::empty(),
                },
                None => Map::empty(),
            },
    {
        match contents {
            Some(c) => match Dictionary::load(path, c) {
                Some(d) => d,
                None => Dictionary::empty(path),
            },
            None => Dictionary::empty(path),
        }
    }

    /// Replaces every translation with those of `contents`, the new contents
    /// of the same file; on failure nothing changes.
    pub fn reload(&mut self, contents: &[u8]) -> (r: Result<(), LoadError>)
        requires
            old(self).wf(),
        ensures
            final(self).wf(),
            final(self).source() == old(self).source(),
            match r {
                Ok(()) => parsed_map(contents@) == Some(final(self)@),
                Err(e) => parsed_map(contents@).is_none() && final(self)@ == old(self)@
                    && e == LoadError::Pattern,
            },
    {
        match Dictionary::load(self.path.as_str(), contents) {
            Some(d) => {
                self.entries = d.entries;
                Ok(())
            },
            None => Err(LoadError::Pattern),
        }
    }

    /// The translation of `key`, NUL byte included.
    pub fn get(&self, key: &[u8]) -> (r: Option<&Vec<u8>>)
        requires
            self.wf(),
        ensures
            match r {
                Some(v) => self@.contains_key(key@) && v@ == self@[key@] && nul_terminated(v@),
                None => !self@.contains_key(key@),
            },
    {
        let mut i: usize = 0;
        while i < self.entries.len()
            invariant
                self.wf(),
                i <= self.entries@.len(),
                forall|j: int| 0 <= j < i ==> self.entries@[j].0@ != key@,
            decreases self.entries@.len() - i,
        {
            if bytes_equal(self.entries[i].0.as_slice(), key) {
                proof {
                    self.lemma_lookup(i as int);
                }
                return Some(&self.entries[i].1);
            }
            i = i + 1;
        }
        proof {
            if self@.contains_key(key@) {
                let j = choose|j: int| 0 <= j < self.keys().len() && self.keys()[j] == key@;
                assert(self.entries@[j].0@ == key@);
            }
        }
        None
    }

    /// Number of translations.
    pub fn size(&self) -> (r: usize)
        requires
            self.wf(),
        ensures
            r == self@.len(),
    {
        proof {
            self.keys().unique_seq_to_set();
            assert(self@.dom() =~= self.keys().to_set());
        }
        self.entries.len()
    }

    /// The file the dictionary was read from.
    pub fn path(&self) -> (r: &str)
        ensures
            r@ == self.source(),
    {
        self.path.as_str()
    }

    /// Adds or replaces the translation of `k`.
    fn insert(&mut self, k: Vec<u8>, v: Vec<u8>)
        requires
            old(self).wf(),
            v@.len() > 0,
            v@.last() == 0,
        ensures
            final(self).wf(),
            final(self)@ == old(self)@.insert(k@, v@),
            final(self).source() == old(self).source(),
    {
        let mut i: usize = 0;
        while i < self.entries.len()
            invariant
                self == old(self),
                old(self).wf(),
                nul_terminated(v@),
                i <= self.entries@.len(),
                forall|j: int| 0 <= j < i ==> self.entries@[j].0@ != k@,
            decreases self.entries@.len() - i,
        {
            if bytes_equal(self.entries[i].0.as_slice(), k.as_slice()) {
                let ghost before = *self;
                let ghost ki = self.entries@[i as int].0@;
                self.entries.set(i, (k, v));
                proof {
                    assert(self.keys() =~= before.keys().update(i as int, k@));
                    assert(before.keys()[i as int] == k@);
                    assert(self.keys() =~= before.keys());
                    assert(self.entries@[i as int].1@ == v@);
                    assert forall|j: int| 0 <= j < self.entries@.len() implies nul_terminated(#[trigger] self.entries@[j].1@) by {
                        if j != i {
                            assert(before.entries@[j] == self.entries@[j]);
                        }
                    }
                    assert(self.wf());
                    assert forall|key: Seq<u8>| #[trigger] self@.contains_key(key) <==> before@.insert(k@, v@).contains_key(key) by {
                        if before@.contains_key(key) {
                            let jj = choose|jj: int| 0 <= jj < before.keys().len() && before.keys()[jj] == key;
                            assert(self.keys()[jj] == key);
                        }
                        if key == k@ {
                            assert(self.keys()[i as int] == key);
                        }
                        if self@.contains_key(key) {
                            let jj = choose|jj: int| 0 <= jj < self.keys().len() && self.keys()[jj] == key;
                            assert(before.keys()[jj] == key);
                        }
                    }
                    assert forall|key: Seq<u8>| #[trigger] self@.contains_key(key) implies self@[key] == before@.insert(k@, v@)[key] by {
                        let jj = choose|jj: int| 0 <= jj < self.entries@.len() && self.entries@[jj].0@ == key;
                        assert(self.keys()[jj] == key);
                        self.lemma_lookup(jj);
                        if jj != i {
                            assert(before.entries@[jj] == self.entries@[jj]);
                            before.lemma_lookup(jj);
                            assert(before.keys()[jj] != before.keys()[i as int]);
                        } else {
                            self.lemma_lookup(i as int);
                        }
                    }
                    assert(self@ =~= before@.insert(k@, v@));
                }
                return;
            }
            i = i + 1;
        }
        let ghost before = *self;
        self.entries.push((k, v));
        proof {
            assert(self.keys() =~= before.keys().push(k@));
            assert(self.entries@.last().1@ == v@);
            assert(!before.keys().contains(k@)) by {
                if before.keys().contains(k@) {
                    let jj = choose|jj: int| 0 <= jj < before.keys().len() && before.keys()[jj] == k@;
                    assert(before.entries@[jj].0@ == k@);
                }
            }
            assert forall|j: int| 0 <= j < self.entries@.len() implies nul_terminated(#[trigger] self.entries@[j].1@) by {
                if j < before.entries@.len() {
                    assert(before.entries@[j] == self.entries@[j]);
                }
            }
            assert(self.wf());
            assert forall|key: Seq<u8>| #[trigger] self@.contains_key(key) <==> before@.insert(k@, v@).contains_key(key) by {
                if before@.contains_key(key) {
                    let jj = choose|jj: int| 0 <= jj < before.keys().len() && before.keys()[jj] == key;
                    assert(self.keys()[jj] == key);
                }
                if key == k@ {
                    assert(self.keys()[before.keys().len() as int] == key);
                }
                if self@.contains_key(key) {
                    let jj = choose|jj: int| 0 <= jj < self.keys().len() && self.keys()[jj] == key;
                    if jj < before.keys().len() {
                        assert(before.keys()[jj] == key);
                    }
                }
            }
            assert forall|key: Seq<u8>| #[trigger] self@.contains_key(key) implies self@[key] == before@.insert(k@, v@)[key] by {
                let jj = choose|jj: int| 0 <= jj < self.entries@.len() && self.entries@[jj].0@ == key;
                assert(self.keys()[jj] == key);
                self.lemma_lookup(jj);
                if jj < before.entries@.len() {
                    assert(before.entries@[jj] == self.entries@[jj]);
                    before.lemma_lookup(jj);
                }
            }
            assert(self@ =~= before@.insert(k@, v@));
        }
    }
}

} // verus!
