use vstd::prelude::*;

verus! {

/// Where the live `Put` record of a key is stored: the segment and the byte
/// offset at which the record begins.
#[derive(Clone, Copy, Debug, PartialEq, Eq, Structural)]
pub struct ValueEntry {
    /// Id of the segment that holds the record.
    pub log_id: u64,
    /// Byte offset of the record's first byte in that segment.
    pub log_offset: u64,
}

/// The in-memory key directory: each live key with the location of its
/// newest `Put` record. Keys are unique; the entries keep the order in which
/// their keys were first inserted.
pub struct KeyDir {
    entries: Vec<(String, ValueEntry)>,
}

/// Keys of a list of entries, in order.
pub open spec fn keys_of(s: Seq<(String, ValueEntry)>) -> Seq<Seq<char>> {
    s.map_values(|p: (String, ValueEntry)| p.0@)
}

/// No key occurs twice in a list of entries.
pub open spec fn keys_distinct(s: Seq<(String, ValueEntry)>) -> bool {
    forall|i: int, j: int| 0 <= i < j < s.len() ==> s[i].0@ != s[j].0@
}

/// The mapping that a list of entries with distinct keys stands for.
pub open spec fn map_of(s: Seq<(String, ValueEntry)>) -> Map<Seq<char>, ValueEntry> {
    Map::new(
        |k: Seq<char>| exists|i: int| 0 <= i < s.len() && s[i].0@ == k,
        |k: Seq<char>| s[choose|i: int| 0 <= i < s.len() && s[i].0@ == k].1,
    )
}

proof fn lemma_map_of_at(s: Seq<(String, ValueEntry)>, i: int)
    requires
        keys_distinct(s),
        0 <= i < s.len(),
    ensures
        map_of(s).contains_key(s[i].0@),
        map_of(s)[s[i].0@] == s[i].1,
{
    let k = s[i].0@;
    assert(exists|j: int| 0 <= j < s.len() && s[j].0@ == k);
    let j = choose|j: int| 0 <= j < s.len() && s[j].0@ == k;
    assert(i == j);
}

impl View for KeyDir {
    type V = Map<Seq<char>, ValueEntry>;

    open spec fn view(&self) -> Map<Seq<char>, ValueEntry> {
        map_of(self.entries())
    }
}

impl KeyDir {
    /// The entries, in directory order.
    pub closed spec fn entries(self) -> Seq<(String, ValueEntry)> {
        self.entries@
    }

    /// The keys, in directory order.
    pub open spec fn keys(self) -> Seq<Seq<char>> {
        keys_of(self.entries())
    }

    /// Keys are unique.
    pub open spec fn wf(self) -> bool {
        keys_distinct(self.entries())
    }

    /// Creates an empty directory.
    pub fn new() -> (r: KeyDir)
        ensures
            r.wf(),
            r@ == Map::<Seq<char>, ValueEntry>::empty(),
            r.keys().len() == 0,
    {
        let r = KeyDir { entries: Vec::new() };
        assert(r@ =~= Map::<Seq<char>, ValueEntry>::empty());
        r
    }

    /// Number of keys.
    pub fn len(&self) -> (r: usize)
        requires
            self.wf(),
        ensures
            r == self.keys().len(),
            forall|k: Seq<char>| self@.contains_key(k) <==> #[trigger] self.keys().contains(k),
            self.keys().no_duplicates(),
    {
        proof {
            assert forall|k: Seq<char>| self@.contains_key(k) <==> #[trigger] self.keys().contains(
                k,
            ) by {
                if self@.contains_key(k) {
                    let j = choose|j: int| 0 <= j < self.entries@.len() && self.entries@[j].0@ == k;
                    assert(self.keys()[j] == k);
                }
                if self.keys().contains(k) {
                    let j = choose|j: int| 0 <= j < self.keys().len() && self.keys()[j] == k;
                    assert(self.entries@[j].0@ == k);
                }
            }
        }
        self.entries.len()
    }

    /// Index of `key` in directory order, if present.
    fn find(&self, key: &String) -> (r: Option<usize>)
        requires
            self.wf(),
        ensures
            r matches Some(i) ==> i < self.entries().len() && self.entries()[i as int].0@ == key@,
            r is None ==> !self@.contains_key(key@),
    {
        let mut i: usize = 0;
        while i < self.entries.len()
            invariant
                i <= self.entries@.len(),
                forall|j: int| 0 <= j < i ==> self.entries@[j].0@ != key@,
            decreases self.entries@.len() - i,
        {
            if self.entries[i].0 == *key {
                return Some(i);
            }
            i = i + 1;
        }
        None
    }

    /// Location of the live record of `key`, if the key is present.
    pub fn get(&self, key: &String) -> (r: Option<ValueEntry>)
        requires
            self.wf(),
        ensures
            r == (if self@.contains_key(key@) {
                Some(self@[key@])
            } else {
                None::<ValueEntry>
            }),
    {
        match self.find(key) {
            Some(i) => {
                proof {
                    lemma_map_of_at(self.entries(), i as int);
                }
                Some(self.entries[i].1)
            },
            None => None,
        }
    }

    /// Whether `key` is present.
    pub fn contains_key(&self, key: &String) -> (r: bool)
        requires
            self.wf(),
        ensures
            r == self@.contains_key(key@),
    {
        match self.find(key) {
            Some(i) => {
                proof {
                    lemma_map_of_at(self.entries(), i as int);
                }
                true
            },
            None => false,
        }
    }

    /// Key and location of the entry at index `i` of directory order.
    pub fn entry_at(&self, i: usize) -> (r: (&String, ValueEntry))
        requires
            self.wf(),
            i < self.keys().len(),
        ensures
            r.0@ == self.keys()[i as int],
            self@.contains_key(r.0@),
            r.1 == self@[r.0@],
    {
        proof {
            lemma_map_of_at(self.entries(), i as int);
        }
        (&self.entries[i].0, self.entries[i].1)
    }

    /// Points the entry at index `i` of directory order to `e`.
    pub fn set_at(&mut self, i: usize, e: ValueEntry)
        requires
            old(self).wf(),
            i < old(self).keys().len(),
        ensures
            final(self).wf(),
            final(self).keys() == old(self).keys(),
            final(self)@ == old(self)@.insert(old(self).keys()[i as int], e),
    {
        let ghost s = self.entries@;
        self.entries[i].1 = e;
        proof {
            let t = self.entries@;
            assert(t =~= s.update(i as int, (s[i as int].0, e)));
            assert(keys_of(t) =~= keys_of(s));
            self.lemma_update_view(s, i as int, e);
        }
    }

    proof fn lemma_update_view(&self, s: Seq<(String, ValueEntry)>, i: int, e: ValueEntry)
        requires
            keys_distinct(s),
            0 <= i < s.len(),
            self.entries() == s.update(i, (s[i].0, e)),
        ensures
            keys_distinct(self.entries()),
            self@ == map_of(s).insert(s[i].0@, e),
    {
        let t = self.entries();
        assert(keys_distinct(t));
        let want = map_of(s).insert(s[i].0@, e);
        assert forall|k: Seq<char>| #[trigger] map_of(t).contains_key(k) implies want.contains_key(
            k,
        ) && map_of(t)[k] == want[k] by {
            let j = choose|j: int| 0 <= j < t.len() && t[j].0@ == k;
            lemma_map_of_at(t, j);
            if j != i {
                lemma_map_of_at(s, j);
            }
        }
        assert forall|k: Seq<char>| #[trigger] want.contains_key(k) implies map_of(t).contains_key(
            k,
        ) by {
            if k != s[i].0@ {
                let j = choose|j: int| 0 <= j < s.len() && s[j].0@ == k;
                assert(t[j].0@ == k);
            } else {
                assert(t[i].0@ == k);
            }
        }
        assert(map_of(t) =~= want);
    }

    /// Points `key` to `e`, adding the key if it is absent.
    pub fn insert(&mut self, key: String, e: ValueEntry)
        requires
            old(self).wf(),
        ensures
            final(self).wf(),
            final(self)@ == old(self)@.insert(key@, e),
    {
        match self.find(&key) {
            Some(i) => {
                self.set_at(i, e);
            },
            None => {
                let ghost s = self.entries@;
                let ghost k = key@;
                self.entries.push((key, e));
                proof {
                    let t = self.entries@;
                    assert(keys_distinct(t)) by {
                        assert forall|a: int, b: int| 0 <= a < b < t.len() implies t[a].0@
                            != t[b].0@ by {
                            if b == s.len() {
                                assert(map_of(s).contains_key(s[a].0@));
                            }
                        }
                    }
                    let want = map_of(s).insert(k, e);
                    assert forall|x: Seq<char>| #[trigger] map_of(t).contains_key(
                        x,
                    ) implies want.contains_key(x) && map_of(t)[x] == want[x] by {
                        let j = choose|j: int| 0 <= j < t.len() && t[j].0@ == x;
                        lemma_map_of_at(t, j);
                        if j < s.len() {
                            lemma_map_of_at(s, j);
                        }
                    }
                    assert forall|x: Seq<char>| #[trigger] want.contains_key(
                        x,
                    ) implies map_of(t).contains_key(x) by {
                        if x != k {
                            let j = choose|j: int| 0 <= j < s.len() && s[j].0@ == x;
                            assert(t[j].0@ == x);
                        } else {
                            assert(t[s.len() as int].0@ == x);
                        }
                    }
                    assert(map_of(t) =~= want);
                }
            },
        }
    }

    /// Drops `key` from the directory; an absent key is left absent.
    pub fn remove(&mut self, key: &String)
        requires
            old(self).wf(),
        ensures
            final(self).wf(),
            final(self)@ == old(self)@.remove(key@),
    {
        match self.find(key) {
            Some(i) => {
                let ghost s = self.entries@;
                let _ = self.entries.remove(i);
                proof {
                    let t = self.entries@;
                    let ii = i as int;
                    assert(t =~= s.remove(ii));
                    assert forall|a: int, b: int| 0 <= a < b < t.len() implies t[a].0@
                        != t[b].0@ by {
                        let sa = if a < ii { a } else { a + 1 };
                        let sb = if b < ii { b } else { b + 1 };
                        assert(t[a] == s[sa] && t[b] == s[sb]);
                    }
                    let want = map_of(s).remove(key@);
                    assert forall|x: Seq<char>| #[trigger] map_of(t).contains_key(
                        x,
                    ) implies want.contains_key(x) && map_of(t)[x] == want[x] by {
                        let j = choose|j: int| 0 <= j < t.len() && t[j].0@ == x;
                        let sj = if j < ii { j } else { j + 1 };
                        assert(t[j] == s[sj]);
                        lemma_map_of_at(t, j);
                        lemma_map_of_at(s, sj);
                    }
                    assert forall|x: Seq<char>| #[trigger] want.contains_key(
                        x,
                    ) implies map_of(t).contains_key(x) by {
                        let j = choose|j: int| 0 <= j < s.len() && s[j].0@ == x;
                        assert(j != ii);
                        let tj = if j < ii { j } else { j - 1 };
                        assert(t[tj] == s[j]);
                    }
                    assert(map_of(t) =~= want);
                }
            },
            None => {
                assert(self@ =~= self@.remove(key@));
            },
        }
    }

    /// Whether some key's live record lies in segment `log_id`.
    pub fn references(&self, log_id: u64) -> (r: bool)
        requires
            self.wf(),
        ensures
            r == exists|k: Seq<char>| #[trigger] self@.contains_key(k) && self@[k].log_id == log_id,
    {
        let mut i: usize = 0;
        while i < self.entries.len()
            invariant
                i <= self.entries@.len(),
                self.wf(),
                forall|j: int| 0 <= j < i ==> self.entries@[j].1.log_id != log_id,
            decreases self.entries@.len() - i,
        {
            if self.entries[i].1.log_id == log_id {
                proof {
                    lemma_map_of_at(self.entries(), i as int);
                    let k = self.entries@[i as int].0@;
                    assert(self@.contains_key(k) && self@[k].log_id == log_id);
                }
                return true;
            }
            i = i + 1;
        }
        proof {
            assert forall|k: Seq<char>| #[trigger] self@.contains_key(k) implies self@[k].log_id
                != log_id by {
                let j = choose|j: int| 0 <= j < self.entries@.len() && self.entries@[j].0@ == k;
                lemma_map_of_at(self.entries(), j);
            }
        }
        false
    }
}

} // verus!
