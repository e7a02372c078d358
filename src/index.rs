use vstd::prelude::*;

verus! {

/// The location of a `Set` record: its generation and its byte offset there.
#[derive(Clone, Copy, Debug, PartialEq, Eq, Structural)]
pub struct IndexMeta {
    pub gen: u64,
    pub pos: u64,
}

/// The in-memory index: for each live key, where its latest `Set` record is.
pub struct Index {
    entries: Vec<(String, IndexMeta)>,
    model: Ghost<Map<Seq<char>, IndexMeta>>,
}

impl View for Index {
    type V = Map<Seq<char>, IndexMeta>;

    closed spec fn view(&self) -> Map<Seq<char>, IndexMeta> {
        self.model@
    }
}

impl Index {
    /// The entries, in the order the index keeps them.
    pub closed spec fn entries(&self) -> Seq<(String, IndexMeta)> {
        self.entries@
    }

    pub closed spec fn wf(&self) -> bool {
        &&& forall|i: int, j: int|
            0 <= i < j < self.entries@.len() ==> self.entries@[i].0@ != self.entries@[j].0@
        &&& forall|i: int|
            0 <= i < self.entries@.len() ==> #[trigger] self.model@.contains_key(
                self.entries@[i].0@,
            ) && self.model@[self.entries@[i].0@] == self.entries@[i].1
        &&& forall|k: Seq<char>|
            #[trigger] self.model@.contains_key(k) ==> exists|i: int|
                0 <= i < self.entries@.len() && self.entries@[i].0@ == k
    }

    /// What `wf` gives to users of `entries`: one entry per key of the view.
    pub proof fn lemma_entries(&self)
        requires
            self.wf(),
        ensures
            self.entries().len() == self@.dom().len(),
            forall|i: int|
                0 <= i < self.entries().len() ==> #[trigger] self@.contains_key(
                    self.entries()[i].0@,
                ) && self@[self.entries()[i].0@] == self.entries()[i].1,
            forall|i: int, j: int|
                0 <= i < j < self.entries().len() ==> self.entries()[i].0@
                    != self.entries()[j].0@,
            forall|k: Seq<char>|
                #[trigger] self@.contains_key(k) ==> exists|i: int|
                    0 <= i < self.entries().len() && self.entries()[i].0@ == k,
    {
        let keys = self.entries@.map_values(|e: (String, IndexMeta)| e.0@);
        assert forall|i: int, j: int| 0 <= i < j < keys.len() implies keys[i] != keys[j] by {}
        keys.unique_seq_to_set();
        assert(keys.to_set() =~= self.model@.dom()) by {
            assert forall|k: Seq<char>| keys.to_set().contains(k) implies self.model@.contains_key(k) by {
                let i = choose|i: int| 0 <= i < keys.len() && keys[i] == k;
            }
            assert forall|k: Seq<char>| self.model@.contains_key(k) implies keys.to_set().contains(k) by {
                let i = choose|i: int| 0 <= i < self.entries@.len() && self.entries@[i].0@ == k;
                assert(keys[i] == k);
            }
        }
    }

    pub fn new() -> (r: Index)
        ensures
            r.wf(),
            r@ == Map::<Seq<char>, IndexMeta>::empty(),
    {
        Index { entries: Vec::new(), model: Ghost(Map::empty()) }
    }

    /// The position of `key` among the entries, if it has one.
    fn find(&self, key: &String) -> (r: Option<usize>)
        requires
            self.wf(),
        ensures
            match r {
                Some(i) => i < self.entries@.len() && self.entries@[i as int].0@ == key@,
                None => !self@.contains_key(key@),
            },
    {
        let mut i: usize = 0;
        while i < self.entries.len()
            invariant
                self.wf(),
                i <= self.entries@.len(),
                forall|j: int| 0 <= j < i ==> self.entries@[j].0@ != key@,
            decreases self.entries@.len() - i,
        {
            if self.entries[i].0 == *key {
                return Some(i);
            }
            i = i + 1;
        }
        None
    }

    pub fn len(&self) -> (r: usize)
        requires
            self.wf(),
        ensures
            r == self@.dom().len(),
    {
        proof {
            self.lemma_entries();
        }
        self.entries.len()
    }

    pub fn contains_key(&self, key: &String) -> (r: bool)
        requires
            self.wf(),
        ensures
            r == self@.contains_key(key@),
    {
        self.find(key).is_some()
    }

    pub fn get(&self, key: &String) -> (r: Option<IndexMeta>)
        requires
            self.wf(),
        ensures
            r == (if self@.contains_key(key@) {
                Some(self@[key@])
            } else {
                None::<IndexMeta>
            }),
    {
        match self.find(key) {
            Some(i) => Some(self.entries[i].1),
            None => None,
        }
    }

    /// Points `key` at `meta`, adding the key if it is new.
    pub fn insert(&mut self, key: String, meta: IndexMeta)
        requires
            old(self).wf(),
        ensures
            final(self).wf(),
            final(self)@ == old(self)@.insert(key@, meta),
    {
        let ghost k = key@;
        let ghost at: int;
        match self.find(&key) {
            Some(i) => {
                self.entries.set(i, (key, meta));
                proof {
                    at = i as int;
                }
            },
            None => {
                self.entries.push((key, meta));
                proof {
                    at = self.entries@.len() - 1;
                }
            },
        }
        self.model = Ghost(self.model@.insert(k, meta));
        assert(self.entries@[at].0@ == k);
        assert forall|q: Seq<char>| #[trigger] self.model@.contains_key(q) implies exists|i: int|
            0 <= i < self.entries@.len() && self.entries@[i].0@ == q by {
            if q != k {
                let i = choose|i: int| 0 <= i < old(self).entries@.len() && old(self).entries@[i].0@ == q;
                assert(self.entries@[i].0@ == q);
            } else {
                assert(self.entries@[at].0@ == q);
            }
        }
    }

    /// Drops `key` from the index; nothing changes where it is absent.
    pub fn remove(&mut self, key: &String)
        requires
            old(self).wf(),
        ensures
            final(self).wf(),
            final(self)@ == old(self)@.remove(key@),
    {
        match self.find(key) {
            Some(i) => {
                let ghost last = (self.entries@.len() - 1) as int;
                self.entries.swap_remove(i);
                self.model = Ghost(self.model@.remove(key@));
                assert forall|j: int| 0 <= j < self.entries@.len() implies #[trigger] self.entries@[j]
                    == (if j == i { old(self).entries@[last] } else { old(self).entries@[j] }) by {}
                assert forall|j: int| 0 <= j < self.entries@.len() implies #[trigger] self.model@.contains_key(
                        self.entries@[j].0@,
                    ) && self.model@[self.entries@[j].0@] == self.entries@[j].1 by {
                    if j == i {
                        assert(old(self).entries@[last].0@ != old(self).entries@[i as int].0@);
                        assert(old(self).model@.contains_key(old(self).entries@[last].0@));
                    } else {
                        assert(old(self).entries@[j].0@ != old(self).entries@[i as int].0@);
                        assert(old(self).model@.contains_key(old(self).entries@[j].0@));
                    }
                }
                assert forall|a: int, b: int| 0 <= a < b < self.entries@.len() implies
                    self.entries@[a].0@ != self.entries@[b].0@ by {
                    if a == i {
                        assert(old(self).entries@[last].0@ != old(self).entries@[b].0@);
                    } else if b == i {
                        assert(old(self).entries@[last].0@ != old(self).entries@[a].0@);
                    }
                }
                assert forall|q: Seq<char>| #[trigger] self.model@.contains_key(q) implies exists|j: int|
                    0 <= j < self.entries@.len() && self.entries@[j].0@ == q by {
                    let j = choose|j: int| 0 <= j < old(self).entries@.len() && old(self).entries@[j].0@ == q;
                    if j == last {
                        assert(self.entries@[i as int].0@ == q);
                    } else {
                        assert(self.entries@[j].0@ == q);
                    }
                }
            },
            None => {
                assert(self.model@.remove(key@) =~= self.model@);
            },
        }
    }

    /// Points the entry at position `i` to `meta`; keys stay where they are.
    pub fn relocate(&mut self, i: usize, meta: IndexMeta)
        requires
            old(self).wf(),
            i < old(self).entries().len(),
        ensures
            final(self).wf(),
            final(self)@ == old(self)@.insert(old(self).entries()[i as int].0@, meta),
            final(self).entries().len() == old(self).entries().len(),
            forall|j: int|
                0 <= j < old(self).entries().len() ==> #[trigger] final(self).entries()[j].0@
                    == old(self).entries()[j].0@,
            final(self).entries()[i as int].1 == meta,
            forall|j: int|
                0 <= j < old(self).entries().len() && j != i ==> #[trigger] final(self).entries()[j].1
                    == old(self).entries()[j].1,
    {
        let ghost k = self.entries@[i as int].0@;
        let key = self.entries[i].0.clone();
        self.entries.set(i, (key, meta));
        self.model = Ghost(self.model@.insert(k, meta));
        assert forall|j: int| 0 <= j < self.entries@.len() implies #[trigger] self.entries@[j].0@
            == old(self).entries@[j].0@ by {}
        assert forall|j: int| 0 <= j < self.entries@.len() implies #[trigger] self.model@.contains_key(
                self.entries@[j].0@,
            ) && self.model@[self.entries@[j].0@] == self.entries@[j].1 by {
            if j != i {
                assert(self.entries@[j].0@ != k);
            }
        }
        assert forall|q: Seq<char>| #[trigger] self.model@.contains_key(q) implies exists|j: int|
            0 <= j < self.entries@.len() && self.entries@[j].0@ == q by {
            let j = choose|j: int| 0 <= j < old(self).entries@.len() && old(self).entries@[j].0@ == q;
            assert(self.entries@[j].0@ == q);
        }
    }

    /// The location held by the entry at position `i`.
    pub fn meta_at(&self, i: usize) -> (r: IndexMeta)
        requires
            self.wf(),
            i < self.entries().len(),
        ensures
            r == self.entries()[i as int].1,
    {
        self.entries[i].1
    }
}

} // verus!
