use vstd::prelude::*;

verus! {

/// Records kept under string keys, in the order in which the keys were first
/// seen. No key occurs twice.
#[derive(Debug)]
pub struct Keyed<V> {
    keys: Vec<String>,
    values: Vec<V>,
}

impl<V> Keyed<V> {
    /// The keys, oldest first.
    pub closed spec fn keys(&self) -> Seq<Seq<char>> {
        self.keys@.map_values(|k: String| k@)
    }

    /// The records, each at the position of its key.
    pub closed spec fn values(&self) -> Seq<V> {
        self.values@
    }

    /// Every key has one record and occurs once.
    pub open spec fn wf(&self) -> bool {
        &&& self.keys().len() == self.values().len()
        &&& self.keys().no_duplicates()
    }

    /// Whether a record is kept under `key`.
    pub open spec fn contains(&self, key: Seq<char>) -> bool {
        self.keys().contains(key)
    }

    /// The record kept under `key`; arbitrary when there is none.
    pub open spec fn value_of(&self, key: Seq<char>) -> V {
        self.values()[self.keys().index_of(key)]
    }

    /// The records by key, each seen through `f`.
    pub open spec fn mapped<W>(&self, f: spec_fn(V) -> W) -> Map<Seq<char>, W> {
        Map::new(|k: Seq<char>| self.contains(k), |k: Seq<char>| f(self.value_of(k)))
    }

    /// In a well-formed store a key is found where it stands.
    pub proof fn lemma_index_of(&self, i: int)
        requires
            self.wf(),
            0 <= i < self.keys().len(),
        ensures
            self.contains(self.keys()[i]),
            self.keys().index_of(self.keys()[i]) == i,
            self.value_of(self.keys()[i]) == self.values()[i],
    {
        let ks = self.keys();
        let k = ks.index_of(ks[i]);
        assert(0 <= k < ks.len() && ks[k] == ks[i]);
    }

    /// Replacing the record at one position changes the mapping at its key only.
    pub proof fn lemma_mapped_update<W>(&self, after: &Self, i: int, f: spec_fn(V) -> W)
        requires
            self.wf(),
            0 <= i < self.keys().len(),
            after.keys() == self.keys(),
            after.values() == self.values().update(i, after.values()[i]),
        ensures
            after.wf(),
            after.mapped(f) == self.mapped(f).insert(self.keys()[i], f(after.values()[i])),
    {
        let ks = self.keys();
        self.lemma_index_of(i);
        assert forall|k: Seq<char>| self.contains(k) implies #[trigger] after.mapped(f)[k]
            == self.mapped(f).insert(ks[i], f(after.values()[i]))[k] by {
            let j = ks.index_of(k);
            assert(0 <= j < ks.len() && ks[j] == k);
            self.lemma_index_of(j);
        }
        assert(after.mapped(f) =~= self.mapped(f).insert(ks[i], f(after.values()[i])));
    }

    /// Appending a record under a new key adds that key to the mapping.
    pub proof fn lemma_mapped_push<W>(&self, after: &Self, key: Seq<char>, f: spec_fn(V) -> W)
        requires
            self.wf(),
            !self.contains(key),
            after.keys() == self.keys().push(key),
            after.values() == self.values().push(after.values().last()),
        ensures
            after.wf(),
            after.mapped(f) == self.mapped(f).insert(key, f(after.values().last())),
    {
        let ks = self.keys();
        let n = ks.len() as int;
        let goal = self.mapped(f).insert(key, f(after.values().last()));
        assert(after.keys()[n] == key);
        assert forall|a: int, b: int|
            0 <= a < after.keys().len() && 0 <= b < after.keys().len() && a != b implies after.keys()[a]
            != after.keys()[b] by {
            if a < n && b < n {
                assert(ks[a] != ks[b]);
            } else if a < n {
                assert(ks.contains(after.keys()[a]));
            } else {
                assert(ks.contains(after.keys()[b]));
            }
        }
        after.lemma_index_of(n);
        assert forall|k: Seq<char>| #[trigger]
            after.mapped(f).dom().contains(k) <==> goal.dom().contains(k) by {
            if self.contains(k) {
                let j = ks.index_of(k);
                assert(0 <= j < ks.len() && after.keys()[j] == k);
            }
            if after.contains(k) {
                let j = after.keys().index_of(k);
                assert(0 <= j < after.keys().len() && after.keys()[j] == k);
                if j < n {
                    assert(ks[j] == k);
                }
            }
        }
        assert forall|k: Seq<char>| after.mapped(f).dom().contains(k) implies #[trigger] after.mapped(
            f,
        )[k] == goal[k] by {
            if k != key {
                let j = ks.index_of(k);
                assert(0 <= j < ks.len() && ks[j] == k);
                self.lemma_index_of(j);
                assert(after.keys()[j] == k);
                after.lemma_index_of(j);
            }
        }
        assert(after.mapped(f) =~= goal);
    }

    /// A store without records.
    pub fn new() -> (s: Self)
        ensures
            s.wf(),
            s.keys() == Seq::<Seq<char>>::empty(),
            s.values() == Seq::<V>::empty(),
    {
        let s = Keyed { keys: Vec::new(), values: Vec::new() };
        assert(s.keys() =~= Seq::<Seq<char>>::empty());
        s
    }

    /// How many records are kept.
    pub fn len(&self) -> (n: usize)
        requires
            self.wf(),
        ensures
            n == self.keys().len(),
    {
        self.keys.len()
    }

    /// Position of `key`, if it is present.
    pub fn find(&self, key: &str) -> (r: Option<usize>)
        requires
            self.wf(),
        ensures
            match r {
                Some(i) => i < self.keys().len() && self.keys()[i as int] == key@
                    && self.keys().index_of(key@) == i && self.contains(key@),
                None => !self.contains(key@),
            },
    {
        let wanted = key.to_owned();
        let mut i: usize = 0;
        while i < self.keys.len()
            invariant
                self.wf(),
                i <= self.keys.len(),
                wanted@ == key@,
                forall|j: int| 0 <= j < i ==> self.keys()[j] != key@,
            decreases self.keys.len() - i,
        {
            if self.keys[i] == wanted {
                proof {
                    let ks = self.keys();
                    assert(ks[i as int] == key@);
                    let k = ks.index_of(key@);
                    assert(0 <= k < ks.len() && ks[k] == key@);
                }
                return Some(i);
            }
            i += 1;
        }
        None
    }

    /// The key at position `i`.
    pub fn key_at(&self, i: usize) -> (k: &String)
        requires
            self.wf(),
            i < self.keys().len(),
        ensures
            k@ == self.keys()[i as int],
    {
        &self.keys[i]
    }

    /// The record at position `i`.
    pub fn value_at(&self, i: usize) -> (v: &V)
        requires
            self.wf(),
            i < self.keys().len(),
        ensures
            *v == self.values()[i as int],
    {
        &self.values[i]
    }

    /// The record at position `i`, to change in place.
    pub fn value_at_mut(&mut self, i: usize) -> (v: &mut V)
        requires
            old(self).wf(),
            i < old(self).keys().len(),
        ensures
            *v == old(self).values()[i as int],
            final(self).keys() == old(self).keys(),
            final(self).values() == old(self).values().update(i as int, *final(v)),
            final(self).wf(),
    {
        &mut self.values[i]
    }

    /// Adds a record under a key that is not yet present.
    pub fn push(&mut self, key: String, value: V)
        requires
            old(self).wf(),
            !old(self).contains(key@),
        ensures
            final(self).wf(),
            final(self).keys() == old(self).keys().push(key@),
            final(self).values() == old(self).values().push(value),
    {
        self.keys.push(key);
        self.values.push(value);
        assert(self.keys() =~= old(self).keys().push(key@));
    }
}

} // verus!
