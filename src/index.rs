//! The in-memory index from each key to the location of its latest record.
use vstd::hash_map::StringHashMap;
use vstd::prelude::*;

verus! {

/// Where a record lies: segment id, offset of its first byte, value length.
pub type Location = (usize, u64, u64);

/// Maps each key to the location of its latest record, and remembers the
/// keys in the order they were first inserted (a removal moves the last key
/// into the freed place).
pub struct Index {
    map: StringHashMap<Location>,
    slots: StringHashMap<usize>,
    order: Vec<String>,
}

impl View for Index {
    type V = Map<Seq<char>, Location>;

    closed spec fn view(&self) -> Map<Seq<char>, Location> {
        self.map@
    }
}

impl Index {
    /// The keys, in the order that `keys` returns them.
    pub closed spec fn key_seq(&self) -> Seq<Seq<char>> {
        self.order@.map_values(|s: String| s@)
    }

    /// The structure's invariant: `order` lists each key of the map once, and
    /// `slots` gives each key's place in `order`.
    pub closed spec fn wf(&self) -> bool {
        &&& self.slots@.dom() == self.map@.dom()
        &&& forall|i: int|
            0 <= i < self.order@.len() ==> {
                &&& #[trigger] self.slots@.contains_key(self.order@[i]@)
                &&& self.slots@[self.order@[i]@] == i
            }
        &&& forall|k: Seq<char>|
            #[trigger] self.slots@.contains_key(k) ==> {
                &&& self.slots@[k] < self.order@.len()
                &&& self.order@[self.slots@[k] as int]@ == k
            }
    }

    /// What a well-formed index's key sequence holds: each key of the map,
    /// once.
    pub proof fn lemma_key_seq(&self)
        requires
            self.wf(),
        ensures
            self.key_seq().no_duplicates(),
            forall|k: Seq<char>| self@.contains_key(k) <==> self.key_seq().contains(k),
            self.key_seq().len() == self@.len(),
    {
        let ks = self.key_seq();
        assert forall|i: int, j: int| 0 <= i < ks.len() && 0 <= j < ks.len() && i != j implies ks[i]
            != ks[j] by {
            assert(self.slots@.contains_key(self.order@[i]@));
            assert(self.slots@.contains_key(self.order@[j]@));
            assert(ks[i] == self.order@[i]@);
            assert(ks[j] == self.order@[j]@);
        }
        assert forall|k: Seq<char>| self@.contains_key(k) <==> ks.contains(k) by {
            if self@.contains_key(k) {
                assert(self.slots@.contains_key(k));
                let i = self.slots@[k] as int;
                assert(ks[i] == k);
            }
            if ks.contains(k) {
                let i = choose|i: int| 0 <= i < ks.len() && ks[i] == k;
                assert(self.slots@.contains_key(self.order@[i]@));
            }
        }
        ks.unique_seq_to_set();
        assert(ks.to_set() =~= self@.dom());
    }

    /// Creates an empty index.
    pub fn new() -> (r: Index)
        ensures
            r.wf(),
            r@ == Map::<Seq<char>, Location>::empty(),
            r.key_seq() == Seq::<Seq<char>>::empty(),
    {
        let r = Index { map: StringHashMap::new(), slots: StringHashMap::new(), order: Vec::new() };
        assert(r.key_seq() =~= Seq::<Seq<char>>::empty());
        assert(r.slots@.dom() =~= r.map@.dom());
        r
    }

    /// Points `key` at a new location, adding the key if it is absent.
    pub fn insert(&mut self, key: String, seg_id: usize, offset: u64, len: u64)
        requires
            old(self).wf(),
        ensures
            final(self).wf(),
            final(self)@ == old(self)@.insert(key@, (seg_id, offset, len)),
            final(self).key_seq() == if old(self)@.contains_key(key@) {
                old(self).key_seq()
            } else {
                old(self).key_seq().push(key@)
            },
    {
        if !self.map.contains_key(key.as_str()) {
            let ghost n = self.order@.len();
            self.slots.insert(key.clone(), self.order.len());
            self.order.push(key.clone());
            assert forall|i: int| 0 <= i < self.order@.len() implies {
                &&& #[trigger] self.slots@.contains_key(self.order@[i]@)
                &&& self.slots@[self.order@[i]@] == i
            } by {
                if i < n {
                    assert(old(self).slots@.contains_key(old(self).order@[i]@));
                }
            }
            assert(self.key_seq() =~= old(self).key_seq().push(key@));
        }
        self.map.insert(key, (seg_id, offset, len));
        assert(self.slots@.dom() =~= self.map@.dom());
    }

    /// The location of `key`, if it is present.
    pub fn get(&self, key: &str) -> (r: Option<&Location>)
        ensures
            match r {
                Some(loc) => self@.contains_key(key@) && *loc == self@[key@],
                None => !self@.contains_key(key@),
            },
    {
        self.map.get(key)
    }

    /// Removes `key`, returning the location it had.
    pub fn remove(&mut self, key: &str) -> (r: Option<Location>)
        requires
            old(self).wf(),
        ensures
            final(self).wf(),
            final(self)@ == old(self)@.remove(key@),
            r == if old(self)@.contains_key(key@) {
                Some(old(self)@[key@])
            } else {
                None::<Location>
            },
            !old(self)@.contains_key(key@) ==> final(self).key_seq() == old(self).key_seq(),
    {
        let slot = match self.slots.get(key) {
            None => {
                return None;
            },
            Some(i) => *i,
        };
        let loc = *self.map.get(key).unwrap();
        let last = self.order.len() - 1;
        let ghost order0 = self.order@;
        let ghost slots0 = self.slots@;
        let _ = self.order.swap_remove(slot);
        if slot < last {
            let moved = self.order[slot].clone();
            self.slots.insert(moved, slot);
        }
        self.slots.remove(key);
        self.map.remove(key);
        proof {
            assert(self.slots@.dom() =~= self.map@.dom());
            assert forall|i: int| 0 <= i < self.order@.len() implies {
                &&& #[trigger] self.slots@.contains_key(self.order@[i]@)
                &&& self.slots@[self.order@[i]@] == i
            } by {
                assert(slots0.contains_key(order0[i]@));
                assert(slots0.contains_key(order0[last as int]@));
                if i != slot {
                    assert(order0[i]@ != key@);
                    assert(order0[i]@ != order0[last as int]@);
                } else {
                    assert(order0[last as int]@ != key@);
                }
            }
            assert forall|k: Seq<char>| #[trigger] self.slots@.contains_key(k) implies {
                &&& self.slots@[k] < self.order@.len()
                &&& self.order@[self.slots@[k] as int]@ == k
            } by {
                assert(slots0.contains_key(k));
                if k == order0[last as int]@ {
                    assert(slots0[k] == last);
                }
            }
        }
        Some(loc)
    }

    /// Number of keys.
    pub fn len(&self) -> (r: usize)
        ensures
            r == self@.len(),
    {
        self.map.len()
    }

    /// Whether the index holds no key.
    pub fn is_empty(&self) -> (r: bool)
        ensures
            r == self@.is_empty(),
    {
        self.map.is_empty()
    }

    /// The keys, in the index's order.
    pub fn keys(&self) -> (r: Vec<String>)
        ensures
            r@.map_values(|s: String| s@) == self.key_seq(),
    {
        self.order.clone()
    }

    /// Whether `key` is present.
    pub fn contains(&self, key: &str) -> (r: bool)
        ensures
            r == self@.contains_key(key@),
    {
        self.map.contains_key(key)
    }

    /// Removes every key.
    pub fn clear(&mut self)
        ensures
            final(self).wf(),
            final(self)@ == Map::<Seq<char>, Location>::empty(),
            final(self).key_seq() == Seq::<Seq<char>>::empty(),
    {
        self.map.clear();
        self.slots.clear();
        self.order.clear();
        assert(self.key_seq() =~= Seq::<Seq<char>>::empty());
        assert(self.slots@.dom() =~= self.map@.dom());
    }
}

} // verus!
