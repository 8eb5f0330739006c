//! An in-memory key-value store over byte strings.
use vstd::prelude::*;

use crate::bytes::{bytes_eq, copy_bytes};

verus! {

/// A store mapping byte-string keys to byte-string values.
pub struct State {
    entries: Vec<(Vec<u8>, Vec<u8>)>,
    model: Ghost<Map<Seq<u8>, Seq<u8>>>,
}

impl View for State {
    type V = Map<Seq<u8>, Seq<u8>>;

    closed spec fn view(&self) -> Map<Seq<u8>, Seq<u8>> {
        self.model@
    }
}

impl State {
    /// The entries hold each key once, and hold exactly the pairs of the map.
    pub closed spec fn wf(&self) -> bool {
        &&& forall|i: int, j: int|
            0 <= i < j < self.entries@.len() ==> self.entries@[i].0@ != self.entries@[j].0@
        &&& forall|i: int|
            0 <= i < self.entries@.len() ==> {
                &&& #[trigger] self.model@.contains_key(self.entries@[i].0@)
                &&& self.model@[self.entries@[i].0@] == self.entries@[i].1@
            }
        &&& forall|k: Seq<u8>|
            #[trigger] self.model@.contains_key(k) ==> exists|i: int|
                0 <= i < self.entries@.len() && self.entries@[i].0@ == k
    }

    /// An empty store.
    pub fn new() -> (r: State)
        ensures
            r.wf(),
            r@ == Map::<Seq<u8>, Seq<u8>>::empty(),
    {
        State { entries: Vec::new(), model: Ghost(Map::empty()) }
    }

    /// The position of `key` among the entries, if it is there.
    fn find(&self, key: &[u8]) -> (r: Option<usize>)
        requires
            self.wf(),
        ensures
            match r {
                Some(i) => i < self.entries@.len() && self.entries@[i as int].0@ == key@,
                None => !self@.contains_key(key@),
            },
    {
        let mut i: usize = 0;
        while i < self.entries.len()
            invariant
                i <= self.entries@.len(),
                forall|j: int| 0 <= j < i ==> self.entries@[j].0@ != key@,
            decreases self.entries@.len() - i,
        {
            if bytes_eq(self.entries[i].0.as_slice(), key) {
                return Some(i);
            }
            i += 1;
        }
        None
    }

    /// The value stored under `key`, if any.
    pub fn get(&self, key: &[u8]) -> (r: Option<Vec<u8>>)
        requires
            self.wf(),
        ensures
            r.is_some() == self@.contains_key(key@),
            r.is_some() ==> r.unwrap()@ == self@[key@],
    {
        match self.find(key) {
            Some(i) => {
                assert(self.model@.contains_key(self.entries@[i as int].0@));
                Some(copy_bytes(self.entries[i].1.as_slice()))
            },
            None => None,
        }
    }

    /// Takes the value stored under `key` out of the store, if any.
    pub fn remove(&mut self, key: &[u8]) -> (r: Option<Vec<u8>>)
        requires
            old(self).wf(),
        ensures
            final(self).wf(),
            final(self)@ == old(self)@.remove(key@),
            r.is_some() == old(self)@.contains_key(key@),
            r.is_some() ==> r.unwrap()@ == old(self)@[key@],
    {
        match self.find(key) {
            Some(i) => {
                let ghost e = self.entries@;
                let ghost m = self.model@;
                assert(m.contains_key(e[i as int].0@));
                let (_, v) = self.entries.swap_remove(i);
                self.model = Ghost(m.remove(key@));
                proof {
                    let e2 = self.entries@;
                    let last = e.len() - 1;
                    assert(forall|j: int|
                        0 <= j < e2.len() ==> #[trigger] e2[j] == if j == i {
                            e[last]
                        } else {
                            e[j]
                        });
                    assert forall|k: Seq<u8>| #[trigger]
                        self.model@.contains_key(k) implies exists|j: int|
                        0 <= j < e2.len() && e2[j].0@ == k by {
                        let j0 = choose|j: int| 0 <= j < e.len() && e[j].0@ == k;
                        if j0 == last {
                            assert(e2[i as int].0@ == k);
                        } else {
                            assert(e2[j0].0@ == k);
                        }
                    }
                }
                Some(v)
            },
            None => {
                assert(self.model@.remove(key@) =~= self.model@);
                None
            },
        }
    }

    /// Stores `value` under `key`, replacing what was there.
    pub fn set(&mut self, key: Vec<u8>, value: Vec<u8>)
        requires
            old(self).wf(),
        ensures
            final(self).wf(),
            final(self)@ == old(self)@.insert(key@, value@),
    {
        let ghost e = self.entries@;
        let ghost m = self.model@;
        let ghost k = key@;
        let ghost v = value@;
        match self.find(key.as_slice()) {
            Some(i) => {
                self.entries.set(i, (key, value));
                self.model = Ghost(m.insert(k, v));
                proof {
                    let e2 = self.entries@;
                    assert(forall|j: int|
                        0 <= j < e2.len() && j != i ==> #[trigger] e2[j] == e[j]);
                    assert(e2[i as int].0@ == k && e2[i as int].1@ == value@);
                    assert(forall|j: int| 0 <= j < e2.len() ==> #[trigger] e2[j].0@ == e[j].0@);
                    assert forall|a: int, b: int| 0 <= a < b < e2.len() implies e2[a].0@
                        != e2[b].0@ by {
                        assert(e2[a].0@ == e[a].0@);
                        assert(e2[b].0@ == e[b].0@);
                    }
                    assert forall|j: int| 0 <= j < e2.len() implies {
                        &&& #[trigger] self.model@.contains_key(e2[j].0@)
                        &&& self.model@[e2[j].0@] == e2[j].1@
                    } by {
                        if j != i {
                            assert(m.contains_key(e[j].0@));
                            assert(e[j].0@ != k);
                        }
                    }
                    assert forall|k2: Seq<u8>| #[trigger]
                        self.model@.contains_key(k2) implies exists|j: int|
                        0 <= j < e2.len() && e2[j].0@ == k2 by {
                        if k2 == k {
                            assert(e2[i as int].0@ == k2);
                        } else {
                            let j0 = choose|j: int| 0 <= j < e.len() && e[j].0@ == k2;
                            assert(e2[j0].0@ == k2);
                        }
                    }
                    assert(self.wf());
                }
            },
            None => {
                self.entries.push((key, value));
                self.model = Ghost(m.insert(k, v));
                proof {
                    let e2 = self.entries@;
                    assert forall|j: int| 0 <= j < e2.len() implies {
                        &&& #[trigger] self.model@.contains_key(e2[j].0@)
                        &&& self.model@[e2[j].0@] == e2[j].1@
                    } by {
                        if j < e.len() {
                            assert(e2[j] == e[j]);
                            assert(m.contains_key(e[j].0@));
                        } else {
                            assert(e2[j].0@ == k && e2[j].1@ == v);
                        }
                    }
                    assert forall|a: int, b: int| 0 <= a < b < e2.len() implies e2[a].0@
                        != e2[b].0@ by {
                        assert(e2[a] == e[a]);
                        if b == e.len() {
                            assert(m.contains_key(e[a].0@));
                        } else {
                            assert(e2[b] == e[b]);
                        }
                    }
                    assert forall|k2: Seq<u8>| #[trigger]
                        self.model@.contains_key(k2) implies exists|j: int|
                        0 <= j < e2.len() && e2[j].0@ == k2 by {
                        if k2 == k {
                            assert(e2[e.len() as int].0@ == k2);
                        } else {
                            let j0 = choose|j: int| 0 <= j < e.len() && e[j].0@ == k2;
                            assert(e2[j0].0@ == k2);
                        }
                    }
                    assert(self.wf());
                }
            },
        }
    }
}

} // verus!
