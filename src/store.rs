use vstd::prelude::*;

verus! {

/// Whether two byte strings are equal.
pub fn bytes_eq(a: &[u8], b: &[u8]) -> (r: bool)
    ensures
        r == (a@ == b@),
{
    if a.len() != b.len() {
        return false;
    }
    let mut k: usize = 0;
    while k < a.len()
        invariant
            k <= a.len() == b.len(),
            forall|j: int| 0 <= j < k ==> a@[j] == b@[j],
        decreases a.len() - k,
    {
        if a[k] != b[k] {
            return false;
        }
        k = k + 1;
    }
    assert(a@ =~= b@);
    true
}

fn copy_bytes(v: &Vec<u8>) -> (r: Vec<u8>)
    ensures
        r@ == v@,
{
    let r = v.clone();
    assert(r@ =~= v@);
    r
}

/// A mapping from keys to values, both byte strings, where a write replaces what the
/// key held before.
pub struct Store {
    entries: Vec<(Vec<u8>, Vec<u8>)>,
    model: Ghost<Map<Seq<u8>, Seq<u8>>>,
}

impl Store {
    /// What each key holds.
    pub closed spec fn view(&self) -> Map<Seq<u8>, Seq<u8>> {
        self.model@
    }

    /// The entries hold each key once, and hold exactly what the mapping holds.
    pub closed spec fn wf(&self) -> bool {
        &&& forall|i: int|
            0 <= i < self.entries@.len() ==> {
                &&& self.model@.contains_key(#[trigger] self.entries@[i].0@)
                &&& self.model@[self.entries@[i].0@] == self.entries@[i].1@
            }
        &&& forall|k: Seq<u8>|
            #[trigger] self.model@.contains_key(k) ==> exists|i: int|
                0 <= i < self.entries@.len() && self.entries@[i].0@ == k
        &&& forall|i: int, j: int|
            0 <= i < self.entries@.len() && 0 <= j < self.entries@.len() && i != j
                ==> self.entries@[i].0@ != self.entries@[j].0@
    }

    /// An empty store.
    pub fn new() -> (r: Store)
        ensures
            r.wf(),
            r@ == Map::<Seq<u8>, Seq<u8>>::empty(),
    {
        Store { entries: Vec::new(), model: Ghost(Map::empty()) }
    }

    fn find(&self, key: &[u8]) -> (r: Option<usize>)
        requires
            self.wf(),
        ensures
            match r {
                Some(i) => i < self.entries@.len() && self.entries@[i as int].0@ == key@,
                None => !self@.contains_key(key@),
            },
    {
        let mut i: usize = 0;
        while i < self.entries.len()
            invariant
                i <= self.entries@.len(),
                forall|j: int| 0 <= j < i ==> self.entries@[j].0@ != key@,
            decreases self.entries.len() - i,
        {
            if bytes_eq(self.entries[i].0.as_slice(), key) {
                return Some(i);
            }
            i = i + 1;
        }
        None
    }

    /// The value that `key` holds, if any.
    pub fn get(&self, key: &[u8]) -> (r: Option<Vec<u8>>)
        requires
            self.wf(),
        ensures
            match r {
                Some(v) => self@.contains_key(key@) && self@[key@] == v@,
                None => !self@.contains_key(key@),
            },
    {
        match self.find(key) {
            Some(i) => Some(copy_bytes(&self.entries[i].1)),
            None => None,
        }
    }

    /// Makes `key` hold `value`, replacing what it held before.
    pub fn set(&mut self, key: Vec<u8>, value: Vec<u8>)
        requires
            old(self).wf(),
        ensures
            final(self).wf(),
            final(self)@ == old(self)@.insert(key@, value@),
    {
        let ghost k = key@;
        let ghost val = value@;
        let ghost m = self.model@.insert(k, val);
        match self.find(key.as_slice()) {
            Some(i) => {
                self.entries.set(i, (key, value));
                self.model = Ghost(m);
                assert(forall|k2: Seq<u8>| #[trigger] m.contains_key(k2) ==> exists|j: int|
                    0 <= j < self.entries@.len() && self.entries@[j].0@ == k2) by {
                    assert forall|k2: Seq<u8>| #[trigger] m.contains_key(k2) implies exists|j: int|
                        0 <= j < self.entries@.len() && self.entries@[j].0@ == k2 by {
                        if k2 == k {
                            assert(self.entries@[i as int].0@ == k2);
                        } else {
                            assert(old(self).model@.contains_key(k2));
                            let j = choose|j: int| 0 <= j < old(self).entries@.len() && old(self).entries@[j].0@ == k2;
                            assert(self.entries@[j].0@ == k2);
                        }
                    }
                }
            },
            None => {
                self.entries.push((key, value));
                self.model = Ghost(m);
                assert(forall|k2: Seq<u8>| #[trigger] m.contains_key(k2) ==> exists|j: int|
                    0 <= j < self.entries@.len() && self.entries@[j].0@ == k2) by {
                    assert forall|k2: Seq<u8>| #[trigger] m.contains_key(k2) implies exists|j: int|
                        0 <= j < self.entries@.len() && self.entries@[j].0@ == k2 by {
                        if k2 == k {
                            assert(self.entries@[old(self).entries@.len() as int].0@ == k2);
                        } else {
                            assert(old(self).model@.contains_key(k2));
                            let j = choose|j: int| 0 <= j < old(self).entries@.len() && old(self).entries@[j].0@ == k2;
                            assert(self.entries@[j].0@ == k2);
                        }
                    }
                }
            },
        }
    }
}

} // verus!
