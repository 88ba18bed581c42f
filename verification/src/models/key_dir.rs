//! The key directory: for each live key, where its latest value lies.

use vstd::prelude::*;

use crate::models::in_memory::{BitCaskInMemoryValue, InMemoryView};

verus! {

/// Maps each key to the location of its latest value. Each key occurs at
/// most once.
pub struct KeyDirectory {
    entries: Vec<(Vec<u8>, BitCaskInMemoryValue)>,
    map: Ghost<Map<Seq<u8>, InMemoryView>>,
}

impl View for KeyDirectory {
    type V = Map<Seq<u8>, InMemoryView>;

    closed spec fn view(&self) -> Map<Seq<u8>, InMemoryView> {
        self.map@
    }
}

/// Whether `a` and `b` hold the same bytes.
pub(crate) fn bytes_equal(a: &[u8], b: &[u8]) -> (r: bool)
    ensures
        r == (a@ == b@),
{
    if a.len() != b.len() {
        return false;
    }
    let mut i: usize = 0;
    while i < a.len()
        invariant
            a@.len() == b@.len(),
            i <= a@.len(),
            forall|j: int| 0 <= j < i ==> a@[j] == b@[j],
        decreases a@.len() - i,
    {
        if a[i] != b[i] {
            return false;
        }
        i = i + 1;
    }
    assert(a@ == b@);
    true
}

impl KeyDirectory {
    /// The entries and the map agree, and no key occurs twice.
    pub closed spec fn wf(&self) -> bool {
        &&& forall|i: int, j: int|
            0 <= i < j < self.entries@.len() ==> #[trigger] self.entries@[i].0@
                != #[trigger] self.entries@[j].0@
        &&& forall|i: int|
            0 <= i < self.entries@.len() ==> {
                &&& self.map@.contains_key(#[trigger] self.entries@[i].0@)
                &&& self.map@[self.entries@[i].0@] == self.entries@[i].1@
            }
        &&& forall|k: Seq<u8>|
            #[trigger] self.map@.contains_key(k) ==> exists|i: int|
                0 <= i < self.entries@.len() && #[trigger] self.entries@[i].0@ == k
    }

    /// The position of `key` among the entries, if it is there.
    fn find(&self, key: &[u8]) -> (r: Option<usize>)
        requires
            self.wf(),
        ensures
            match r {
                Some(i) => i < self.entries@.len() && self.entries@[i as int].0@ == key@,
                None => !self@.contains_key(key@),
            },
    {
        let mut i: usize = 0;
        while i < self.entries.len()
            invariant
                self.wf(),
                i <= self.entries@.len(),
                forall|j: int| 0 <= j < i ==> #[trigger] self.entries@[j].0@ != key@,
            decreases self.entries@.len() - i,
        {
            if bytes_equal(self.entries[i].0.as_slice(), key) {
                return Some(i);
            }
            i = i + 1;
        }
        None
    }

    /// Where the latest value of `key` lies, if `key` is in the directory.
    pub fn get(&self, key: &[u8]) -> (r: Option<&BitCaskInMemoryValue>)
        requires
            self.wf(),
        ensures
            match r {
                Some(v) => self@.contains_key(key@) && v@ == self@[key@],
                None => !self@.contains_key(key@),
            },
    {
        match self.find(key) {
            Some(i) => Some(&self.entries[i].1),
            None => None,
        }
    }

    /// Records that the latest value of `key` lies at `value`.
    pub fn put(&mut self, key: &[u8], value: BitCaskInMemoryValue) -> (r: Result<(), std::io::Error>)
        requires
            old(self).wf(),
        ensures
            final(self).wf(),
            final(self)@ == old(self)@.insert(key@, value@),
            r is Ok,
    {
        let ghost new_map = self.map@.insert(key@, value@);
        match self.find(key) {
            Some(i) => {
                let k = vstd::slice::slice_to_vec(key);
                self.entries.set(i, (k, value));
                self.map = Ghost(new_map);
                assert forall|k2: Seq<u8>| #[trigger] self.map@.contains_key(k2) implies exists|
                    j: int,
                | 0 <= j < self.entries@.len() && #[trigger] self.entries@[j].0@ == k2 by {
                    if k2 != key@ {
                        let j = choose|j: int|
                            0 <= j < old(self).entries@.len() && #[trigger] old(
                                self,
                            ).entries@[j].0@ == k2;
                        assert(self.entries@[j].0@ == k2);
                    } else {
                        assert(self.entries@[i as int].0@ == k2);
                    }
                }
            },
            None => {
                let k = vstd::slice::slice_to_vec(key);
                self.entries.push((k, value));
                self.map = Ghost(new_map);
                assert forall|k2: Seq<u8>| #[trigger] self.map@.contains_key(k2) implies exists|
                    j: int,
                | 0 <= j < self.entries@.len() && #[trigger] self.entries@[j].0@ == k2 by {
                    if k2 != key@ {
                        let j = choose|j: int|
                            0 <= j < old(self).entries@.len() && #[trigger] old(
                                self,
                            ).entries@[j].0@ == k2;
                        assert(self.entries@[j].0@ == k2);
                    } else {
                        assert(self.entries@[self.entries@.len() - 1].0@ == k2);
                    }
                }
            },
        }
        Ok(())
    }

    /// Removes `key` from the directory, and gives back where its latest
    /// value lay, if it was there.
    pub fn delete(&mut self, key: &[u8]) -> (r: Option<BitCaskInMemoryValue>)
        requires
            old(self).wf(),
        ensures
            final(self).wf(),
            final(self)@ == old(self)@.remove(key@),
            match r {
                Some(v) => old(self)@.contains_key(key@) && v@ == old(self)@[key@],
                None => !old(self)@.contains_key(key@),
            },
    {
        match self.find(key) {
            Some(i) => {
                let ghost old_entries = self.entries@;
                let (_, v) = self.entries.remove(i);
                self.map = Ghost(self.map@.remove(key@));
                assert forall|a: int, b: int|
                    0 <= a < b < self.entries@.len() implies #[trigger] self.entries@[a].0@
                    != #[trigger] self.entries@[b].0@ by {
                    let a0 = if a < i { a } else { a + 1 };
                    let b0 = if b < i { b } else { b + 1 };
                    assert(self.entries@[a] == old_entries[a0]);
                    assert(self.entries@[b] == old_entries[b0]);
                }
                assert forall|a: int| 0 <= a < self.entries@.len() implies {
                    &&& self.map@.contains_key(#[trigger] self.entries@[a].0@)
                    &&& self.map@[self.entries@[a].0@] == self.entries@[a].1@
                } by {
                    let a0 = if a < i { a } else { a + 1 };
                    assert(self.entries@[a] == old_entries[a0]);
                    assert(old_entries[a0].0@ != old_entries[i as int].0@);
                }
                assert forall|k2: Seq<u8>| #[trigger] self.map@.contains_key(k2) implies exists|
                    j: int,
                | 0 <= j < self.entries@.len() && #[trigger] self.entries@[j].0@ == k2 by {
                    let j = choose|j: int|
                        0 <= j < old_entries.len() && #[trigger] old_entries[j].0@ == k2;
                    assert(j != i);
                    if j < i {
                        assert(self.entries@[j] == old_entries[j]);
                    } else {
                        assert(self.entries@[j - 1] == old_entries[j]);
                    }
                }
                Some(v)
            },
            None => {
                assert(self.map@.remove(key@) =~= self.map@);
                None
            },
        }
    }

    /// The keys in the directory, each once, in no particular order.
    pub fn keys(&self) -> (r: Vec<&[u8]>)
        requires
            self.wf(),
        ensures
            forall|i: int| 0 <= i < r@.len() ==> self@.contains_key(#[trigger] r@[i]@),
            forall|k: Seq<u8>|
                #[trigger] self@.contains_key(k) ==> exists|i: int|
                    0 <= i < r@.len() && #[trigger] r@[i]@ == k,
            forall|i: int, j: int| 0 <= i < j < r@.len() ==> #[trigger] r@[i]@ != #[trigger] r@[j]@,
    {
        let mut r: Vec<&[u8]> = Vec::new();
        let mut i: usize = 0;
        while i < self.entries.len()
            invariant
                self.wf(),
                i <= self.entries@.len(),
                r@.len() == i,
                forall|j: int| 0 <= j < i ==> #[trigger] r@[j]@ == self.entries@[j].0@,
            decreases self.entries@.len() - i,
        {
            r.push(self.entries[i].0.as_slice());
            i = i + 1;
        }
        assert forall|k: Seq<u8>| #[trigger] self@.contains_key(k) implies exists|j: int|
            0 <= j < r@.len() && #[trigger] r@[j]@ == k by {
            let j = choose|j: int|
                0 <= j < self.entries@.len() && #[trigger] self.entries@[j].0@ == k;
            assert(r@[j]@ == k);
        }
        assert forall|a: int, b: int| 0 <= a < b < r@.len() implies #[trigger] r@[a]@
            != #[trigger] r@[b]@ by {
            assert(r@[a]@ == self.entries@[a].0@);
            assert(r@[b]@ == self.entries@[b].0@);
        }
        assert forall|a: int| 0 <= a < r@.len() implies self@.contains_key(#[trigger] r@[a]@) by {
            assert(r@[a]@ == self.entries@[a].0@);
        }
        r
    }
}

impl Default for KeyDirectory {
    fn default() -> (r: Self)
        ensures
            r.wf(),
            r@ == Map::<Seq<u8>, InMemoryView>::empty(),
    {
        KeyDirectory { entries: Vec::new(), map: Ghost(Map::empty()) }
    }
}

/// After a key is recorded, the directory gives its location back, and
/// every other key keeps what it had.
pub proof fn lemma_get_after_put(
    before: Map<Seq<u8>, InMemoryView>,
    key: Seq<u8>,
    value: InMemoryView,
    other: Seq<u8>,
)
    ensures
        before.insert(key, value).contains_key(key),
        before.insert(key, value)[key] == value,
        other != key ==> (before.insert(key, value).contains_key(other) == before.contains_key(
            other,
        ) && before.insert(key, value)[other] == before[other]),
{
}

/// After a key is removed, the directory no longer has it, and every other
/// key keeps what it had.
pub proof fn lemma_get_after_delete(
    before: Map<Seq<u8>, InMemoryView>,
    key: Seq<u8>,
    other: Seq<u8>,
)
    ensures
        !before.remove(key).contains_key(key),
        other != key ==> (before.remove(key).contains_key(other) == before.contains_key(other)
            && before.remove(key)[other] == before[other]),
{
}

} // verus!
