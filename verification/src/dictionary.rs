//! Dictionaries: looking names up, setting and removing entries.

use vstd::prelude::*;
use vstd::slice::slice_to_vec;
use crate::model::{first_index, has_key, is_first, lemma_first_unique, lemma_without_none, lemma_without_step, lookup, with_entry, without_key, Value};
use crate::object::{Dictionary, Error, Object};

verus! {

/// Whether two byte strings hold the same bytes.
pub fn bytes_eq(a: &[u8], b: &[u8]) -> (r: bool)
    ensures
        r == (a@ == b@),
{
    if a.len() != b.len() {
        return false;
    }
    let mut i: usize = 0;
    while i < a.len()
        invariant
            i <= a.len(),
            a.len() == b.len(),
            forall|j: int| 0 <= j < i ==> a@[j] == b@[j],
        decreases a.len() - i,
    {
        if a[i] != b[i] {
            return false;
        }
        i += 1;
    }
    proof {
        assert(a@ =~= b@);
    }
    true
}

impl Dictionary {
    /// A dictionary without entries.
    pub fn new() -> (r: Dictionary)
        ensures
            r@ == Seq::<(Seq<u8>, Value)>::empty(),
    {
        let r = Dictionary { entries: Vec::new() };
        proof {
            assert(r@ =~= Seq::<(Seq<u8>, Value)>::empty());
        }
        r
    }

    /// The number of entries.
    pub fn len(&self) -> (r: usize)
        ensures
            r == self@.len(),
    {
        self.entries.len()
    }

    /// Whether there is no entry.
    pub fn is_empty(&self) -> (r: bool)
        ensures
            r == (self@.len() == 0),
    {
        self.entries.len() == 0
    }

    /// The place of the first entry under `key`, or the number of entries
    /// where there is none.
    pub fn position(&self, key: &[u8]) -> (r: usize)
        ensures
            r <= self@.len(),
            r < self@.len() <==> has_key(self@, key@),
            r < self@.len() ==> is_first(self@, key@, r as int) && first_index(self@, key@) == r,
    {
        let mut i: usize = 0;
        while i < self.entries.len()
            invariant
                i <= self.entries.len(),
                forall|j: int| 0 <= j < i ==> (#[trigger] self@[j]).0 != key@,
            decreases self.entries.len() - i,
        {
            if bytes_eq(self.entries[i].0.as_slice(), key) {
                proof {
                    assert(self@[i as int].0 == key@);
                    lemma_first_unique(self@, key@, i as int);
                }
                return i;
            }
            i += 1;
        }
        i
    }

    /// Whether there is an entry under `key`.
    pub fn has(&self, key: &[u8]) -> (r: bool)
        ensures
            r == has_key(self@, key@),
    {
        self.position(key) < self.entries.len()
    }

    /// The object under `key`.
    pub fn get(&self, key: &[u8]) -> (r: Result<&Object, Error>)
        ensures
            match r {
                Ok(o) => lookup(self@, key@) == Some(o@),
                Err(e) => e == Error::DictKey && lookup(self@, key@).is_none(),
            },
    {
        let i = self.position(key);
        if i < self.entries.len() {
            Ok(&self.entries[i].1)
        } else {
            Err(Error::DictKey)
        }
    }

    /// The object under `key`, to be changed in place.
    pub fn get_mut(&mut self, key: &[u8]) -> (r: Result<&mut Object, Error>)
        ensures
            match r {
                Ok(o) => lookup(old(self)@, key@) == Some(o@) && final(self)@ == with_entry(
                    old(self)@,
                    key@,
                    final(o)@,
                ),
                Err(e) => e == Error::DictKey && lookup(old(self)@, key@).is_none() && final(self)@
                    == old(self)@,
            },
    {
        let i = self.position(key);
        if i < self.entries.len() {
            Ok(&mut self.entries[i].1)
        } else {
            Err(Error::DictKey)
        }
    }

    /// Puts `value` under `key`: in place of the object that was there, or
    /// as a new last entry.
    pub fn set(&mut self, key: &[u8], value: Object)
        ensures
            final(self)@ == with_entry(old(self)@, key@, value@),
    {
        let i = self.position(key);
        if i < self.entries.len() {
            self.entries[i].1 = value;
            proof {
                assert(self@ =~= old(self)@.update(i as int, (key@, value@)));
            }
        } else {
            self.entries.push((slice_to_vec(key), value));
            proof {
                assert(self@ =~= old(self)@.push((key@, value@)));
            }
        }
    }

    /// Takes out the entries under `key` and returns the object of the first.
    pub fn remove(&mut self, key: &[u8]) -> (r: Option<Object>)
        ensures
            final(self)@ == without_key(old(self)@, key@),
            match r {
                Some(o) => lookup(old(self)@, key@) == Some(o@),
                None => lookup(old(self)@, key@).is_none(),
            },
    {
        let ghost before = self@;
        let mut found: Option<Object> = None;
        let mut i: usize = 0;
        let mut seen: Ghost<int> = Ghost(0);
        proof {
            lemma_without_none(before, key@);
            assert(self@.take(0) =~= without_key(before.take(0), key@));
            assert(self@.skip(0) =~= before.skip(0));
        }
        while i < self.entries.len()
            invariant
                0 <= seen@ <= before.len(),
                i <= self.entries.len(),
                self@.len() - i == before.len() - seen@,
                self@.take(i as int) == without_key(before.take(seen@), key@),
                self@.skip(i as int) == before.skip(seen@),
                match found {
                    Some(o) => has_key(before.take(seen@), key@) && lookup(before, key@) == Some(o@),
                    None => !has_key(before.take(seen@), key@),
                },
            decreases self.entries.len() - i,
        {
            proof {
                assert(self@[i as int] == self@.skip(i as int)[0]);
                assert(before[seen@] == before.skip(seen@)[0]);
                lemma_without_step(before, key@, seen@);
            }
            if bytes_eq(self.entries[i].0.as_slice(), key) {
                let ghost prev = self@;
                let gone = self.entries.remove(i);
                proof {
                    assert(self@ =~= prev.remove(i as int));
                    assert(self@.take(i as int) =~= prev.take(i as int));
                    assert(self@.skip(i as int) =~= prev.skip(i as int).skip(1));
                    assert(before.skip(seen@).skip(1) =~= before.skip(seen@ + 1));
                    assert(before.take(seen@ + 1)[seen@].0 == key@);
                    if found.is_none() {
                        assert forall|j: int| 0 <= j < seen@ implies (#[trigger] before[j]).0 != key@ by {
                            assert(before.take(seen@)[j] == before[j]);
                        }
                        assert(is_first(before, key@, seen@));
                        lemma_first_unique(before, key@, seen@);
                    }
                }
                if found.is_none() {
                    found = Some(gone.1);
                }
                proof {
                    seen@ = seen@ + 1;
                }
            } else {
                proof {
                    assert(self@.take(i + 1) =~= self@.take(i as int).push(self@[i as int]));
                    assert(self@.skip(i + 1) =~= self@.skip(i as int).skip(1));
                    assert(before.skip(seen@).skip(1) =~= before.skip(seen@ + 1));
                    assert forall|j: int| 0 <= j < seen@ + 1 implies (#[trigger] before.take(seen@ + 1)[j]).0 != key@ || found.is_some() by {
                        if found.is_none() && j < seen@ {
                            assert(before.take(seen@)[j] == before[j]);
                        }
                    }
                    if found.is_some() {
                        let w = choose|w: int| 0 <= w < before.take(seen@).len() && (#[trigger] before.take(seen@)[w]).0 == key@;
                        assert(before.take(seen@ + 1)[w].0 == key@);
                    }
                    seen@ = seen@ + 1;
                }
                i += 1;
            }
        }
        proof {
            assert(self@.take(i as int) =~= self@);
            assert(before.take(seen@) =~= before);
        }
        found
    }
}

} // verus!
