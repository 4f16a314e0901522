//! A keyed container used for the unresolved input set and the resolved
//! output set. Entries keep their insertion order; keys are unique.
//!
//! The worklist operation `pop` removes the first remaining entry, so the
//! outer resolution loop visits recipes in declaration order and
//! diagnostics are deterministic.

use vstd::prelude::*;

verus! {

/// An entry with a name that serves as its key.
pub trait Keyed {
    /// The key, as a mathematical character sequence.
    spec fn key_spec(&self) -> Seq<char>;

    /// The key, as executable text.
    fn key(&self) -> (k: &String)
        ensures
            k@ == self.key_spec(),
    ;
}

/// True when some entry of `s` has key `k`.
pub open spec fn seq_has_key<T: Keyed>(s: Seq<T>, k: Seq<char>) -> bool {
    exists|i: int| 0 <= i < s.len() && #[trigger] s[i].key_spec() == k
}

/// A keyed container over a vector, with unique keys.
#[derive(Debug)]
pub struct Table<T> {
    entries: Vec<T>,
}

impl<T> View for Table<T> {
    type V = Seq<T>;

    closed spec fn view(&self) -> Seq<T> {
        self.entries@
    }
}

impl<T: Keyed> Table<T> {
    /// Well-formed: no two entries share a key.
    pub open spec fn wf(&self) -> bool {
        forall|i: int, j: int|
            0 <= i < j < self@.len() ==> #[trigger] self@[i].key_spec() != #[trigger] self@[j].key_spec()
    }

    /// An empty table.
    pub fn new() -> (r: Table<T>)
        ensures
            r@ == Seq::<T>::empty(),
            r.wf(),
    {
        let r = Table { entries: Vec::new() };
        proof {
            assert(r@ =~= Seq::<T>::empty());
        }
        r
    }

    pub fn len(&self) -> (r: usize)
        ensures
            r == self@.len(),
    {
        self.entries.len()
    }

    pub fn is_empty(&self) -> (r: bool)
        ensures
            r == (self@.len() == 0),
    {
        self.entries.len() == 0
    }

    /// All entries, in insertion order.
    pub fn values(&self) -> (r: &Vec<T>)
        ensures
            r@ == self@,
    {
        &self.entries
    }

    /// The entry at a position.
    pub fn get_at(&self, i: usize) -> (r: &T)
        requires
            i < self@.len(),
        ensures
            *r == self@[i as int],
    {
        &self.entries[i]
    }

    /// Removes and returns the first remaining entry, if any.
    pub fn pop(&mut self) -> (r: Option<T>)
        requires
            old(self).wf(),
        ensures
            final(self).wf(),
            old(self)@.len() == 0 ==> r is None && final(self)@ == old(self)@,
            old(self)@.len() > 0 ==> r == Some(old(self)@[0]) && final(self)@ == old(self)@.drop_first(),
    {
        if self.entries.len() == 0 {
            None
        } else {
            let e = self.entries.remove(0);
            proof {
                assert(self@ =~= old(self)@.drop_first());
            }
            Some(e)
        }
    }

    /// The position of the entry with the given key, if present.
    pub fn index_of(&self, key: &String) -> (r: Option<usize>)
        ensures
            r is Some <==> seq_has_key(self@, key@),
            r matches Some(i) ==> i < self@.len() && self@[i as int].key_spec() == key@,
    {
        let n = self.entries.len();
        let mut i: usize = 0;
        while i < n
            invariant
                n == self@.len(),
                i <= n,
                forall|j: int| 0 <= j < i ==> #[trigger] self@[j].key_spec() != key@,
            decreases n - i,
        {
            if *self.entries[i].key() == *key {
                return Some(i);
            }
            i += 1;
        }
        None
    }

    /// Whether an entry with the given key is present.
    pub fn contains_key(&self, key: &String) -> (r: bool)
        ensures
            r == seq_has_key(self@, key@),
    {
        self.index_of(key).is_some()
    }

    /// A reference to the entry with the given key, if present.
    pub fn get(&self, key: &String) -> (r: Option<&T>)
        ensures
            r is Some <==> seq_has_key(self@, key@),
            r matches Some(t) ==> exists|i: int|
                0 <= i < self@.len() && self@[i] == *t && #[trigger] self@[i].key_spec() == key@,
    {
        match self.index_of(key) {
            Some(i) => Some(&self.entries[i]),
            None => None,
        }
    }

    /// Removes and returns the entry with the given key, transferring
    /// ownership to the caller.
    pub fn remove(&mut self, key: &String) -> (r: Option<T>)
        requires
            old(self).wf(),
        ensures
            final(self).wf(),
            r is Some <==> seq_has_key(old(self)@, key@),
            r is None ==> final(self)@ == old(self)@,
            r matches Some(t) ==> {
                &&& t.key_spec() == key@
                &&& exists|i: int|
                    0 <= i < old(self)@.len() && old(self)@[i] == t
                        && final(self)@ == #[trigger] old(self)@.remove(i)
                &&& !seq_has_key(final(self)@, key@)
                &&& forall|m: int|
                    0 <= m < final(self)@.len() ==> old(self)@.contains(#[trigger] final(self)@[m])
                &&& final(self)@.len() == old(self)@.len() - 1
            },
            forall|n: Seq<char>|
                n != key@ ==> #[trigger] seq_has_key(final(self)@, n) == seq_has_key(
                    old(self)@,
                    n,
                ),
    {
        match self.index_of(key) {
            Some(i) => {
                let e = self.entries.remove(i);
                proof {
                    let s0 = old(self)@;
                    assert(self@ =~= s0.remove(i as int));
                    assert forall|m: int| 0 <= m < self@.len() implies s0.contains(
                        #[trigger] self@[m],
                    ) by {
                        if m < i {
                            assert(self@[m] == s0[m]);
                        } else {
                            assert(self@[m] == s0[m + 1]);
                        }
                    }
                    assert forall|m: int| 0 <= m < self@.len() implies #[trigger] self@[m].key_spec()
                        != key@ by {
                        if m < i {
                            assert(self@[m] == s0[m]);
                        } else {
                            assert(self@[m] == s0[m + 1]);
                        }
                    }
                    assert forall|m: int, n: int| 0 <= m < n < self@.len() implies #[trigger] self@[m].key_spec()
                        != #[trigger] self@[n].key_spec() by {
                        let m0: int = if m < i { m } else { m + 1 };
                        let n0: int = if n < i { n } else { n + 1 };
                        assert(self@[m] == s0[m0]);
                        assert(self@[n] == s0[n0]);
                    }
                    assert forall|n: Seq<char>| n != key@ implies #[trigger] seq_has_key(self@, n)
                        == seq_has_key(s0, n) by {
                        if seq_has_key(self@, n) {
                            let m = choose|m: int|
                                0 <= m < self@.len() && #[trigger] self@[m].key_spec() == n;
                            let m0: int = if m < i { m } else { m + 1 };
                            assert(s0[m0].key_spec() == n);
                        }
                        if seq_has_key(s0, n) {
                            let m0 = choose|m0: int|
                                0 <= m0 < s0.len() && #[trigger] s0[m0].key_spec() == n;
                            let m: int = if m0 < i { m0 } else { m0 - 1 };
                            assert(s0[i as int].key_spec() == key@);
                            assert(m0 != i);
                            assert(self@[m] == s0[m0]);
                            assert(self@[m].key_spec() == n);
                        }
                    }
                }
                Some(e)
            },
            None => None,
        }
    }

    /// Appends an entry whose key is not yet present.
    ///
    /// Inserting a duplicate key would signal an internal consistency
    /// fault of the caller, so it is ruled out rather than handled.
    pub fn insert(&mut self, entry: T)
        requires
            old(self).wf(),
            !seq_has_key(old(self)@, entry.key_spec()),
        ensures
            final(self).wf(),
            final(self)@ == old(self)@.push(entry),
    {
        self.entries.push(entry);
        proof {
            assert forall|m: int, n: int| 0 <= m < n < self@.len() implies #[trigger] self@[m].key_spec()
                != #[trigger] self@[n].key_spec() by {
                if n == self@.len() - 1 {
                    assert(self@[m] == old(self)@[m]);
                }
            }
        }
    }
}

} // verus!
