//! Insertion-ordered tables keyed by signal identities or dotted names.
//!
//! A table is a sequence of key/value entries with unique keys: inserting an
//! existing key replaces its value in place, inserting a new key appends it.
//! Lookup returns the value at the first (hence only) occurrence of a key.

use vstd::prelude::*;

verus! {

use crate::four_state::{FourStateBit, FourStateVal};
use crate::signal::WaveformSignal;

/// Spec: the table holds an entry for `k`.
pub open spec fn tbl_has_key<K, V>(s: Seq<(K, V)>, k: K) -> bool {
    exists|i: int| 0 <= i < s.len() && (#[trigger] s[i]).0 == k
}

/// Spec: index of the first entry for `k`, or -1 if there is none.
pub open spec fn tbl_index_of<K, V>(s: Seq<(K, V)>, k: K) -> int
    decreases s.len(),
{
    if s.len() == 0 {
        -1
    } else if s[0].0 == k {
        0
    } else if tbl_index_of(s.skip(1), k) < 0 {
        -1
    } else {
        1 + tbl_index_of(s.skip(1), k)
    }
}

/// Spec: the value stored for `k`, if any.
pub open spec fn tbl_get<K, V>(s: Seq<(K, V)>, k: K) -> Option<V> {
    if tbl_has_key(s, k) {
        Some(s[tbl_index_of(s, k)].1)
    } else {
        None
    }
}

/// Spec: the table after storing `v` under `k`: an existing entry is replaced
/// in place, a new key is appended.
pub open spec fn tbl_insert<K, V>(s: Seq<(K, V)>, k: K, v: V) -> Seq<(K, V)> {
    if tbl_has_key(s, k) {
        s.update(tbl_index_of(s, k), (k, v))
    } else {
        s.push((k, v))
    }
}

pub proof fn lemma_tbl_index_of_first<K, V>(s: Seq<(K, V)>, k: K, i: int)
    requires
        0 <= i < s.len(),
        s[i].0 == k,
        forall|j: int| 0 <= j < i ==> (#[trigger] s[j]).0 != k,
    ensures
        tbl_has_key(s, k),
        tbl_index_of(s, k) == i,
    decreases s.len(),
{
    if i == 0 {
    } else {
        assert(s[0].0 != k);
        assert(s.skip(1)[i - 1] == s[i]);
        assert forall|j: int| 0 <= j < i - 1 implies (#[trigger] s.skip(1)[j]).0 != k by {
            assert(s.skip(1)[j] == s[j + 1]);
        }
        lemma_tbl_index_of_first(s.skip(1), k, i - 1);
    }
}

pub proof fn lemma_tbl_index_of_props<K, V>(s: Seq<(K, V)>, k: K)
    requires
        tbl_has_key(s, k),
    ensures
        0 <= tbl_index_of(s, k) < s.len(),
        s[tbl_index_of(s, k)].0 == k,
        forall|j: int| 0 <= j < tbl_index_of(s, k) ==> (#[trigger] s[j]).0 != k,
    decreases s.len(),
{
    if s.len() > 0 && s[0].0 != k {
        let w = choose|i: int| 0 <= i < s.len() && (#[trigger] s[i]).0 == k;
        assert(s.skip(1)[w - 1] == s[w]);
        lemma_tbl_index_of_props(s.skip(1), k);
        assert forall|j: int| 0 <= j < tbl_index_of(s, k) implies (#[trigger] s[j]).0 != k by {
            if j > 0 {
                assert(s.skip(1)[j - 1] == s[j]);
            }
        }
    }
}

pub proof fn lemma_tbl_insert_has_key<K, V>(s: Seq<(K, V)>, k: K, v: V)
    ensures
        tbl_has_key(tbl_insert(s, k, v), k),
{
    if tbl_has_key(s, k) {
        lemma_tbl_index_of_props(s, k);
        let i = tbl_index_of(s, k);
        assert(tbl_insert(s, k, v)[i].0 == k);
    } else {
        assert(tbl_insert(s, k, v)[s.len() as int].0 == k);
    }
}

pub proof fn lemma_tbl_insert_preserves_key<K, V>(s: Seq<(K, V)>, k: K, v: V, k2: K)
    requires
        tbl_has_key(s, k2),
    ensures
        tbl_has_key(tbl_insert(s, k, v), k2),
{
    let w = choose|i: int| 0 <= i < s.len() && (#[trigger] s[i]).0 == k2;
    if tbl_has_key(s, k) {
        lemma_tbl_index_of_props(s, k);
        let i = tbl_index_of(s, k);
        if w == i {
            assert(tbl_insert(s, k, v)[i].0 == k);
        } else {
            assert(tbl_insert(s, k, v)[w].0 == k2);
        }
    } else {
        assert(tbl_insert(s, k, v)[w].0 == k2);
    }
}

/// Snapshot of the signal values of one trace at one time step: an
/// insertion-ordered mapping from signal identity to four-state value.
#[derive(Debug)]
pub struct SignalMap {
    entries: Vec<(WaveformSignal, FourStateBit)>,
}

impl View for SignalMap {
    type V = Seq<(Seq<Seq<char>>, FourStateVal)>;

    closed spec fn view(&self) -> Seq<(Seq<Seq<char>>, FourStateVal)> {
        Seq::new(self.entries@.len(), |i: int| (self.entries@[i].0@, self.entries@[i].1@))
    }
}

impl SignalMap {
    pub fn new() -> (r: Self)
        ensures
            r@ == Seq::<(Seq<Seq<char>>, FourStateVal)>::empty(),
    {
        let r = SignalMap { entries: Vec::new() };
        proof {
            assert(r@ =~= Seq::<(Seq<Seq<char>>, FourStateVal)>::empty());
        }
        r
    }

    pub fn len(&self) -> (n: usize)
        ensures
            n == self@.len(),
    {
        self.entries.len()
    }

    /// The identity of the entry at position `i`.
    pub fn key_at(&self, i: usize) -> (r: &WaveformSignal)
        requires
            i < self@.len(),
        ensures
            r@ == self@[i as int].0,
    {
        &self.entries[i].0
    }

    /// The value of the entry at position `i`.
    pub fn value_at(&self, i: usize) -> (r: &FourStateBit)
        requires
            i < self@.len(),
        ensures
            r@ == self@[i as int].1,
    {
        &self.entries[i].1
    }

    fn find_idx(&self, key: &WaveformSignal) -> (r: Option<usize>)
        ensures
            (r matches Some(i) ==> tbl_has_key(self@, key@) && tbl_index_of(self@, key@)
                == i as int && i < self@.len()),
            r is None ==> !tbl_has_key(self@, key@),
    {
        let n = self.entries.len();
        let mut i: usize = 0;
        while i < n
            invariant
                n == self.entries@.len(),
                n == self@.len(),
                i <= n,
                forall|j: int| 0 <= j < i ==> (#[trigger] self@[j]).0 != key@,
            decreases n - i,
        {
            if self.entries[i].0 == *key {
                proof {
                    assert(self@[i as int].0 == key@);
                    lemma_tbl_index_of_first(self@, key@, i as int);
                }
                return Some(i);
            }
            i = i + 1;
        }
        None
    }

    pub fn contains_key(&self, key: &WaveformSignal) -> (b: bool)
        ensures
            b == tbl_has_key(self@, key@),
    {
        match self.find_idx(key) {
            Some(_) => true,
            None => false,
        }
    }

    /// The value stored for `key`, if any.
    pub fn get(&self, key: &WaveformSignal) -> (r: Option<&FourStateBit>)
        ensures
            r is Some <==> tbl_has_key(self@, key@),
            (r matches Some(v) ==> tbl_get(self@, key@) == Some(v@)),
    {
        match self.find_idx(key) {
            Some(i) => Some(&self.entries[i].1),
            None => None,
        }
    }

    /// Stores `value` under `key`, replacing in place or appending.
    pub fn insert(&mut self, key: WaveformSignal, value: FourStateBit)
        ensures
            final(self)@ == tbl_insert(old(self)@, key@, value@),
    {
        let ghost old_view = self@;
        match self.find_idx(&key) {
            Some(i) => {
                let ghost kv = key@;
                let ghost vv = value@;
                self.entries[i] = (key, value);
                proof {
                    assert forall|j: int| 0 <= j < self@.len() implies self@[j] == old_view.update(
                        tbl_index_of(old_view, kv),
                        (kv, vv),
                    )[j] by {}
                    assert(self@ =~= tbl_insert(old_view, kv, vv));
                }
            },
            None => {
                let ghost kv = key@;
                let ghost vv = value@;
                self.entries.push((key, value));
                proof {
                    assert forall|j: int| 0 <= j < self@.len() implies self@[j] == old_view.push(
                        (kv, vv),
                    )[j] by {}
                    assert(self@ =~= tbl_insert(old_view, kv, vv));
                }
            },
        }
    }
}

/// An instance-rebased snapshot: an insertion-ordered mapping from dotted
/// instance-relative name to four-state value.
#[derive(Debug)]
pub struct RebasedMap {
    entries: Vec<(String, FourStateBit)>,
}

impl View for RebasedMap {
    type V = Seq<(Seq<char>, FourStateVal)>;

    closed spec fn view(&self) -> Seq<(Seq<char>, FourStateVal)> {
        Seq::new(self.entries@.len(), |i: int| (self.entries@[i].0@, self.entries@[i].1@))
    }
}

impl RebasedMap {
    pub fn new() -> (r: Self)
        ensures
            r@ == Seq::<(Seq<char>, FourStateVal)>::empty(),
    {
        let r = RebasedMap { entries: Vec::new() };
        proof {
            assert(r@ =~= Seq::<(Seq<char>, FourStateVal)>::empty());
        }
        r
    }

    pub fn len(&self) -> (n: usize)
        ensures
            n == self@.len(),
    {
        self.entries.len()
    }

    pub fn key_at(&self, i: usize) -> (r: &String)
        requires
            i < self@.len(),
        ensures
            r@ == self@[i as int].0,
    {
        &self.entries[i].0
    }

    pub fn value_at(&self, i: usize) -> (r: &FourStateBit)
        requires
            i < self@.len(),
        ensures
            r@ == self@[i as int].1,
    {
        &self.entries[i].1
    }

    fn find_idx(&self, key: &String) -> (r: Option<usize>)
        ensures
            (r matches Some(i) ==> tbl_has_key(self@, key@) && tbl_index_of(self@, key@)
                == i as int && i < self@.len()),
            r is None ==> !tbl_has_key(self@, key@),
    {
        let n = self.entries.len();
        let mut i: usize = 0;
        while i < n
            invariant
                n == self.entries@.len(),
                n == self@.len(),
                i <= n,
                forall|j: int| 0 <= j < i ==> (#[trigger] self@[j]).0 != key@,
            decreases n - i,
        {
            if self.entries[i].0 == *key {
                proof {
                    assert(self@[i as int].0 == key@);
                    lemma_tbl_index_of_first(self@, key@, i as int);
                }
                return Some(i);
            }
            i = i + 1;
        }
        None
    }

    pub fn contains_key(&self, key: &String) -> (b: bool)
        ensures
            b == tbl_has_key(self@, key@),
    {
        match self.find_idx(key) {
            Some(_) => true,
            None => false,
        }
    }

    pub fn get(&self, key: &String) -> (r: Option<&FourStateBit>)
        ensures
            r is Some <==> tbl_has_key(self@, key@),
            (r matches Some(v) ==> tbl_get(self@, key@) == Some(v@)),
    {
        match self.find_idx(key) {
            Some(i) => Some(&self.entries[i].1),
            None => None,
        }
    }

    pub fn insert(&mut self, key: String, value: FourStateBit)
        ensures
            final(self)@ == tbl_insert(old(self)@, key@, value@),
    {
        let ghost old_view = self@;
        match self.find_idx(&key) {
            Some(i) => {
                let ghost kv = key@;
                let ghost vv = value@;
                self.entries[i] = (key, value);
                proof {
                    assert forall|j: int| 0 <= j < self@.len() implies self@[j] == old_view.update(
                        tbl_index_of(old_view, kv),
                        (kv, vv),
                    )[j] by {}
                    assert(self@ =~= tbl_insert(old_view, kv, vv));
                }
            },
            None => {
                let ghost kv = key@;
                let ghost vv = value@;
                self.entries.push((key, value));
                proof {
                    assert forall|j: int| 0 <= j < self@.len() implies self@[j] == old_view.push(
                        (kv, vv),
                    )[j] by {}
                    assert(self@ =~= tbl_insert(old_view, kv, vv));
                }
            },
        }
    }
}

} // verus!
