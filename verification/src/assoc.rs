//! An insertion-ordered association list with unique keys, viewed as a map.
//! The keyed tables of the mobility state (chunk states, previous chunks,
//! stored snapshots, route registrations) are all built on it.
use vstd::prelude::*;

use crate::ids::{AgentId, ChunkCoord, NodeId, VehicleId};

verus! {

/// A value that identifies a table entry by an abstract key.
pub trait StableKey: Sized {
    type Key;

    /// The abstract key.
    spec fn key(&self) -> Self::Key;

    /// Whether two values have the same abstract key.
    fn same_key(&self, other: &Self) -> (r: bool)
        ensures
            r == (self.key() == other.key()),
    ;

    /// A value with the same key.
    fn copy_key(&self) -> (r: Self)
        ensures
            r.key() == self.key(),
    ;
}

impl StableKey for ChunkCoord {
    type Key = ChunkCoord;

    open spec fn key(&self) -> ChunkCoord {
        *self
    }

    fn same_key(&self, other: &Self) -> (r: bool) {
        *self == *other
    }

    fn copy_key(&self) -> (r: Self) {
        *self
    }
}

impl StableKey for AgentId {
    type Key = Seq<char>;

    open spec fn key(&self) -> Seq<char> {
        self@
    }

    fn same_key(&self, other: &Self) -> (r: bool) {
        self.same_as(other)
    }

    fn copy_key(&self) -> (r: Self) {
        self.copy_id()
    }
}

impl StableKey for VehicleId {
    type Key = Seq<char>;

    open spec fn key(&self) -> Seq<char> {
        self@
    }

    fn same_key(&self, other: &Self) -> (r: bool) {
        self.same_as(other)
    }

    fn copy_key(&self) -> (r: Self) {
        self.copy_id()
    }
}

impl StableKey for String {
    type Key = Seq<char>;

    open spec fn key(&self) -> Seq<char> {
        self@
    }

    fn same_key(&self, other: &Self) -> (r: bool) {
        *self == *other
    }

    fn copy_key(&self) -> (r: Self) {
        self.clone()
    }
}

impl StableKey for u64 {
    type Key = u64;

    open spec fn key(&self) -> u64 {
        *self
    }

    fn same_key(&self, other: &Self) -> (r: bool) {
        *self == *other
    }

    fn copy_key(&self) -> (r: Self) {
        *self
    }
}

impl StableKey for NodeId {
    type Key = u32;

    open spec fn key(&self) -> u32 {
        self.0
    }

    fn same_key(&self, other: &Self) -> (r: bool) {
        self.0 == other.0
    }

    fn copy_key(&self) -> (r: Self) {
        *self
    }
}

/// Entries `(key, value)`; no key occurs twice.
#[derive(Debug, Clone)]
pub struct AssocList<K, V> {
    pub entries: Vec<(K, V)>,
}

/// No two entries of `s` share a key.
pub open spec fn keys_unique<K: StableKey, V>(s: Seq<(K, V)>) -> bool {
    forall|i: int, j: int| 0 <= i < s.len() && 0 <= j < s.len() && i != j ==> (#[trigger] s[i]).0.key() != (#[trigger] s[j]).0.key()
}

/// Whether some entry of `s` has key `k`.
pub open spec fn has_key<K: StableKey, V>(s: Seq<(K, V)>, k: K::Key) -> bool {
    exists|i: int| 0 <= i < s.len() && (#[trigger] s[i]).0.key() == k
}

/// The map from keys to values that `s` describes.
pub open spec fn seq_map<K: StableKey, V>(s: Seq<(K, V)>) -> Map<K::Key, V> {
    Map::new(
        |k: K::Key| has_key(s, k),
        |k: K::Key| s[choose|i: int| 0 <= i < s.len() && (#[trigger] s[i]).0.key() == k].1,
    )
}

/// In a list with unique keys, the entry at `i` is what the map holds for its key.
pub proof fn lemma_seq_map_at<K: StableKey, V>(s: Seq<(K, V)>, i: int)
    requires
        keys_unique(s),
        0 <= i < s.len(),
    ensures
        seq_map(s).contains_key(s[i].0.key()),
        seq_map(s)[s[i].0.key()] == s[i].1,
{
    let k = s[i].0.key();
    assert(has_key(s, k));
    let j = choose|j: int| 0 <= j < s.len() && (#[trigger] s[j]).0.key() == k;
    assert(j == i);
}

/// Appending an entry with a fresh key inserts it into the map.
pub proof fn lemma_seq_map_push<K: StableKey, V>(s: Seq<(K, V)>, k: K, v: V)
    requires
        keys_unique(s),
        !has_key(s, k.key()),
    ensures
        keys_unique(s.push((k, v))),
        seq_map(s.push((k, v))) =~= seq_map(s).insert(k.key(), v),
{
    let t = s.push((k, v));
    assert forall|i: int, j: int| 0 <= i < t.len() && 0 <= j < t.len() && i != j
        implies (#[trigger] t[i]).0.key() != (#[trigger] t[j]).0.key() by {
        if i < s.len() && j < s.len() {
            assert(t[i] == s[i] && t[j] == s[j]);
        } else if i < s.len() {
            assert(t[i] == s[i]);
        } else {
            assert(t[j] == s[j]);
        }
    }
    assert forall|q: K::Key| #[trigger] seq_map(t).contains_key(q) <==> seq_map(s).insert(k.key(), v).contains_key(q) by {
        if has_key(t, q) && q != k.key() {
            let i = choose|i: int| 0 <= i < t.len() && (#[trigger] t[i]).0.key() == q;
            assert(i < s.len());
            assert(s[i] == t[i]);
        }
        if has_key(s, q) {
            let i = choose|i: int| 0 <= i < s.len() && (#[trigger] s[i]).0.key() == q;
            assert(t[i] == s[i]);
        }
        if q == k.key() {
            assert(t[s.len() as int].0.key() == q);
        }
    }
    assert forall|q: K::Key| #[trigger] seq_map(t).contains_key(q) implies seq_map(t)[q] == seq_map(s).insert(k.key(), v)[q] by {
        let i = choose|i: int| 0 <= i < t.len() && (#[trigger] t[i]).0.key() == q;
        lemma_seq_map_at(t, i);
        if i < s.len() {
            assert(t[i] == s[i]);
            lemma_seq_map_at(s, i);
        }
    }
}

/// Replacing the value of entry `i` (same key) updates the map at that key.
pub proof fn lemma_seq_map_update<K: StableKey, V>(s: Seq<(K, V)>, i: int, k: K, v: V)
    requires
        keys_unique(s),
        0 <= i < s.len(),
        k.key() == s[i].0.key(),
    ensures
        keys_unique(s.update(i, (k, v))),
        seq_map(s.update(i, (k, v))) =~= seq_map(s).insert(k.key(), v),
{
    let t = s.update(i, (k, v));
    assert forall|a: int, b: int| 0 <= a < t.len() && 0 <= b < t.len() && a != b
        implies (#[trigger] t[a]).0.key() != (#[trigger] t[b]).0.key() by {
        assert(t[a].0.key() == s[a].0.key());
        assert(t[b].0.key() == s[b].0.key());
    }
    assert forall|q: K::Key| #[trigger] seq_map(t).contains_key(q) <==> seq_map(s).insert(k.key(), v).contains_key(q) by {
        if has_key(t, q) {
            let a = choose|a: int| 0 <= a < t.len() && (#[trigger] t[a]).0.key() == q;
            assert(s[a].0.key() == q);
        }
        if has_key(s, q) {
            let a = choose|a: int| 0 <= a < s.len() && (#[trigger] s[a]).0.key() == q;
            assert(t[a].0.key() == q);
        }
    }
    assert forall|q: K::Key| #[trigger] seq_map(t).contains_key(q) implies seq_map(t)[q] == seq_map(s).insert(k.key(), v)[q] by {
        let a = choose|a: int| 0 <= a < t.len() && (#[trigger] t[a]).0.key() == q;
        lemma_seq_map_at(t, a);
        if a != i {
            assert(t[a] == s[a]);
            lemma_seq_map_at(s, a);
        }
    }
}

/// Removing entry `i` removes its key from the map.
pub proof fn lemma_seq_map_remove<K: StableKey, V>(s: Seq<(K, V)>, i: int)
    requires
        keys_unique(s),
        0 <= i < s.len(),
    ensures
        keys_unique(s.remove(i)),
        seq_map(s.remove(i)) =~= seq_map(s).remove(s[i].0.key()),
{
    let t = s.remove(i);
    let k = s[i].0.key();
    assert forall|a: int| 0 <= a < t.len() implies #[trigger] t[a] == s[if a < i { a } else { a + 1 }] by {}
    assert forall|a: int, b: int| 0 <= a < t.len() && 0 <= b < t.len() && a != b
        implies (#[trigger] t[a]).0.key() != (#[trigger] t[b]).0.key() by {
        let a2 = if a < i { a } else { a + 1 };
        let b2 = if b < i { b } else { b + 1 };
        assert(t[a] == s[a2] && t[b] == s[b2]);
    }
    assert forall|q: K::Key| #[trigger] seq_map(t).contains_key(q) <==> seq_map(s).remove(k).contains_key(q) by {
        if has_key(t, q) {
            let a = choose|a: int| 0 <= a < t.len() && (#[trigger] t[a]).0.key() == q;
            let a2 = if a < i { a } else { a + 1 };
            assert(t[a] == s[a2]);
            assert(a2 != i);
        }
        if has_key(s, q) && q != k {
            let a = choose|a: int| 0 <= a < s.len() && (#[trigger] s[a]).0.key() == q;
            assert(a != i);
            let a2 = if a < i { a } else { a - 1 };
            assert(t[a2] == s[a]);
        }
    }
    assert forall|q: K::Key| #[trigger] seq_map(t).contains_key(q) implies seq_map(t)[q] == seq_map(s).remove(k)[q] by {
        let a = choose|a: int| 0 <= a < t.len() && (#[trigger] t[a]).0.key() == q;
        let a2 = if a < i { a } else { a + 1 };
        assert(t[a] == s[a2]);
        lemma_seq_map_at(t, a);
        lemma_seq_map_at(s, a2);
    }
}

/// The map of a list with unique keys has one key per entry.
pub proof fn lemma_seq_map_dom<K: StableKey, V>(s: Seq<(K, V)>)
    requires
        keys_unique(s),
    ensures
        seq_map(s).dom().finite(),
        seq_map(s).dom().len() == s.len(),
    decreases s.len(),
{
    if s.len() == 0 {
        assert(seq_map(s).dom() =~= Set::empty());
    } else {
        let t = s.drop_last();
        let last = s.last();
        assert forall|i: int, j: int| 0 <= i < t.len() && 0 <= j < t.len() && i != j implies (#[trigger] t[i]).0.key() != (#[trigger] t[j]).0.key() by {
            assert(t[i] == s[i] && t[j] == s[j]);
        }
        lemma_seq_map_dom(t);
        if has_key(t, last.0.key()) {
            let i = choose|i: int| 0 <= i < t.len() && (#[trigger] t[i]).0.key() == last.0.key();
            assert(s[i] == t[i]);
            assert(s[s.len() - 1] == last);
        }
        lemma_seq_map_push(t, last.0, last.1);
        assert(t.push((last.0, last.1)) =~= s);
        assert(seq_map(s).dom() =~= seq_map(t).dom().insert(last.0.key()));
        assert(!seq_map(t).dom().contains(last.0.key()));
    }
}

impl<K: StableKey, V> AssocList<K, V> {
    /// Keys are unique.
    pub open spec fn well_formed(&self) -> bool {
        keys_unique(self.entries@)
    }

    /// The map this list stands for.
    pub open spec fn map(&self) -> Map<K::Key, V> {
        seq_map(self.entries@)
    }

    /// An empty list.
    pub fn new() -> (r: Self)
        ensures
            r.well_formed(),
            r.map() =~= Map::empty(),
            r.entries@.len() == 0,
    {
        AssocList { entries: Vec::new() }
    }

    /// Number of entries.
    pub fn len(&self) -> (r: usize)
        ensures
            r == self.entries@.len(),
    {
        self.entries.len()
    }

    /// Index of the entry with the key of `k`.
    pub fn find(&self, k: &K) -> (r: Option<usize>)
        requires
            self.well_formed(),
        ensures
            match r {
                Some(i) => i < self.entries@.len() && self.entries@[i as int].0.key() == k.key(),
                None => !has_key(self.entries@, k.key()),
            },
            r is Some <==> self.map().contains_key(k.key()),
    {
        let n = self.entries.len();
        let mut i: usize = 0;
        while i < n
            invariant
                n == self.entries@.len(),
                i <= n,
                forall|j: int| 0 <= j < i ==> (#[trigger] self.entries@[j]).0.key() != k.key(),
            decreases n - i,
        {
            if self.entries[i].0.same_key(k) {
                assert(has_key(self.entries@, k.key()));
                return Some(i);
            }
            i = i + 1;
        }
        None
    }

    /// The value stored for the key of `k`.
    pub fn get(&self, k: &K) -> (r: Option<&V>)
        requires
            self.well_formed(),
        ensures
            match r {
                Some(v) => self.map().contains_key(k.key()) && *v == self.map()[k.key()],
                None => !self.map().contains_key(k.key()),
            },
    {
        match self.find(k) {
            Some(i) => {
                proof { lemma_seq_map_at(self.entries@, i as int); }
                Some(&self.entries[i].1)
            },
            None => None,
        }
    }

    /// Stores `v` under the key of `k`, replacing any earlier value.
    pub fn insert(&mut self, k: K, v: V)
        requires
            old(self).well_formed(),
        ensures
            final(self).well_formed(),
            final(self).map() =~= old(self).map().insert(k.key(), v),
    {
        match self.find(&k) {
            Some(i) => {
                proof { lemma_seq_map_update(self.entries@, i as int, k, v); }
                self.entries.set(i, (k, v));
            },
            None => {
                proof { lemma_seq_map_push(self.entries@, k, v); }
                self.entries.push((k, v));
            },
        }
    }

    /// Removes the entry with the key of `k`, returning its value.
    pub fn remove(&mut self, k: &K) -> (r: Option<V>)
        requires
            old(self).well_formed(),
        ensures
            final(self).well_formed(),
            final(self).map() =~= old(self).map().remove(k.key()),
            match r {
                Some(v) => old(self).map().contains_key(k.key()) && v == old(self).map()[k.key()],
                None => !old(self).map().contains_key(k.key()),
            },
    {
        match self.find(k) {
            Some(i) => {
                proof {
                    lemma_seq_map_at(self.entries@, i as int);
                    lemma_seq_map_remove(self.entries@, i as int);
                }
                let (_, v) = self.entries.remove(i);
                Some(v)
            },
            None => None,
        }
    }

    /// The entry at position `i` (insertion order).
    pub fn entry_at(&self, i: usize) -> (r: &(K, V))
        requires
            i < self.entries@.len(),
        ensures
            *r == self.entries@[i as int],
    {
        &self.entries[i]
    }
}

} // verus!
