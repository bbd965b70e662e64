//! Maps and sets kept in key order, held in a vector.

use crate::order::{in_order, increasing, lemma_in_order, lemma_increasing_distinct, lists, Ordered};
use vstd::prelude::*;

verus! {

/// A value that can be copied and compared, both by what it stands for.
pub trait Value: DeepView + Sized {
    /// A copy.
    fn dup(&self) -> (r: Self)
        ensures
            r.deep_view() == self.deep_view(),
    ;

    /// Whether two values stand for the same thing.
    fn same(&self, other: &Self) -> (r: bool)
        ensures
            r == (self.deep_view() == other.deep_view()),
    ;
}

/// A value that can key a map: it stands for a value of a totally ordered type.
pub trait Key: Sized {
    /// What the key stands for.
    type O: Ordered;

    /// The ordered value that this key stands for.
    spec fn key(&self) -> Self::O;

    /// Whether this key comes before `other`.
    fn less(&self, other: &Self) -> (r: bool)
        ensures
            r == self.key().before(other.key()),
    ;

    /// A copy.
    fn copy_key(&self) -> (r: Self)
        ensures
            r.key() == self.key(),
    ;
}

impl Value for bool {
    fn dup(&self) -> (r: bool) {
        *self
    }

    fn same(&self, other: &bool) -> (r: bool) {
        *self == *other
    }
}

impl Value for u64 {
    fn dup(&self) -> (r: u64) {
        *self
    }

    fn same(&self, other: &u64) -> (r: bool) {
        *self == *other
    }
}

impl Value for () {
    fn dup(&self) -> (r: ()) {
        ()
    }

    fn same(&self, other: &()) -> (r: bool) {
        true
    }
}

impl<A: Value, B: Value> Value for (A, B) {
    fn dup(&self) -> (r: (A, B)) {
        (self.0.dup(), self.1.dup())
    }

    fn same(&self, other: &(A, B)) -> (r: bool) {
        self.0.same(&other.0) && self.1.same(&other.1)
    }
}

impl<T: Value> Value for Option<T> {
    fn dup(&self) -> (r: Option<T>) {
        match self {
            Some(t) => Some(t.dup()),
            None => None,
        }
    }

    fn same(&self, other: &Option<T>) -> (r: bool) {
        match (self, other) {
            (Some(a), Some(b)) => a.same(b),
            (None, None) => true,
            _ => false,
        }
    }
}

impl<T: Value> Value for Vec<T> {
    fn dup(&self) -> (r: Vec<T>) {
        let mut r: Vec<T> = Vec::new();
        let mut i: usize = 0;
        while i < self.len()
            invariant
                i <= self.len(),
                r.len() == i,
                forall|j: int| 0 <= j < i ==> (#[trigger] r@[j]).deep_view() == self@[j].deep_view(),
            decreases self.len() - i,
        {
            r.push(self[i].dup());
            i = i + 1;
        }
        assert(r.deep_view() =~= self.deep_view());
        r
    }

    fn same(&self, other: &Vec<T>) -> (r: bool) {
        if self.len() != other.len() {
            assert(self.deep_view().len() != other.deep_view().len());
            return false;
        }
        let mut i: usize = 0;
        while i < self.len()
            invariant
                i <= self.len(),
                self.len() == other.len(),
                forall|j: int| 0 <= j < i ==> (#[trigger] self@[j]).deep_view() == other@[j].deep_view(),
            decreases self.len() - i,
        {
            if !self[i].same(&other[i]) {
                assert(self.deep_view()[i as int] != other.deep_view()[i as int]);
                return false;
            }
            i = i + 1;
        }
        assert(self.deep_view() =~= other.deep_view());
        true
    }
}

impl Key for u8 {
    type O = u8;

    open spec fn key(&self) -> u8 {
        *self
    }

    fn less(&self, other: &u8) -> (r: bool) {
        *self < *other
    }

    fn copy_key(&self) -> (r: u8) {
        *self
    }
}

impl Key for bool {
    type O = bool;

    open spec fn key(&self) -> bool {
        *self
    }

    fn less(&self, other: &bool) -> (r: bool) {
        !*self && *other
    }

    fn copy_key(&self) -> (r: bool) {
        *self
    }
}

impl Key for u64 {
    type O = u64;

    open spec fn key(&self) -> u64 {
        *self
    }

    fn less(&self, other: &u64) -> (r: bool) {
        *self < *other
    }

    fn copy_key(&self) -> (r: u64) {
        *self
    }
}

impl<A: Key, B: Key> Key for (A, B) {
    type O = (A::O, B::O);

    open spec fn key(&self) -> (A::O, B::O) {
        (self.0.key(), self.1.key())
    }

    fn less(&self, other: &(A, B)) -> (r: bool) {
        proof {
            <A::O as Ordered>::total(self.0.key(), other.0.key());
            <A::O as Ordered>::irreflexive(self.0.key());
            if self.0.key().before(other.0.key()) && other.0.key().before(self.0.key()) {
                <A::O as Ordered>::transitive(self.0.key(), other.0.key(), self.0.key());
            }
        }
        if self.0.less(&other.0) {
            true
        } else if other.0.less(&self.0) {
            false
        } else {
            self.1.less(&other.1)
        }
    }

    fn copy_key(&self) -> (r: (A, B)) {
        (self.0.copy_key(), self.1.copy_key())
    }
}

/// The keys of a list of entries.
pub open spec fn keys_of<K: Key, V>(entries: Seq<(K, V)>) -> Seq<K::O> {
    Seq::new(entries.len(), |i: int| entries[i].0.key())
}

/// What a list of entries with distinct keys maps.
spec fn map_of<K: Key, V: DeepView>(entries: Seq<(K, V)>) -> Map<K::O, V::V> {
    Map::new(
        |k: K::O| keys_of(entries).contains(k),
        |k: K::O| entries[keys_of(entries).index_of(k)].1.deep_view(),
    )
}

/// A map kept in the order of its keys.
#[derive(Debug, PartialEq, Eq)]
pub struct OrdMap<K: Key, V> {
    entries: Vec<(K, V)>,
}

impl<K: Key, V: DeepView> View for OrdMap<K, V> {
    type V = Map<K::O, V::V>;

    closed spec fn view(&self) -> Map<K::O, V::V> {
        map_of(self.entries@)
    }
}

impl<K: Key, V: DeepView> DeepView for OrdMap<K, V> {
    type V = Map<K::O, V::V>;

    open spec fn deep_view(&self) -> Map<K::O, V::V> {
        self.view()
    }
}

/// What an increasing list of entries maps, and in which order.
proof fn lemma_map_of<K: Key, V: DeepView>(entries: Seq<(K, V)>)
    requires
        increasing(keys_of(entries)),
    ensures
        forall|i: int|
            0 <= i < entries.len() ==> {
                &&& map_of(entries).contains_key((#[trigger] entries[i]).0.key())
                &&& map_of(entries)[entries[i].0.key()] == entries[i].1.deep_view()
            },
        in_order(map_of(entries).dom()) == keys_of(entries),
        lists(keys_of(entries), map_of(entries).dom()),
        map_of(entries).dom().finite(),
        map_of(entries).dom().len() == entries.len(),
{
    let ks = keys_of(entries);
    lemma_increasing_distinct(ks);
    assert forall|i: int| 0 <= i < entries.len() implies {
        &&& map_of(entries).contains_key((#[trigger] entries[i]).0.key())
        &&& map_of(entries)[entries[i].0.key()] == entries[i].1.deep_view()
    } by {
        assert(ks[i] == entries[i].0.key());
        assert(ks.contains(ks[i]));
        assert(ks.index_of(ks[i]) == i);
    }
    assert(lists(ks, map_of(entries).dom()));
    lemma_in_order(ks, map_of(entries).dom());
    assert(map_of(entries).dom() =~= ks.to_set());
    ks.unique_seq_to_set();
    vstd::seq_lib::seq_to_set_is_finite(ks);
}

impl<K: Key, V> OrdMap<K, V> {
    #[verifier::type_invariant]
    spec fn wf(self) -> bool {
        increasing(keys_of(self.entries@))
    }
}

impl<K: Key, V: DeepView> OrdMap<K, V> {
    /// The keys, in order.
    pub open spec fn keys(&self) -> Seq<K::O> {
        in_order(self@.dom())
    }

    /// The empty map.
    pub fn new() -> (r: OrdMap<K, V>)
        ensures
            r@ == Map::<K::O, V::V>::empty(),
    {
        let r = OrdMap { entries: Vec::new() };
        assert(r@ =~= Map::<K::O, V::V>::empty());
        r
    }

    /// The number of keys.
    pub fn len(&self) -> (r: usize)
        ensures
            self@.dom().finite(),
            r == self@.dom().len(),
            r == self.keys().len(),
    {
        proof {
            use_type_invariant(self);
            lemma_map_of(self.entries@);
        }
        self.entries.len()
    }

    /// Whether nothing is mapped.
    pub fn is_empty(&self) -> (r: bool)
        ensures
            self@.dom().finite(),
            r == (self@.dom().len() == 0),
            r == (self@ == Map::<K::O, V::V>::empty()),
    {
        let r = self.len() == 0;
        proof {
            if r {
                assert(self@ =~= Map::<K::O, V::V>::empty());
            }
        }
        r
    }

    /// The key at a position of the order.
    pub fn key_at(&self, i: usize) -> (r: &K)
        requires
            i < self@.dom().len(),
        ensures
            r.key() == self.keys()[i as int],
            self@.contains_key(r.key()),
    {
        proof {
            use_type_invariant(self);
            lemma_map_of(self.entries@);
        }
        &self.entries[i].0
    }

    /// The value at a position of the order.
    pub fn value_at(&self, i: usize) -> (r: &V)
        requires
            i < self@.dom().len(),
        ensures
            self@.contains_key(self.keys()[i as int]),
            r.deep_view() == self@[self.keys()[i as int]],
    {
        proof {
            use_type_invariant(self);
            lemma_map_of(self.entries@);
        }
        &self.entries[i].1
    }

    /// The first position whose key is not before `key`.
    fn place(&self, key: &K) -> (n: usize)
        ensures
            n <= self.entries.len(),
            forall|i: int| 0 <= i < n ==> (#[trigger] self.entries@[i]).0.key().before(key.key()),
            n < self.entries.len() ==> !self.entries@[n as int].0.key().before(key.key()),
    {
        proof {
            use_type_invariant(self);
        }
        let mut lo: usize = 0;
        let mut hi: usize = self.entries.len();
        while lo < hi
            invariant
                lo <= hi <= self.entries.len(),
                increasing(keys_of(self.entries@)),
                forall|i: int| 0 <= i < lo ==> (#[trigger] self.entries@[i]).0.key().before(key.key()),
                hi < self.entries.len() ==> !self.entries@[hi as int].0.key().before(key.key()),
            decreases hi - lo,
        {
            let mid: usize = lo + (hi - lo) / 2;
            if self.entries[mid].0.less(key) {
                proof {
                    let ks = keys_of(self.entries@);
                    assert forall|i: int| 0 <= i < mid + 1 implies (
                    #[trigger] self.entries@[i]).0.key().before(key.key()) by {
                        if i < mid {
                            assert(ks[i].before(ks[mid as int]));
                            <K::O as Ordered>::transitive(ks[i], ks[mid as int], key.key());
                        }
                    }
                }
                lo = mid + 1;
            } else {
                hi = mid;
            }
        }
        lo
    }

    /// The position of a key, if it is mapped.
    fn find(&self, key: &K) -> (r: Option<usize>)
        ensures
            r is Some == self@.contains_key(key.key()),
            r is Some ==> r->0 < self.entries.len() && self.entries@[r->0 as int].0.key()
                == key.key(),
    {
        let n: usize = self.place(key);
        proof {
            use_type_invariant(self);
            lemma_map_of(self.entries@);
            let ks = keys_of(self.entries@);
            if self@.contains_key(key.key()) {
                let j = choose|j: int| 0 <= j < ks.len() && ks[j] == key.key();
                <K::O as Ordered>::irreflexive(key.key());
                assert(j >= n);
                if j > n {
                    assert(ks[n as int].before(ks[j]));
                    assert(false);
                }
            }
            if n < self.entries.len() {
                <K::O as Ordered>::total(self.entries@[n as int].0.key(), key.key());
                <K::O as Ordered>::irreflexive(key.key());
                assert(ks.contains(ks[n as int]));
            }
        }
        if n < self.entries.len() && !key.less(&self.entries[n].0) {
            Some(n)
        } else {
            None
        }
    }

    /// Whether a key is mapped.
    pub fn contains_key(&self, key: &K) -> (r: bool)
        ensures
            r == self@.contains_key(key.key()),
    {
        self.find(key).is_some()
    }

    /// What a key is mapped to.
    pub fn get(&self, key: &K) -> (r: Option<&V>)
        ensures
            r is Some == self@.contains_key(key.key()),
            r is Some ==> (r->0).deep_view() == self@[key.key()],
    {
        proof {
            use_type_invariant(self);
            lemma_map_of(self.entries@);
        }
        match self.find(key) {
            Some(i) => Some(&self.entries[i].1),
            None => None,
        }
    }

    /// Maps a key, and gives back what it was mapped to before.
    pub fn insert(&mut self, key: K, value: V) -> (r: Option<V>)
        ensures
            final(self)@ == old(self)@.insert(key.key(), value.deep_view()),
            r is Some == old(self)@.contains_key(key.key()),
            r is Some ==> (r->0).deep_view() == old(self)@[key.key()],
    {
        proof {
            use_type_invariant(&*self);
            lemma_map_of(self.entries@);
        }
        let found = self.find(&key);
        let n: usize = self.place(&key);
        let ghost before = self.entries@;
        let mut entries: Vec<(K, V)> = Vec::new();
        std::mem::swap(&mut entries, &mut self.entries);
        let r = match found {
            Some(i) => {
                let taken = entries.remove(i);
                entries.insert(i, (key, value));
                proof {
                    assert(entries@ =~= before.update(i as int, entries@[i as int]));
                    assert(keys_of(entries@) =~= keys_of(before));
                    lemma_replaced(before, entries@, i as int);
                }
                Some(taken.1)
            },
            None => {
                entries.insert(n, (key, value));
                proof {
                    lemma_inserted(before, entries@, n as int);
                }
                None
            },
        };
        self.entries = entries;
        r
    }

    /// Unmaps a key, and gives back what it was mapped to.
    pub fn remove(&mut self, key: &K) -> (r: Option<V>)
        ensures
            final(self)@ == old(self)@.remove(key.key()),
            r is Some == old(self)@.contains_key(key.key()),
            r is Some ==> (r->0).deep_view() == old(self)@[key.key()],
    {
        proof {
            use_type_invariant(&*self);
            lemma_map_of(self.entries@);
        }
        let found = self.find(key);
        match found {
            Some(i) => {
                let ghost before = self.entries@;
                let mut entries: Vec<(K, V)> = Vec::new();
                std::mem::swap(&mut entries, &mut self.entries);
                let taken = entries.remove(i);
                proof {
                    lemma_removed(before, entries@, i as int);
                }
                self.entries = entries;
                Some(taken.1)
            },
            None => {
                assert(self@ =~= self@.remove(key.key()));
                None
            },
        }
    }
}

proof fn lemma_replaced<K: Key, V: DeepView>(before: Seq<(K, V)>, after: Seq<(K, V)>, i: int)
    requires
        increasing(keys_of(before)),
        0 <= i < before.len(),
        after == before.update(i, after[i]),
        after[i].0.key() == before[i].0.key(),
    ensures
        map_of(after) == map_of(before).insert(after[i].0.key(), after[i].1.deep_view()),
{
    assert(keys_of(after) =~= keys_of(before));
    lemma_map_of(before);
    lemma_map_of(after);
    let ks = keys_of(before);
    lemma_increasing_distinct(ks);
    let m = map_of(before).insert(after[i].0.key(), after[i].1.deep_view());
    assert(ks.contains(ks[i]));
    assert forall|k: K::O| #[trigger] m.contains_key(k) implies map_of(after)[k] == m[k] by {
        assert(ks.contains(k));
        let j = ks.index_of(k);
        assert(ks[j] == k);
        assert(after[j].0.key() == k);
        if j != i {
            assert(ks[j] != ks[i]);
            assert(before[j].0.key() == k);
        }
    }
    assert(map_of(after) =~= m);
}

proof fn lemma_inserted<K: Key, V: DeepView>(before: Seq<(K, V)>, after: Seq<(K, V)>, n: int)
    requires
        increasing(keys_of(before)),
        0 <= n <= before.len(),
        after.len() == before.len() + 1,
        after == before.insert(n, after[n]),
        !map_of(before).contains_key(after[n].0.key()),
        forall|i: int| 0 <= i < n ==> (#[trigger] before[i]).0.key().before(after[n].0.key()),
        n < before.len() ==> !before[n].0.key().before(after[n].0.key()),
    ensures
        increasing(keys_of(after)),
        map_of(after) == map_of(before).insert(after[n].0.key(), after[n].1.deep_view()),
{
    let ks = keys_of(before);
    let ls = keys_of(after);
    let x = after[n].0.key();
    assert forall|i: int| n <= i < before.len() implies x.before(#[trigger] ks[i]) by {
        <K::O as Ordered>::total(ks[n], x);
        assert(ks.contains(ks[n]));
        if i > n {
            assert(ks[n].before(ks[i]));
            <K::O as Ordered>::transitive(x, ks[n], ks[i]);
        }
    }
    assert forall|i: int, j: int| 0 <= i < j < ls.len() implies #[trigger] ls[i].before(
        #[trigger] ls[j],
    ) by {
        let a = if i < n { i } else { i - 1 };
        let b = if j < n { j } else { j - 1 };
        if i == n {
            assert(ls[j] == ks[b]);
        } else if j == n {
            assert(ls[i] == before[i].0.key());
        } else {
            assert(ls[i] == ks[a]);
            assert(ls[j] == ks[b]);
        }
    }
    lemma_map_of(before);
    lemma_map_of(after);
    let m = map_of(before).insert(x, after[n].1.deep_view());
    assert forall|k: K::O| #[trigger] m.contains_key(k) <==> map_of(after).contains_key(k) by {
        if m.contains_key(k) {
            if k == x {
                assert(ls.contains(ls[n]));
            } else {
                let j = ks.index_of(k);
                assert(ks.contains(k));
                let b = if j < n { j } else { j + 1 };
                assert(ls[b] == k);
            }
        }
        if map_of(after).contains_key(k) {
            let j = ls.index_of(k);
            assert(ls.contains(k));
            if j != n {
                let a = if j < n { j } else { j - 1 };
                assert(ks[a] == k);
                assert(ks.contains(k));
            }
        }
    }
    assert forall|k: K::O| #[trigger] m.contains_key(k) implies map_of(after)[k] == m[k] by {
        if k == x {
            assert(after[n].0.key() == k);
        } else {
            let j = ks.index_of(k);
            assert(ks.contains(k));
            let b = if j < n { j } else { j + 1 };
            assert(after[b] == before[j]);
            assert(before[j].0.key() == k);
        }
    }
    assert(map_of(after) =~= m);
}

proof fn lemma_removed<K: Key, V: DeepView>(before: Seq<(K, V)>, after: Seq<(K, V)>, n: int)
    requires
        increasing(keys_of(before)),
        0 <= n < before.len(),
        after == before.remove(n),
    ensures
        increasing(keys_of(after)),
        map_of(after) == map_of(before).remove(before[n].0.key()),
{
    let ks = keys_of(before);
    let ls = keys_of(after);
    lemma_increasing_distinct(ks);
    assert forall|i: int, j: int| 0 <= i < j < ls.len() implies #[trigger] ls[i].before(
        #[trigger] ls[j],
    ) by {
        let a = if i < n { i } else { i + 1 };
        let b = if j < n { j } else { j + 1 };
        assert(ls[i] == ks[a]);
        assert(ls[j] == ks[b]);
    }
    lemma_map_of(before);
    lemma_map_of(after);
    let m = map_of(before).remove(before[n].0.key());
    assert forall|k: K::O| #[trigger] m.contains_key(k) <==> map_of(after).contains_key(k) by {
        if m.contains_key(k) {
            let j = ks.index_of(k);
            assert(ks.contains(k));
            let b = if j < n { j } else { j - 1 };
            assert(j != n);
            assert(ls[b] == k);
        }
        if map_of(after).contains_key(k) {
            let j = ls.index_of(k);
            assert(ls.contains(k));
            let a = if j < n { j } else { j + 1 };
            assert(ks[a] == k);
            assert(ks.contains(k));
            assert(ks[a] != ks[n]);
        }
    }
    assert forall|k: K::O| #[trigger] m.contains_key(k) implies map_of(after)[k] == m[k] by {
        let j = ks.index_of(k);
        assert(ks.contains(k));
        let b = if j < n { j } else { j - 1 };
        assert(j != n);
        assert(after[b] == before[j]);
        assert(before[j].0.key() == k);
    }
    assert(map_of(after) =~= m);
}

impl<K: Key, V: Value> Value for OrdMap<K, V> {
    fn dup(&self) -> (r: OrdMap<K, V>) {
        proof {
            use_type_invariant(self);
        }
        let mut entries: Vec<(K, V)> = Vec::new();
        let mut i: usize = 0;
        while i < self.entries.len()
            invariant
                i <= self.entries.len(),
                entries.len() == i,
                forall|j: int|
                    0 <= j < i ==> (#[trigger] entries@[j]).0.key() == self.entries@[j].0.key()
                        && entries@[j].1.deep_view() == self.entries@[j].1.deep_view(),
            decreases self.entries.len() - i,
        {
            entries.push((self.entries[i].0.copy_key(), self.entries[i].1.dup()));
            i = i + 1;
        }
        proof {
            lemma_same_entries(entries@, self.entries@);
        }
        OrdMap { entries }
    }

    fn same(&self, other: &OrdMap<K, V>) -> (r: bool) {
        proof {
            use_type_invariant(self);
            use_type_invariant(other);
            lemma_map_of(self.entries@);
            lemma_map_of(other.entries@);
        }
        if self.entries.len() != other.entries.len() {
            return false;
        }
        let mut i: usize = 0;
        while i < self.entries.len()
            invariant
                i <= self.entries.len(),
                self.entries.len() == other.entries.len(),
                self@ == map_of(self.entries@),
                other@ == map_of(other.entries@),
                increasing(keys_of(self.entries@)),
                increasing(keys_of(other.entries@)),
                forall|j: int|
                    0 <= j < i ==> (#[trigger] self.entries@[j]).0.key() == other.entries@[j].0.key()
                        && self.entries@[j].1.deep_view() == other.entries@[j].1.deep_view(),
            decreases self.entries.len() - i,
        {
            proof {
                lemma_map_of(self.entries@);
                lemma_map_of(other.entries@);
                <K::O as Ordered>::total(
                    self.entries@[i as int].0.key(),
                    other.entries@[i as int].0.key(),
                );
                <K::O as Ordered>::irreflexive(self.entries@[i as int].0.key());
            }
            if self.entries[i].0.less(&other.entries[i].0) || other.entries[i].0.less(
                &self.entries[i].0,
            ) {
                proof {
                    assert(keys_of(self.entries@)[i as int] != keys_of(other.entries@)[i as int]);
                }
                return false;
            }
            if !self.entries[i].1.same(&other.entries[i].1) {
                return false;
            }
            i = i + 1;
        }
        proof {
            lemma_same_entries(self.entries@, other.entries@);
        }
        true
    }
}

impl<K: Key, V: Clone> OrdMap<K, V> {
    /// Whether `r` has the same keys in the same order, with clones of the values.
    pub closed spec fn clones_to(&self, r: &OrdMap<K, V>) -> bool {
        &&& r.entries.len() == self.entries.len()
        &&& forall|i: int|
            0 <= i < r.entries.len() ==> (#[trigger] r.entries@[i]).0.key()
                == self.entries@[i].0.key() && cloned(self.entries@[i].1, r.entries@[i].1)
    }
}

impl<K: Key, V: Clone> Clone for OrdMap<K, V> {
    fn clone(&self) -> (r: OrdMap<K, V>)
        ensures
            self.clones_to(&r),
    {
        proof {
            use_type_invariant(self);
        }
        let mut entries: Vec<(K, V)> = Vec::new();
        let mut i: usize = 0;
        while i < self.entries.len()
            invariant
                i <= self.entries.len(),
                entries.len() == i,
                forall|j: int|
                    0 <= j < i ==> (#[trigger] entries@[j]).0.key() == self.entries@[j].0.key()
                        && cloned(self.entries@[j].1, entries@[j].1),
            decreases self.entries.len() - i,
        {
            entries.push((self.entries[i].0.copy_key(), self.entries[i].1.clone()));
            i = i + 1;
        }
        assert(keys_of(entries@) =~= keys_of(self.entries@));
        OrdMap { entries }
    }
}

proof fn lemma_same_entries<K: Key, V: DeepView>(a: Seq<(K, V)>, b: Seq<(K, V)>)
    requires
        increasing(keys_of(b)),
        a.len() == b.len(),
        forall|j: int|
            0 <= j < a.len() ==> (#[trigger] a[j]).0.key() == b[j].0.key() && a[j].1.deep_view()
                == b[j].1.deep_view(),
    ensures
        increasing(keys_of(a)),
        map_of(a) == map_of(b),
{
    assert(keys_of(a) =~= keys_of(b));
    lemma_map_of(a);
    lemma_map_of(b);
    assert forall|k: K::O| #[trigger] map_of(a).contains_key(k) implies map_of(a)[k] == map_of(
        b,
    )[k] by {
        let j = keys_of(a).index_of(k);
        assert(keys_of(a).contains(k));
        assert(a[j].0.key() == k);
        assert(b[j].0.key() == k);
    }
    assert(map_of(a) =~= map_of(b));
}

/// A set kept in order.
#[derive(Debug, PartialEq, Eq)]
pub struct OrdSet<K: Key> {
    map: OrdMap<K, ()>,
}

impl<K: Key> View for OrdSet<K> {
    type V = Set<K::O>;

    closed spec fn view(&self) -> Set<K::O> {
        self.map@.dom()
    }
}

impl<K: Key> DeepView for OrdSet<K> {
    type V = Set<K::O>;

    open spec fn deep_view(&self) -> Set<K::O> {
        self.view()
    }
}

impl<K: Key> OrdSet<K> {
    /// The empty set.
    pub fn new() -> (r: OrdSet<K>)
        ensures
            r@ == Set::<K::O>::empty(),
    {
        let r = OrdSet { map: OrdMap::new() };
        assert(r@ =~= Set::<K::O>::empty());
        r
    }

    /// The number of elements.
    pub fn len(&self) -> (r: usize)
        ensures
            self@.finite(),
            r == self@.len(),
            r == in_order(self@).len(),
    {
        self.map.len()
    }

    /// Whether nothing is in the set.
    pub fn is_empty(&self) -> (r: bool)
        ensures
            self@.finite(),
            r == (self@.len() == 0),
            r == (self@ == Set::<K::O>::empty()),
    {
        let r = self.map.len() == 0;
        proof {
            if r {
                assert(self@ =~= Set::<K::O>::empty());
            }
        }
        r
    }

    /// Whether `key` is in the set.
    pub fn contains(&self, key: &K) -> (r: bool)
        ensures
            r == self@.contains(key.key()),
    {
        self.map.contains_key(key)
    }

    /// The element at a position of the order.
    pub fn at(&self, i: usize) -> (r: &K)
        requires
            i < self@.len(),
        ensures
            r.key() == in_order(self@)[i as int],
            self@.contains(r.key()),
    {
        self.map.key_at(i)
    }

    /// The elements, in order.
    pub fn to_vec(&self) -> (r: Vec<K>)
        ensures
            r.len() == in_order(self@).len(),
            forall|i: int| 0 <= i < r.len() ==> (#[trigger] r@[i]).key() == in_order(self@)[i],
            self@.finite(),
    {
        let mut out: Vec<K> = Vec::new();
        let n: usize = self.len();
        let mut i: usize = 0;
        while i < n
            invariant
                i <= n,
                n == self@.len(),
                n == in_order(self@).len(),
                out.len() == i,
                forall|j: int| 0 <= j < i ==> (#[trigger] out@[j]).key() == in_order(self@)[j],
            decreases n - i,
        {
            out.push(self.at(i).copy_key());
            i = i + 1;
        }
        out
    }

    /// Puts a key into the set; says whether it was not in it before.
    pub fn insert(&mut self, key: K) -> (r: bool)
        ensures
            final(self)@ == old(self)@.insert(key.key()),
            r == !old(self)@.contains(key.key()),
    {
        let was = self.map.insert(key, ());
        assert(self@ =~= old(self)@.insert(key.key()));
        was.is_none()
    }

    /// Takes a key out of the set; says whether it was in it.
    pub fn remove(&mut self, key: &K) -> (r: bool)
        ensures
            final(self)@ == old(self)@.remove(key.key()),
            r == old(self)@.contains(key.key()),
    {
        let was = self.map.remove(key);
        assert(self@ =~= old(self)@.remove(key.key()));
        was.is_some()
    }
}

impl<K: Key> Clone for OrdSet<K> {
    fn clone(&self) -> (r: OrdSet<K>)
        ensures
            r@ == self@,
    {
        self.dup()
    }
}

impl<K: Key> Value for OrdSet<K> {
    fn dup(&self) -> (r: OrdSet<K>) {
        OrdSet { map: self.map.dup() }
    }

    fn same(&self, other: &OrdSet<K>) -> (r: bool) {
        let r = self.map.same(&other.map);
        proof {
            if self@ == other@ {
                assert(self.map@ =~= other.map@);
            }
        }
        r
    }
}

} // verus!
