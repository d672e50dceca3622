//! A map that keeps its entries in the order of their keys.

use vstd::prelude::*;

use crate::text;
use crate::text::Relation;

verus! {

/// A key with a strict total order on what it stands for.
pub trait OrderedKey: Sized {
    type Model;

    spec fn model(&self) -> Self::Model;

    spec fn before(a: Self::Model, b: Self::Model) -> bool;

    proof fn before_is_total(a: Self::Model, b: Self::Model, c: Self::Model)
        ensures
            !Self::before(a, a),
            Self::before(a, b) && Self::before(b, c) ==> Self::before(a, c),
            Self::before(a, b) || a == b || Self::before(b, a),
    ;

    fn relation(&self, other: &Self) -> (r: Relation)
        ensures
            r == Relation::Before <==> Self::before(self.model(), other.model()),
            r == Relation::Same <==> self.model() == other.model(),
            r == Relation::After <==> Self::before(other.model(), self.model()),
    ;
}

impl OrderedKey for String {
    type Model = Seq<char>;

    open spec fn model(&self) -> Seq<char> {
        self@
    }

    open spec fn before(a: Seq<char>, b: Seq<char>) -> bool {
        text::text_before(a, b)
    }

    proof fn before_is_total(a: Seq<char>, b: Seq<char>, c: Seq<char>) {
        text::text_order_is_total(a, b, c);
    }

    fn relation(&self, other: &Self) -> (r: Relation) {
        text::relate_text(self.as_str(), other.as_str())
    }
}

impl OrderedKey for Vec<u8> {
    type Model = Seq<u8>;

    open spec fn model(&self) -> Seq<u8> {
        self@
    }

    open spec fn before(a: Seq<u8>, b: Seq<u8>) -> bool {
        text::bytes_before(a, b)
    }

    proof fn before_is_total(a: Seq<u8>, b: Seq<u8>, c: Seq<u8>) {
        text::bytes_order_is_total(a, b, c);
    }

    fn relation(&self, other: &Self) -> (r: Relation) {
        text::relate_bytes(self.as_slice(), other.as_slice())
    }
}

impl OrderedKey for u64 {
    type Model = u64;

    open spec fn model(&self) -> u64 {
        *self
    }

    open spec fn before(a: u64, b: u64) -> bool {
        a < b
    }

    proof fn before_is_total(a: u64, b: u64, c: u64) {
    }

    fn relation(&self, other: &Self) -> (r: Relation) {
        if *self < *other {
            Relation::Before
        } else if *other < *self {
            Relation::After
        } else {
            Relation::Same
        }
    }
}

impl OrderedKey for u32 {
    type Model = u32;

    open spec fn model(&self) -> u32 {
        *self
    }

    open spec fn before(a: u32, b: u32) -> bool {
        a < b
    }

    proof fn before_is_total(a: u32, b: u32, c: u32) {
    }

    fn relation(&self, other: &Self) -> (r: Relation) {
        if *self < *other {
            Relation::Before
        } else if *other < *self {
            Relation::After
        } else {
            Relation::Same
        }
    }
}

/// A map whose entries stand in strictly increasing key order.
#[derive(Clone, Debug)]
pub struct SortedMap<K, V> {
    entries: Vec<(K, V)>,
}

impl<K: OrderedKey, V> View for SortedMap<K, V> {
    type V = Map<K::Model, V>;

    closed spec fn view(&self) -> Map<K::Model, V> {
        Map::new(
            |m: K::Model| self.keys().contains(m),
            |m: K::Model| self.values()[self.keys().index_of(m)],
        )
    }
}

impl<K: OrderedKey, V> SortedMap<K, V> {
    /// The keys, in increasing order.
    pub closed spec fn keys(&self) -> Seq<K::Model> {
        Seq::new(self.entries@.len(), |i: int| self.entries@[i].0.model())
    }

    /// The values, in the order of their keys.
    pub closed spec fn values(&self) -> Seq<V> {
        Seq::new(self.entries@.len(), |i: int| self.entries@[i].1)
    }

    /// The keys increase strictly.
    pub open spec fn wf(&self) -> bool {
        increasing::<K>(self.keys())
    }

    proof fn lemma_view(&self)
        requires
            self.wf(),
        ensures
            forall|m: K::Model| self@.dom().contains(m) <==> self.keys().contains(m),
            forall|i: int| 0 <= i < self.keys().len() ==> self@[#[trigger] self.keys()[i]]
                == self.values()[i],
            self.keys().len() == self.values().len(),
            self.keys().len() == self.entries@.len(),
    {
        assert forall|i: int| 0 <= i < self.keys().len() implies self@[#[trigger] self.keys()[i]]
            == self.values()[i] by {
            let m = self.keys()[i];
            assert(self.keys().contains(m));
            let j = self.keys().index_of(m);
            K::before_is_total(m, m, m);
            assert(self.keys()[j] == m && 0 <= j < self.keys().len());
            if i < j {
                assert(K::before(self.keys()[i], self.keys()[j]));
            }
            if j < i {
                assert(K::before(self.keys()[j], self.keys()[i]));
            }
        }
    }

    /// The entries seen by position and the entries seen by key agree.
    pub proof fn entries_agree(&self)
        requires
            self.wf(),
        ensures
            self.keys().len() == self.values().len(),
            forall|m: K::Model| self@.dom().contains(m) <==> self.keys().contains(m),
            forall|i: int|
                0 <= i < self.keys().len() ==> self@.dom().contains(#[trigger] self.keys()[i])
                    && self@[self.keys()[i]] == self.values()[i],
    {
        self.lemma_view();
        assert forall|i: int| 0 <= i < self.keys().len() implies self@.dom().contains(
            #[trigger] self.keys()[i],
        ) by {
            assert(self.keys().contains(self.keys()[i]));
        }
    }

    pub fn new() -> (r: Self)
        ensures
            r.wf(),
            r@ == Map::<K::Model, V>::empty(),
            r.keys() == Seq::<K::Model>::empty(),
    {
        let r = SortedMap { entries: Vec::new() };
        proof {
            assert(r.keys() =~= Seq::<K::Model>::empty());
            r.lemma_view();
            assert(r@ =~= Map::<K::Model, V>::empty());
        }
        r
    }

    pub fn len(&self) -> (n: usize)
        ensures
            n == self.keys().len(),
            n == self.values().len(),
    {
        self.entries.len()
    }

    /// The key at position `i`.
    pub fn key_at(&self, i: usize) -> (k: &K)
        requires
            i < self.keys().len(),
        ensures
            k.model() == self.keys()[i as int],
    {
        &self.entries[i].0
    }

    /// The value at position `i`.
    pub fn value_at(&self, i: usize) -> (v: &V)
        requires
            i < self.keys().len(),
        ensures
            *v == self.values()[i as int],
    {
        &self.entries[i].1
    }

    /// The position of `key`, or the position where it would be inserted.
    fn position(&self, key: &K) -> (r: (usize, bool))
        requires
            self.wf(),
        ensures
            r.0 <= self.keys().len(),
            r.1 ==> r.0 < self.keys().len() && self.keys()[r.0 as int] == key.model(),
            r.1 <==> self.keys().contains(key.model()),
            forall|j: int| 0 <= j < r.0 ==> K::before(#[trigger] self.keys()[j], key.model()),
            !r.1 ==> forall|j: int|
                r.0 <= j < self.keys().len() ==> K::before(key.model(), #[trigger] self.keys()[j]),
    {
        let mut i: usize = 0;
        while i < self.entries.len()
            invariant
                self.wf(),
                i <= self.entries@.len(),
                self.keys().len() == self.entries@.len(),
                forall|j: int| 0 <= j < i ==> K::before(#[trigger] self.keys()[j], key.model()),
            decreases self.entries@.len() - i,
        {
            match self.entries[i].0.relation(key) {
                Relation::Before => {
                    assert(self.keys()[i as int] == self.entries@[i as int].0.model());
                },
                Relation::Same => {
                    assert(self.keys()[i as int] == key.model());
                    return (i, true);
                },
                Relation::After => {
                    proof {
                        assert(K::before(key.model(), self.keys()[i as int]));
                        assert forall|j: int| i <= j < self.keys().len() implies K::before(
                            key.model(),
                            #[trigger] self.keys()[j],
                        ) by {
                            K::before_is_total(key.model(), self.keys()[i as int], self.keys()[j]);
                        }
                        if self.keys().contains(key.model()) {
                            let j = self.keys().index_of(key.model());
                            K::before_is_total(key.model(), key.model(), key.model());
                            assert(K::before(self.keys()[j], key.model()) || K::before(
                                key.model(),
                                self.keys()[j],
                            ));
                        }
                    }
                    return (i, false);
                },
            }
            i = i + 1;
        }
        proof {
            if self.keys().contains(key.model()) {
                let j = self.keys().index_of(key.model());
                K::before_is_total(key.model(), key.model(), key.model());
                assert(K::before(self.keys()[j], key.model()));
            }
        }
        (i, false)
    }

    pub fn get(&self, key: &K) -> (r: Option<&V>)
        requires
            self.wf(),
        ensures
            r is Some <==> self@.dom().contains(key.model()),
            r matches Some(v) ==> *v == self@[key.model()],
    {
        let (i, found) = self.position(key);
        proof {
            self.lemma_view();
        }
        if found {
            Some(&self.entries[i].1)
        } else {
            None
        }
    }

    pub fn contains_key(&self, key: &K) -> (r: bool)
        requires
            self.wf(),
        ensures
            r == self@.dom().contains(key.model()),
    {
        let (i, found) = self.position(key);
        proof {
            self.lemma_view();
        }
        found
    }

    /// Binds `key` to `value`, replacing what it was bound to.
    pub fn insert(&mut self, key: K, value: V)
        requires
            old(self).wf(),
        ensures
            final(self).wf(),
            final(self)@ == old(self)@.insert(key.model(), value),
    {
        let (i, found) = self.position(&key);
        let ghost m = key.model();
        proof {
            self.lemma_view();
        }
        if found {
            let ghost pre = self.entries@;
            self.entries.set(i, (key, value));
            proof {
                assert(self.keys() =~= old(self).keys());
                self.lemma_view();
                assert(self@ =~= old(self)@.insert(m, value)) by {
                    assert forall|x: K::Model| self@.dom().contains(x) implies self@[x]
                        == old(self)@.insert(m, value)[x] by {
                        let j = self.keys().index_of(x);
                        assert(self.keys()[j] == x);
                        assert(self@[self.keys()[j]] == self.values()[j]);
                        assert(old(self)@[old(self).keys()[j]] == old(self).values()[j]);
                        K::before_is_total(x, m, x);
                        if j != i {
                            if j < i {
                                assert(K::before(self.keys()[j], self.keys()[i as int]));
                            } else {
                                assert(K::before(self.keys()[i as int], self.keys()[j]));
                            }
                            K::before_is_total(m, m, m);
                            assert(x != m);
                        }
                    }
                }
            }
        } else {
            self.entries.insert(i, (key, value));
            proof {
                let ks = self.keys();
                let ok = old(self).keys();
                assert(ks =~= ok.insert(i as int, m));
                assert(self.values() =~= old(self).values().insert(i as int, value));
                assert forall|a: int, b: int| 0 <= a < b < ks.len() implies K::before(
                    #[trigger] ks[a],
                    #[trigger] ks[b],
                ) by {
                    let a2 = if a < i {
                        a
                    } else {
                        a - 1
                    };
                    let b2 = if b < i {
                        b
                    } else {
                        b - 1
                    };
                    if a != i {
                        assert(ks[a] == ok[a2]);
                    }
                    if b != i {
                        assert(ks[b] == ok[b2]);
                    }
                    if a != i && b != i {
                        assert(K::before(ok[a2], ok[b2]));
                    }
                }
                assert(self.wf());
                self.lemma_view();
                let nm = old(self)@.insert(m, value);
                assert forall|x: K::Model| self@.dom().contains(x) <==> nm.dom().contains(x) by {
                    if self@.dom().contains(x) {
                        let j = ks.index_of(x);
                        assert(ks[j] == x);
                        if j < i {
                            assert(ok[j] == x);
                        } else if j > i {
                            assert(ok[j - 1] == x);
                        }
                    }
                    if nm.dom().contains(x) {
                        if x == m {
                            assert(ks[i as int] == m);
                        } else {
                            let j = ok.index_of(x);
                            assert(ok[j] == x);
                            if j < i {
                                assert(ks[j] == x);
                            } else {
                                assert(ks[j + 1] == x);
                            }
                        }
                    }
                }
                assert forall|x: K::Model| self@.dom().contains(x) implies self@[x] == nm[x] by {
                    let j = ks.index_of(x);
                    assert(ks[j] == x);
                    assert(self@[ks[j]] == self.values()[j]);
                    if j < i {
                        assert(ok[j] == x);
                        assert(old(self)@[ok[j]] == old(self).values()[j]);
                        K::before_is_total(m, m, m);
                    } else if j > i {
                        assert(ok[j - 1] == x);
                        assert(old(self)@[ok[j - 1]] == old(self).values()[j - 1]);
                        K::before_is_total(m, m, m);
                    }
                }
                assert(self@ =~= nm);
            }
        }
    }

    /// Unbinds `key`.
    pub fn remove(&mut self, key: &K)
        requires
            old(self).wf(),
        ensures
            final(self).wf(),
            final(self)@ == old(self)@.remove(key.model()),
    {
        let (i, found) = self.position(key);
        let ghost m = key.model();
        proof {
            self.lemma_view();
        }
        if found {
            self.remove_at(i);
        } else {
            assert(self@ =~= old(self)@.remove(m));
        }
    }

    /// Unbinds the key at position `i`.
    pub fn remove_at(&mut self, i: usize)
        requires
            old(self).wf(),
            i < old(self).keys().len(),
        ensures
            final(self).wf(),
            final(self).keys() == old(self).keys().remove(i as int),
            final(self).values() == old(self).values().remove(i as int),
            final(self)@ == old(self)@.remove(old(self).keys()[i as int]),
    {
        proof {
            self.lemma_view();
        }
        let ghost m = self.keys()[i as int];
        self.entries.remove(i);
        proof {
            let ks = self.keys();
            let ok = old(self).keys();
            assert(ks =~= ok.remove(i as int));
            assert(self.values() =~= old(self).values().remove(i as int));
            assert forall|a: int, b: int| 0 <= a < b < ks.len() implies K::before(
                #[trigger] ks[a],
                #[trigger] ks[b],
            ) by {
                let a2 = if a < i {
                    a
                } else {
                    a + 1
                };
                let b2 = if b < i {
                    b
                } else {
                    b + 1
                };
                assert(ks[a] == ok[a2]);
                assert(ks[b] == ok[b2]);
            }
            assert(self.wf());
            self.lemma_view();
            let nm = old(self)@.remove(m);
            K::before_is_total(m, m, m);
            assert forall|x: K::Model| self@.dom().contains(x) <==> nm.dom().contains(x) by {
                if self@.dom().contains(x) {
                    let j = ks.index_of(x);
                    assert(ks[j] == x);
                    if j < i {
                        assert(ok[j] == x);
                        assert(K::before(ok[j], ok[i as int]));
                    } else {
                        assert(ok[j + 1] == x);
                        assert(K::before(ok[i as int], ok[j + 1]));
                    }
                }
                if nm.dom().contains(x) {
                    let j = ok.index_of(x);
                    assert(ok[j] == x);
                    if j < i {
                        assert(ks[j] == x);
                    } else {
                        assert(j != i);
                        assert(ks[j - 1] == x);
                    }
                }
            }
            assert forall|x: K::Model| self@.dom().contains(x) implies self@[x] == nm[x] by {
                let j = ks.index_of(x);
                assert(ks[j] == x);
                assert(self@[ks[j]] == self.values()[j]);
                if j < i {
                    assert(ok[j] == x);
                    assert(old(self)@[ok[j]] == old(self).values()[j]);
                } else {
                    assert(ok[j + 1] == x);
                    assert(old(self)@[ok[j + 1]] == old(self).values()[j + 1]);
                }
            }
            assert(self@ =~= nm);
        }
    }
}

/// A set of names, in increasing order.
pub type NameSet = SortedMap<String, ()>;

/// A set of log indexes, in increasing order.
pub type IndexSet = SortedMap<u64, ()>;

/// The indexes of a set, in increasing order.
pub fn indexes_of(set: &IndexSet) -> (r: Vec<u64>)
    requires
        set.wf(),
    ensures
        forall|i: int, j: int| 0 <= i < j < r@.len() ==> r@[i] < r@[j],
        forall|n: u64| set@.dom().contains(n) <==> r@.contains(n),
{
    let mut out: Vec<u64> = Vec::new();
    let mut i: usize = 0;
    while i < set.len()
        invariant
            set.wf(),
            i <= set.keys().len(),
            out@.len() == i,
            forall|k: int| 0 <= k < i ==> out@[k] == set.keys()[k],
        decreases set.keys().len() - i,
    {
        out.push(*set.key_at(i));
        i = i + 1;
    }
    proof {
        set.entries_agree();
        assert(out@ =~= set.keys());
    }
    out
}

/// The same indexes.
pub fn duplicate_indexes(set: &IndexSet) -> (r: IndexSet)
    requires
        set.wf(),
    ensures
        r.wf(),
        r@.dom() == set@.dom(),
{
    split_indexes(set, 0, u64::MAX).0
}

/// Splits a set: the indexes from `low` to `high`, and the others.
pub fn split_indexes(set: &IndexSet, low: u64, high: u64) -> (r: (IndexSet, IndexSet))
    requires
        set.wf(),
    ensures
        r.0.wf(),
        r.1.wf(),
        forall|n: u64| #[trigger]
            r.0@.dom().contains(n) <==> set@.dom().contains(n) && low <= n <= high,
        forall|n: u64| #[trigger]
            r.1@.dom().contains(n) <==> set@.dom().contains(n) && !(low <= n <= high),
        r.0@.dom() == set@.dom().filter(|n: u64| low <= n <= high),
        r.1@.dom() == set@.dom().filter(|n: u64| !(low <= n <= high)),
        low == 0 && high == u64::MAX ==> r.0@.dom() == set@.dom(),
{
    let mut within: IndexSet = SortedMap::new();
    let mut rest: IndexSet = SortedMap::new();
    let ghost keys = set.keys();
    let mut i: usize = 0;
    while i < set.len()
        invariant
            set.wf(),
            within.wf(),
            rest.wf(),
            keys == set.keys(),
            i <= keys.len(),
            forall|n: u64| #[trigger]
                within@.dom().contains(n) <==> (exists|k: int| 0 <= k < i && #[trigger] keys[k] == n)
                    && low <= n <= high,
            forall|n: u64| #[trigger]
                rest@.dom().contains(n) <==> (exists|k: int| 0 <= k < i && #[trigger] keys[k] == n)
                    && !(low <= n <= high),
        decreases keys.len() - i,
    {
        let n: u64 = *set.key_at(i);
        if low <= n && n <= high {
            within.insert(n, ());
        } else {
            rest.insert(n, ());
        }
        i = i + 1;
    }
    proof {
        set.entries_agree();
        assert forall|n: u64| set@.dom().contains(n) <==> exists|k: int|
            0 <= k < i && #[trigger] keys[k] == n by {
            if set@.dom().contains(n) {
                assert(keys.contains(n));
                let k = keys.index_of(n);
                assert(keys[k] == n);
            }
        }
        assert(within@.dom() =~= set@.dom().filter(|n: u64| low <= n <= high));
        assert(rest@.dom() =~= set@.dom().filter(|n: u64| !(low <= n <= high)));
        if low == 0 && high == u64::MAX {
            assert(within@.dom() =~= set@.dom());
        }
    }
    (within, rest)
}

/// Splits a set: the indexes that `chosen` holds too, and the others.
pub fn split_by(set: &IndexSet, chosen: &IndexSet) -> (r: (IndexSet, IndexSet))
    requires
        set.wf(),
        chosen.wf(),
    ensures
        r.0.wf(),
        r.1.wf(),
        r.0@.dom() == set@.dom().intersect(chosen@.dom()),
        r.1@.dom() == set@.dom().difference(chosen@.dom()),
{
    let mut within: IndexSet = SortedMap::new();
    let mut rest: IndexSet = SortedMap::new();
    let ghost keys = set.keys();
    let mut i: usize = 0;
    while i < set.len()
        invariant
            set.wf(),
            chosen.wf(),
            within.wf(),
            rest.wf(),
            keys == set.keys(),
            i <= keys.len(),
            forall|n: u64| #[trigger]
                within@.dom().contains(n) <==> (exists|k: int| 0 <= k < i && #[trigger] keys[k] == n)
                    && chosen@.dom().contains(n),
            forall|n: u64| #[trigger]
                rest@.dom().contains(n) <==> (exists|k: int| 0 <= k < i && #[trigger] keys[k] == n)
                    && !chosen@.dom().contains(n),
        decreases keys.len() - i,
    {
        let n: u64 = *set.key_at(i);
        if chosen.contains_key(&n) {
            within.insert(n, ());
        } else {
            rest.insert(n, ());
        }
        i = i + 1;
    }
    proof {
        set.entries_agree();
        assert forall|n: u64| set@.dom().contains(n) <==> exists|k: int|
            0 <= k < i && #[trigger] keys[k] == n by {
            if set@.dom().contains(n) {
                assert(keys.contains(n));
                let k = keys.index_of(n);
                assert(keys[k] == n);
            }
        }
        assert(within@.dom() =~= set@.dom().intersect(chosen@.dom()));
        assert(rest@.dom() =~= set@.dom().difference(chosen@.dom()));
    }
    (within, rest)
}

/// Each key comes before every later one.
pub open spec fn increasing<K: OrderedKey>(keys: Seq<K::Model>) -> bool {
    forall|i: int, j: int|
        0 <= i < j < keys.len() ==> K::before(#[trigger] keys[i], #[trigger] keys[j])
}

/// There is one way to put things in order: increasing sequences of the same
/// elements are the same.
pub proof fn order_is_unique<K: OrderedKey>(a: Seq<K::Model>, b: Seq<K::Model>)
    requires
        increasing::<K>(a),
        increasing::<K>(b),
        forall|x: K::Model| a.contains(x) <==> b.contains(x),
    ensures
        a == b,
    decreases a.len(),
{
    if a.len() == 0 {
        if b.len() > 0 {
            assert(b.contains(b[0]));
        }
        assert(a =~= b);
    } else {
        assert(a.contains(a[0]));
        assert(b.len() > 0);
        let x = a.last();
        let y = b.last();
        assert(a.contains(x) && b.contains(y));
        let i = b.index_of(x);
        let j = a.index_of(y);
        K::before_is_total(x, y, x);
        K::before_is_total(y, x, y);
        if x != y {
            assert(K::before(b[i], b[b.len() - 1]));
            assert(K::before(a[j], a[a.len() - 1]));
        }
        assert forall|z: K::Model| a.drop_last().contains(z) <==> b.drop_last().contains(z) by {
            K::before_is_total(z, z, z);
            if a.drop_last().contains(z) {
                let k = a.drop_last().index_of(z);
                assert(a[k] == z);
                assert(a.contains(z));
                assert(K::before(a[k], a[a.len() - 1]));
                let l = b.index_of(z);
                assert(b[l] == z);
                assert(l < b.len() - 1);
                assert(b.drop_last()[l] == z);
            }
            if b.drop_last().contains(z) {
                let k = b.drop_last().index_of(z);
                assert(b[k] == z);
                assert(b.contains(z));
                assert(K::before(b[k], b[b.len() - 1]));
                let l = a.index_of(z);
                assert(a[l] == z);
                assert(l < a.len() - 1);
                assert(a.drop_last()[l] == z);
            }
        }
        order_is_unique::<K>(a.drop_last(), b.drop_last());
        assert(a =~= a.drop_last().push(x));
        assert(b =~= b.drop_last().push(y));
    }
}

/// Numbers are kept from the smallest to the largest.
pub proof fn numbers_are_kept_by_size(a: u64, b: u64, c: u32, d: u32)
    ensures
        u64::before(a, b) <==> a < b,
        u32::before(c, d) <==> c < d,
        a.model() == a,
        c.model() == c,
{
}

/// Names are kept by the first character in which they differ, and one that
/// another begins with comes before it.
pub proof fn names_are_kept_by_their_first_difference(
    common: Seq<char>,
    a: char,
    b: char,
    a_rest: Seq<char>,
    b_rest: Seq<char>,
)
    ensures
        a != b ==> (String::before(common + seq![a] + a_rest, common + seq![b] + b_rest) <==> a
            < b),
        String::before(common, common + seq![b] + b_rest),
        !String::before(common + seq![b] + b_rest, common),
{
    text::first_difference_orders_text(common, a, b, a_rest, b_rest);
}

/// Byte strings are kept by the first byte in which they differ, and one that
/// another begins with comes before it.
pub proof fn bytes_are_kept_by_their_first_difference(
    common: Seq<u8>,
    a: u8,
    b: u8,
    a_rest: Seq<u8>,
    b_rest: Seq<u8>,
)
    ensures
        a != b ==> (Vec::<u8>::before(common + seq![a] + a_rest, common + seq![b] + b_rest) <==> a
            < b),
        Vec::<u8>::before(common, common + seq![b] + b_rest),
        !Vec::<u8>::before(common + seq![b] + b_rest, common),
{
    text::first_difference_orders_bytes(common, a, b, a_rest, b_rest);
}

} // verus!
