//! A map whose keys are byte strings.
//!
//! The entries are kept in ascending order of their keys, so that a key is found
//! by bisection and a walk over the map meets the keys in a fixed order.

use vstd::prelude::*;

verus! {

/// Whether `a` and `b` agree on their first `n` bytes and `a` is the smaller one
/// by what follows: it ends there, or has the smaller byte.
pub open spec fn parts(a: Seq<u8>, b: Seq<u8>, n: int) -> bool {
    &&& 0 <= n <= a.len()
    &&& n < b.len()
    &&& forall|i: int| 0 <= i < n ==> #[trigger] a[i] == b[i]
    &&& n < a.len() ==> a[n] < b[n]
}

/// Whether `a` comes before `b` in the order of byte strings.
pub open spec fn precedes(a: Seq<u8>, b: Seq<u8>) -> bool {
    exists|n: int| #[trigger] parts(a, b, n)
}

/// The three ways in which one byte string can stand to another.
pub enum Standing {
    Before,
    Same,
    After,
}

/// How `a` stands to `b`.
fn standing(a: &[u8], b: &[u8]) -> (r: Standing)
    ensures
        match r {
            Standing::Before => precedes(a@, b@),
            Standing::Same => a@ == b@,
            Standing::After => precedes(b@, a@),
        },
{
    let mut n: usize = 0;
    while n < a.len() && n < b.len()
        invariant
            n <= a@.len(),
            n <= b@.len(),
            forall|i: int| 0 <= i < n ==> #[trigger] a@[i] == b@[i],
        decreases a@.len() - n,
    {
        if a[n] < b[n] {
            assert(parts(a@, b@, n as int));
            return Standing::Before;
        }
        if b[n] < a[n] {
            assert(parts(b@, a@, n as int));
            return Standing::After;
        }
        n += 1;
    }
    if n < b.len() {
        assert(parts(a@, b@, n as int));
        Standing::Before
    } else if n < a.len() {
        assert(parts(b@, a@, n as int));
        Standing::After
    } else {
        assert(a@ =~= b@);
        Standing::Same
    }
}

/// The order of byte strings is a strict order.
pub proof fn law_order_is_strict(a: Seq<u8>, b: Seq<u8>, c: Seq<u8>)
    ensures
        !precedes(a, a),
        precedes(a, b) && precedes(b, c) ==> precedes(a, c),
{
    assert forall|n: int| !#[trigger] parts(a, a, n) by {}
    if precedes(a, b) && precedes(b, c) {
        let n = choose|n: int| #[trigger] parts(a, b, n);
        let m = choose|m: int| #[trigger] parts(b, c, m);
        let k = if n <= m {
            n
        } else {
            m
        };
        assert forall|i: int| 0 <= i < k implies #[trigger] a[i] == c[i] by {
            assert(a[i] == b[i]);
            assert(b[i] == c[i]);
        }
        if m < n {
            assert(a[m] == b[m]);
        }
        if n < m {
            assert(b[n] == c[n]);
        }
        assert(parts(a, c, k));
    }
}

/// Of two byte strings, one comes before the other or they are the same.
pub proof fn law_order_is_total(a: Seq<u8>, b: Seq<u8>)
    ensures
        precedes(a, b) || precedes(b, a) || a == b,
{
    lemma_agree_or_part(a, b, 0);
}

/// Byte strings that agree on their first `n` bytes part later, or not at all.
proof fn lemma_agree_or_part(a: Seq<u8>, b: Seq<u8>, n: int)
    requires
        0 <= n <= a.len(),
        n <= b.len(),
        forall|i: int| 0 <= i < n ==> #[trigger] a[i] == b[i],
    ensures
        precedes(a, b) || precedes(b, a) || a == b,
    decreases a.len() - n,
{
    if n < a.len() && n < b.len() && a[n] == b[n] {
        lemma_agree_or_part(a, b, n + 1);
    } else if n == a.len() && n == b.len() {
        assert(a =~= b);
    } else {
        assert(parts(a, b, n) || parts(b, a, n));
    }
}

/// A map from byte strings to values.
pub struct ByteMap<V> {
    entries: Vec<(Vec<u8>, V)>,
}

impl<V> ByteMap<V> {
    /// The keys, in ascending order.
    pub closed spec fn keys(&self) -> Seq<Seq<u8>> {
        Seq::new(self.entries@.len(), |i: int| self.entries@[i].0@)
    }

    /// The values, in the order of their keys.
    pub closed spec fn values(&self) -> Seq<V> {
        Seq::new(self.entries@.len(), |i: int| self.entries@[i].1)
    }

    /// The map.
    pub open spec fn view(&self) -> Map<Seq<u8>, V> {
        Map::new(
            |key: Seq<u8>| self.keys().contains(key),
            |key: Seq<u8>| self.values()[self.keys().index_of(key)],
        )
    }

    /// The keys are in strictly ascending order.
    pub closed spec fn wf(&self) -> bool {
        forall|i: int, j: int|
            0 <= i < j < self.keys().len() ==> precedes(
                #[trigger] self.keys()[i],
                #[trigger] self.keys()[j],
            )
    }

    /// The entries that the map is made of.
    pub proof fn lemma_entries(&self)
        requires
            self.wf(),
        ensures
            self.keys().len() == self.values().len(),
            self.keys().no_duplicates(),
            self@.dom() == self.keys().to_set(),
            self@.dom().finite(),
            self@.len() == self.keys().len(),
            forall|i: int|
                0 <= i < self.keys().len() ==> self@.contains_key(#[trigger] self.keys()[i])
                    && self@[self.keys()[i]] == self.values()[i],
    {
        let keys = self.keys();
        assert forall|i: int, j: int| 0 <= i < keys.len() && 0 <= j < keys.len() && i != j implies keys[i]
            != keys[j] by {
            law_order_is_strict(keys[i], keys[j], keys[j]);
            if i < j {
                assert(precedes(keys[i], keys[j]));
            } else {
                assert(precedes(keys[j], keys[i]));
            }
        }
        assert(self@.dom() =~= keys.to_set());
        keys.unique_seq_to_set();
        assert forall|i: int| 0 <= i < keys.len() implies self@.contains_key(#[trigger] keys[i])
            && self@[keys[i]] == self.values()[i] by {
            let at = keys.index_of(keys[i]);
            assert(keys.contains(keys[i]));
            assert(keys[at] == keys[i]);
        }
    }

    /// Creates an empty map.
    pub fn new() -> (r: ByteMap<V>)
        ensures
            r.wf(),
            r@ == Map::<Seq<u8>, V>::empty(),
            r.keys() == Seq::<Seq<u8>>::empty(),
    {
        let r = ByteMap { entries: Vec::new() };
        assert(r.keys() =~= Seq::empty());
        assert(r@ =~= Map::empty());
        r
    }

    /// How many keys there are.
    pub fn len(&self) -> (r: usize)
        requires
            self.wf(),
        ensures
            r == self@.len(),
            r == self.keys().len(),
    {
        proof {
            self.lemma_entries();
        }
        self.entries.len()
    }

    /// The entry with the `i`-th smallest key.
    pub fn entry(&self, i: usize) -> (r: (&Vec<u8>, &V))
        requires
            self.wf(),
            i < self.keys().len(),
        ensures
            r.0@ == self.keys()[i as int],
            *r.1 == self.values()[i as int],
    {
        let e = &self.entries[i];
        (&e.0, &e.1)
    }

    /// How many keys come before `key`.
    fn place(&self, key: &[u8]) -> (r: usize)
        requires
            self.wf(),
        ensures
            r <= self.keys().len(),
            forall|i: int| 0 <= i < r ==> precedes(#[trigger] self.keys()[i], key@),
            forall|i: int| r <= i < self.keys().len() ==> !precedes(#[trigger] self.keys()[i], key@),
    {
        let mut low: usize = 0;
        let mut high: usize = self.entries.len();
        while low < high
            invariant
                self.wf(),
                low <= high <= self.keys().len(),
                self.keys().len() == self.entries@.len(),
                forall|i: int| 0 <= i < low ==> precedes(#[trigger] self.keys()[i], key@),
                forall|i: int|
                    high <= i < self.keys().len() ==> !precedes(#[trigger] self.keys()[i], key@),
            decreases high - low,
        {
            let mid: usize = low + (high - low) / 2;
            let ghost middle = self.keys()[mid as int];
            match standing(self.entries[mid].0.as_slice(), key) {
                Standing::Before => {
                    assert forall|i: int| 0 <= i < mid + 1 implies precedes(
                        #[trigger] self.keys()[i],
                        key@,
                    ) by {
                        law_order_is_strict(self.keys()[i], middle, key@);
                        if i < mid {
                            assert(precedes(self.keys()[i], middle));
                        }
                    }
                    low = mid + 1;
                },
                _ => {
                    assert forall|i: int| mid <= i < self.keys().len() implies !precedes(
                        #[trigger] self.keys()[i],
                        key@,
                    ) by {
                        law_order_is_strict(middle, self.keys()[i], key@);
                        law_order_is_strict(key@, middle, key@);
                        law_order_is_strict(middle, key@, middle);
                        if i > mid {
                            assert(precedes(middle, self.keys()[i]));
                        }
                    }
                    high = mid;
                },
            }
        }
        low
    }

    /// Where `key` is, if it is there.
    fn find(&self, key: &[u8]) -> (r: Option<usize>)
        requires
            self.wf(),
        ensures
            r matches Some(i) ==> i < self.keys().len() && self.keys()[i as int] == key@,
            r is None ==> !self.keys().contains(key@),
    {
        let i: usize = self.place(key);
        if i < self.entries.len() {
            if let Standing::Same = standing(self.entries[i].0.as_slice(), key) {
                assert(self.keys()[i as int] == key@);
                return Some(i);
            }
        }
        assert(!self.keys().contains(key@)) by {
            if self.keys().contains(key@) {
                let j = choose|j: int| 0 <= j < self.keys().len() && self.keys()[j] == key@;
                law_order_is_strict(key@, key@, key@);
                if i < j {
                    assert(precedes(self.keys()[i as int], self.keys()[j]));
                }
            }
        }
        None
    }

    /// Borrows the value of `key`, if it is there.
    pub fn get(&self, key: &[u8]) -> (r: Option<&V>)
        requires
            self.wf(),
        ensures
            r is Some <==> self@.contains_key(key@),
            r matches Some(v) ==> *v == self@[key@],
    {
        proof {
            self.lemma_entries();
        }
        match self.find(key) {
            Some(i) => {
                assert(self@.contains_key(self.keys()[i as int]));
                Some(&self.entries[i].1)
            },
            None => None,
        }
    }

    /// Mutably borrows the value of `key`, if it is there.
    pub fn get_mut(&mut self, key: &[u8]) -> (r: Option<&mut V>)
        requires
            old(self).wf(),
        ensures
            final(self).wf(),
            r is Some <==> old(self)@.contains_key(key@),
            match r {
                Some(v) => {
                    &&& *v == old(self)@[key@]
                    &&& final(self)@ == old(self)@.insert(key@, *final(v))
                },
                None => final(self)@ == old(self)@,
            },
            final(self).keys() == old(self).keys(),
    {
        proof {
            self.lemma_entries();
        }
        match self.find(key) {
            Some(i) => {
                proof {
                    lemma_replaceable(*self, i as int);
                }
                Some(&mut self.entries[i].1)
            },
            None => None,
        }
    }

    /// Gives `key` a value, in place of the one it has, if any.
    pub fn insert(&mut self, key: Vec<u8>, value: V)
        requires
            old(self).wf(),
        ensures
            final(self).wf(),
            final(self)@ == old(self)@.insert(key@, value),
    {
        match self.find(key.as_slice()) {
            Some(i) => {
                self.entries[i].1 = value;
                proof {
                    lemma_replaced(*old(self), *self, i as int, value);
                }
            },
            None => {
                let i: usize = self.place(key.as_slice());
                self.entries.insert(i, (key, value));
                proof {
                    lemma_inserted(*old(self), *self, i as int);
                }
            },
        }
    }

    /// Removes `key` and returns its value, if it is there.
    pub fn remove(&mut self, key: &[u8]) -> (r: Option<V>)
        requires
            old(self).wf(),
        ensures
            final(self).wf(),
            r is Some <==> old(self)@.contains_key(key@),
            r matches Some(v) ==> v == old(self)@[key@],
            final(self)@ == old(self)@.remove(key@),
    {
        match self.find(key) {
            Some(i) => {
                let (_, value) = self.entries.remove(i);
                proof {
                    old(self).lemma_entries();
                    assert(old(self)@.contains_key(old(self).keys()[i as int]));
                    lemma_removed(*old(self), *self, i as int);
                }
                Some(value)
            },
            None => {
                assert(self@ =~= old(self)@.remove(key@));
                None
            },
        }
    }
}

/// Putting another value in the place of one keeps the keys.
proof fn lemma_replaced<V>(a: ByteMap<V>, b: ByteMap<V>, i: int, v: V)
    requires
        a.wf(),
        0 <= i < a.entries@.len(),
        b.entries@ == a.entries@.update(i, (a.entries@[i].0, v)),
    ensures
        b.wf(),
        b.keys() == a.keys(),
        a@.contains_key(a.keys()[i]),
        a@[a.keys()[i]] == a.entries@[i].1,
        b@ == a@.insert(a.keys()[i], v),
{
    assert(b.keys() =~= a.keys());
    a.lemma_entries();
    b.lemma_entries();
    assert(a@.contains_key(a.keys()[i]));
    assert forall|key: Seq<u8>| #[trigger] b@.contains_key(key) implies b@[key] == a@.insert(
        a.keys()[i],
        v,
    )[key] by {
        let j = a.keys().index_of(key);
        assert(a.keys().contains(key));
        assert(a.keys()[j] == key);
        assert(b@[b.keys()[j]] == b.values()[j]);
        assert(a@[a.keys()[j]] == a.values()[j]);
    }
    assert(b@ =~= a@.insert(a.keys()[i], v));
}

/// Whatever value comes in the place of one, the keys are kept.
proof fn lemma_replaceable<V>(a: ByteMap<V>, i: int)
    requires
        a.wf(),
        0 <= i < a.entries@.len(),
    ensures
        a@.contains_key(a.keys()[i]),
        a@[a.keys()[i]] == a.entries@[i].1,
        forall|b: ByteMap<V>|
            #![trigger b.wf()]
            b.entries@ == a.entries@.update(i, (a.entries@[i].0, b.entries@[i].1)) ==> b.wf()
                && b.keys() == a.keys() && b@ == a@.insert(a.keys()[i], b.entries@[i].1),
{
    a.lemma_entries();
    assert(a@.contains_key(a.keys()[i]));
    assert forall|b: ByteMap<V>|
        #![trigger b.wf()]
        b.entries@ == a.entries@.update(i, (a.entries@[i].0, b.entries@[i].1)) implies b.wf()
        && b.keys() == a.keys() && b@ == a@.insert(a.keys()[i], b.entries@[i].1) by {
        lemma_replaced(a, b, i, b.entries@[i].1);
    }
}

/// Putting a new key where it belongs keeps the order.
proof fn lemma_inserted<V>(a: ByteMap<V>, b: ByteMap<V>, i: int)
    requires
        a.wf(),
        0 <= i <= a.entries@.len(),
        b.entries@ == a.entries@.insert(i, b.entries@[i]),
        !a.keys().contains(b.entries@[i].0@),
        forall|j: int| 0 <= j < i ==> precedes(#[trigger] a.keys()[j], b.entries@[i].0@),
        forall|j: int| i <= j < a.keys().len() ==> !precedes(#[trigger] a.keys()[j], b.entries@[i].0@),
    ensures
        b.wf(),
        b@ == a@.insert(b.entries@[i].0@, b.entries@[i].1),
{
    let key = b.entries@[i].0@;
    assert(b.keys() =~= a.keys().insert(i, key));
    assert forall|j: int, k: int| 0 <= j < k < b.keys().len() implies precedes(
        #[trigger] b.keys()[j],
        #[trigger] b.keys()[k],
    ) by {
        if k < i {
            assert(precedes(a.keys()[j], a.keys()[k]));
        } else if k == i {
            assert(precedes(a.keys()[j], key));
        } else if j == i {
            assert(a.keys().contains(a.keys()[k - 1]));
            assert(!precedes(a.keys()[k - 1], key));
            law_order_is_total(key, a.keys()[k - 1]);
        } else if j < i {
            assert(precedes(a.keys()[j], a.keys()[k - 1]));
        } else {
            assert(precedes(a.keys()[j - 1], a.keys()[k - 1]));
        }
    }
    a.lemma_entries();
    b.lemma_entries();
    assert forall|other: Seq<u8>| b@.contains_key(other) <==> a@.contains_key(other) || other == key by {
        if b@.contains_key(other) {
            let j = b.keys().index_of(other);
            assert(b.keys().contains(other));
            assert(b.keys()[j] == other);
            if j < i {
                assert(a.keys()[j] == other);
            } else if j > i {
                assert(a.keys()[j - 1] == other);
            }
        }
        if a@.contains_key(other) {
            let j = a.keys().index_of(other);
            assert(a.keys().contains(other));
            assert(a.keys()[j] == other);
            if j < i {
                assert(b.keys()[j] == other);
            } else {
                assert(b.keys()[j + 1] == other);
            }
        }
        assert(b.keys()[i] == key);
    }
    assert forall|other: Seq<u8>| #[trigger] b@.contains_key(other) implies b@[other] == a@.insert(
        key,
        b.entries@[i].1,
    )[other] by {
        let j = b.keys().index_of(other);
        assert(b.keys().contains(other));
        assert(b.keys()[j] == other);
        assert(b@[b.keys()[j]] == b.values()[j]);
        if j < i {
            assert(a@[a.keys()[j]] == a.values()[j]);
        } else if j > i {
            assert(a@[a.keys()[j - 1]] == a.values()[j - 1]);
            assert(b.values()[j] == a.values()[j - 1]);
        }
    }
    assert(b@ =~= a@.insert(key, b.entries@[i].1));
}

/// Taking an entry out keeps the others.
proof fn lemma_removed<V>(a: ByteMap<V>, b: ByteMap<V>, i: int)
    requires
        a.wf(),
        0 <= i < a.entries@.len(),
        b.entries@ == a.entries@.remove(i),
    ensures
        b.wf(),
        b@ == a@.remove(a.keys()[i]),
{
    let key = a.keys()[i];
    assert(b.keys() =~= a.keys().remove(i));
    assert forall|j: int, k: int| 0 <= j < k < b.keys().len() implies precedes(
        #[trigger] b.keys()[j],
        #[trigger] b.keys()[k],
    ) by {
        let p = if j < i {
            j
        } else {
            j + 1
        };
        let q = if k < i {
            k
        } else {
            k + 1
        };
        assert(precedes(a.keys()[p], a.keys()[q]));
    }
    a.lemma_entries();
    b.lemma_entries();
    assert forall|other: Seq<u8>| b@.contains_key(other) <==> a@.contains_key(other) && other != key by {
        if b@.contains_key(other) {
            let j = b.keys().index_of(other);
            assert(b.keys().contains(other));
            assert(b.keys()[j] == other);
            let p = if j < i {
                j
            } else {
                j + 1
            };
            assert(a.keys()[p] == other);
            assert(a.keys()[p] != a.keys()[i]);
        }
        if a@.contains_key(other) && other != key {
            let j = a.keys().index_of(other);
            assert(a.keys().contains(other));
            assert(a.keys()[j] == other);
            if j < i {
                assert(b.keys()[j] == other);
            } else {
                assert(b.keys()[j - 1] == other);
            }
        }
    }
    assert forall|other: Seq<u8>| #[trigger] b@.contains_key(other) implies b@[other] == a@[other] by {
        let j = b.keys().index_of(other);
        assert(b.keys().contains(other));
        assert(b.keys()[j] == other);
        assert(b@[b.keys()[j]] == b.values()[j]);
        let p = if j < i {
            j
        } else {
            j + 1
        };
        assert(a@[a.keys()[p]] == a.values()[p]);
        assert(b.values()[j] == a.values()[p]);
    }
    assert(b@ =~= a@.remove(key));
}

} // verus!
