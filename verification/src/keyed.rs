//! A small map from symbol names to values in which a later write for a
//! name replaces the earlier one. It keeps its entries in insertion order,
//! each name at most once, and denotes the map obtained by folding the
//! entries into `Map::insert` from first to last.

use vstd::prelude::*;

verus! {

/// The map denoted by the first `n` key/value pairs, later pairs winning:
/// the pairs folded left to right into `Map::insert`.
pub open spec fn assoc<T>(keys: Seq<Seq<char>>, vals: Seq<T>, n: nat) -> Map<Seq<char>, T>
    decreases n,
{
    if n == 0 {
        Map::empty()
    } else {
        assoc(keys, vals, (n - 1) as nat).insert(keys[n - 1], vals[n - 1])
    }
}

/// No key occurs twice.
pub open spec fn distinct_keys(keys: Seq<Seq<char>>) -> bool {
    forall|i: int, j: int|
        0 <= i < keys.len() && 0 <= j < keys.len() && i != j ==> keys[i] != keys[j]
}

/// A key is in the folded map exactly when one of the first `n` pairs has it.
pub proof fn lemma_assoc_dom<T>(keys: Seq<Seq<char>>, vals: Seq<T>, n: nat, k: Seq<char>)
    ensures
        assoc(keys, vals, n).dom().contains(k) <==> exists|i: int| 0 <= i < n && keys[i] == k,
    decreases n,
{
    if n > 0 {
        lemma_assoc_dom(keys, vals, (n - 1) as nat, k);
        if assoc(keys, vals, n).dom().contains(k) && keys[n - 1] != k {
            let i = choose|i: int| 0 <= i < n - 1 && keys[i] == k;
            assert(0 <= i < n && keys[i] == k);
        }
        if exists|i: int| 0 <= i < n && keys[i] == k {
            let i = choose|i: int| 0 <= i < n && keys[i] == k;
            if i < n - 1 {
                assert(exists|i: int| 0 <= i < n - 1 && keys[i] == k);
            }
        }
    }
}

/// The folded map gives a key the value of the last pair that has it.
pub proof fn lemma_assoc_value<T>(keys: Seq<Seq<char>>, vals: Seq<T>, n: nat, i: int)
    requires
        0 <= i < n,
        forall|j: int| i < j < n ==> keys[j] != keys[i],
    ensures
        assoc(keys, vals, n).dom().contains(keys[i]),
        assoc(keys, vals, n)[keys[i]] == vals[i],
    decreases n,
{
    if i < n - 1 {
        lemma_assoc_value(keys, vals, (n - 1) as nat, i);
    }
}

/// The folded map depends only on the first `n` pairs.
pub proof fn lemma_assoc_prefix<T>(
    k1: Seq<Seq<char>>,
    v1: Seq<T>,
    k2: Seq<Seq<char>>,
    v2: Seq<T>,
    n: nat,
)
    requires
        forall|i: int| 0 <= i < n ==> k1[i] == k2[i] && v1[i] == v2[i],
    ensures
        assoc(k1, v1, n) == assoc(k2, v2, n),
    decreases n,
{
    if n > 0 {
        lemma_assoc_prefix(k1, v1, k2, v2, (n - 1) as nat);
    }
}

/// With distinct keys, changing the value of pair `i` changes the folded
/// map at that pair's key only.
pub proof fn lemma_assoc_update<T>(keys: Seq<Seq<char>>, vals: Seq<T>, n: nat, i: int, v: T)
    requires
        n <= keys.len(),
        n <= vals.len(),
        0 <= i < n,
        distinct_keys(keys),
    ensures
        assoc(keys, vals.update(i, v), n) == assoc(keys, vals, n).insert(keys[i], v),
{
    let lhs = assoc(keys, vals.update(i, v), n);
    let rhs = assoc(keys, vals, n).insert(keys[i], v);
    assert forall|k: Seq<char>| lhs.dom().contains(k) <==> rhs.dom().contains(k) by {
        lemma_assoc_dom(keys, vals.update(i, v), n, k);
        lemma_assoc_dom(keys, vals, n, k);
    }
    assert forall|k: Seq<char>| #[trigger] lhs.dom().contains(k) implies lhs[k] == rhs[k] by {
        lemma_assoc_dom(keys, vals.update(i, v), n, k);
        let j = choose|j: int| 0 <= j < n && keys[j] == k;
        lemma_assoc_value(keys, vals.update(i, v), n, j);
        if j != i {
            lemma_assoc_value(keys, vals, n, j);
        }
    }
    assert(lhs =~= rhs);
}

/// Entries in insertion order, each key at most once; a later `insert` of a
/// key replaces its value in place.
pub struct LatestMap<T> {
    keys: Vec<String>,
    vals: Vec<T>,
}

impl<T> LatestMap<T> {
    /// The keys of the entries, in order.
    pub closed spec fn entry_keys(&self) -> Seq<Seq<char>> {
        self.keys@.map_values(|k: String| k@)
    }

    /// The values of the entries, in order.
    pub closed spec fn entry_values(&self) -> Seq<T> {
        self.vals@
    }

    /// One value per key, and no key twice.
    pub open spec fn wf(&self) -> bool {
        &&& self.entry_keys().len() == self.entry_values().len()
        &&& distinct_keys(self.entry_keys())
    }

    /// The map the entries denote.
    pub open spec fn as_map(&self) -> Map<Seq<char>, T> {
        assoc(self.entry_keys(), self.entry_values(), self.entry_keys().len())
    }

    pub fn new() -> (m: Self)
        ensures
            m.wf(),
            m.entry_keys() == Seq::<Seq<char>>::empty(),
            m.entry_values() == Seq::<T>::empty(),
            m.as_map() == Map::<Seq<char>, T>::empty(),
    {
        let m = LatestMap { keys: Vec::new(), vals: Vec::new() };
        assert(m.entry_keys() =~= Seq::<Seq<char>>::empty());
        m
    }

    /// The number of entries.
    pub fn len(&self) -> (n: usize)
        ensures
            n == self.entry_keys().len(),
    {
        self.keys.len()
    }

    pub fn is_empty(&self) -> (b: bool)
        ensures
            b == (self.entry_keys().len() == 0),
    {
        self.keys.len() == 0
    }

    /// The position of `key` among the entries, if it is there.
    pub fn index_of(&self, key: &String) -> (r: Option<usize>)
        ensures
            match r {
                Some(i) => i < self.entry_keys().len() && self.entry_keys()[i as int] == key@,
                None => forall|j: int|
                    0 <= j < self.entry_keys().len() ==> self.entry_keys()[j] != key@,
            },
    {
        let n = self.keys.len();
        let mut i: usize = 0;
        while i < n
            invariant
                n == self.keys@.len(),
                i <= n,
                forall|j: int| 0 <= j < i ==> self.entry_keys()[j] != key@,
            decreases n - i,
        {
            if self.keys[i] == *key {
                return Some(i);
            }
            i = i + 1;
        }
        None
    }

    pub fn contains_key(&self, key: &String) -> (b: bool)
        requires
            self.wf(),
        ensures
            b == self.as_map().dom().contains(key@),
    {
        let r = self.index_of(key);
        proof {
            lemma_assoc_dom(self.entry_keys(), self.entry_values(), self.entry_keys().len(), key@);
        }
        r.is_some()
    }

    /// The value stored under `key`.
    pub fn get(&self, key: &String) -> (r: Option<&T>)
        requires
            self.wf(),
        ensures
            match r {
                Some(v) => self.as_map().dom().contains(key@) && *v == self.as_map()[key@],
                None => !self.as_map().dom().contains(key@),
            },
    {
        proof {
            lemma_assoc_dom(self.entry_keys(), self.entry_values(), self.entry_keys().len(), key@);
        }
        match self.index_of(key) {
            Some(i) => {
                proof {
                    lemma_assoc_value(
                        self.entry_keys(),
                        self.entry_values(),
                        self.entry_keys().len(),
                        i as int,
                    );
                }
                Some(&self.vals[i])
            },
            None => None,
        }
    }

    /// Stores `val` under `key`, replacing the value already there.
    /// Returns whether the key was present before.
    pub fn insert(&mut self, key: String, val: T) -> (replaced: bool)
        requires
            old(self).wf(),
        ensures
            final(self).wf(),
            final(self).as_map() == old(self).as_map().insert(key@, val),
            replaced == old(self).as_map().dom().contains(key@),
            replaced ==> final(self).entry_keys() == old(self).entry_keys(),
            !replaced ==> final(self).entry_keys() == old(self).entry_keys().push(key@),
            forall|j: int|
                0 <= j < final(self).entry_keys().len() ==> #[trigger] final(self).entry_values()[j]
                    == if final(self).entry_keys()[j] == key@ {
                    val
                } else {
                    old(self).entry_values()[j]
                },
    {
        let ghost ok = old(self).entry_keys();
        let ghost ov = old(self).entry_values();
        let ghost n = ok.len();
        proof {
            lemma_assoc_dom(ok, ov, n, key@);
        }
        match self.index_of(&key) {
            Some(i) => {
                self.vals.set(i, val);
                proof {
                    assert(self.entry_keys() =~= ok);
                    assert(self.entry_values() =~= ov.update(i as int, val));
                    lemma_assoc_update(ok, ov, n, i as int, val);
                }
                true
            },
            None => {
                let ghost kv = key@;
                self.keys.push(key);
                self.vals.push(val);
                proof {
                    assert(self.entry_keys() =~= ok.push(kv));
                    assert(self.entry_values() =~= ov.push(val));
                    lemma_assoc_prefix(self.entry_keys(), self.entry_values(), ok, ov, n);
                    assert forall|a: int, b: int|
                        0 <= a < self.entry_keys().len() && 0 <= b < self.entry_keys().len() && a
                            != b implies self.entry_keys()[a] != self.entry_keys()[b] by {
                        if a < n && b < n {
                            assert(ok[a] != ok[b]);
                        }
                    }
                }
                false
            },
        }
    }

    /// The values of the entries, in order.
    pub fn values(&self) -> (r: &Vec<T>)
        ensures
            r@ == self.entry_values(),
    {
        &self.vals
    }

    /// Empties the map and hands back the values of its entries, in order.
    pub fn take_values(&mut self) -> (r: Vec<T>)
        ensures
            r@ == old(self).entry_values(),
            final(self).wf(),
            final(self).entry_keys() == Seq::<Seq<char>>::empty(),
            final(self).entry_values() == Seq::<T>::empty(),
            final(self).as_map() == Map::<Seq<char>, T>::empty(),
    {
        let mut out: Vec<T> = Vec::new();
        std::mem::swap(&mut out, &mut self.vals);
        self.keys = Vec::new();
        assert(self.entry_keys() =~= Seq::<Seq<char>>::empty());
        out
    }
}

} // verus!
