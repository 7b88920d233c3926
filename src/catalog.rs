//! A small map from string keys to values that keeps its entries in the order
//! in which their keys were first inserted.

use vstd::prelude::*;

verus! {

/// The map that a sequence of key/value pairs describes when a later pair
/// overrides an earlier one with the same key.
pub open spec fn pairs_to_map<V>(s: Seq<(Seq<char>, V)>) -> Map<Seq<char>, V>
    decreases s.len(),
{
    if s.len() == 0 {
        Map::empty()
    } else {
        pairs_to_map(s.drop_last()).insert(s.last().0, s.last().1)
    }
}

/// The keys of a sequence of pairs, in order.
pub open spec fn pair_keys<V>(s: Seq<(Seq<char>, V)>) -> Seq<Seq<char>> {
    s.map_values(|p: (Seq<char>, V)| p.0)
}

pub proof fn lemma_pairs_to_map_keys<V>(s: Seq<(Seq<char>, V)>)
    ensures
        forall|k: Seq<char>| #[trigger] pairs_to_map(s).contains_key(k) == pair_keys(s).contains(k),
    decreases s.len(),
{
    if s.len() > 0 {
        let p = s.drop_last();
        lemma_pairs_to_map_keys(p);
        let ks = pair_keys(s);
        let kp = pair_keys(p);
        assert(ks.len() == s.len() && kp.len() == p.len());
        assert forall|j: int| 0 <= j < p.len() implies #[trigger] kp[j] == ks[j] by {
            assert(p[j] == s[j]);
        }
        assert(ks[s.len() - 1] == s.last().0);
        assert(pairs_to_map(s) == pairs_to_map(p).insert(s.last().0, s.last().1));
        assert forall|k: Seq<char>| #[trigger] pairs_to_map(s).contains_key(k) == ks.contains(k) by {
            assert(pairs_to_map(p).contains_key(k) == kp.contains(k));
            if k == s.last().0 {
                assert(ks[s.len() - 1] == k);
            }
            if kp.contains(k) {
                let j = choose|j: int| 0 <= j < kp.len() && kp[j] == k;
                assert(ks[j] == k);
            }
            if ks.contains(k) {
                let j = choose|j: int| 0 <= j < ks.len() && ks[j] == k;
                if j < p.len() {
                    assert(kp[j] == k);
                }
            }
        }
    }
}

/// Keys mapped to values; each key stands once.
pub struct Catalog<V> {
    entries: Vec<(String, V)>,
    model: Ghost<Map<Seq<char>, V>>,
}

/// The entries of `e` have pairwise distinct keys.
pub open spec fn distinct_keys<V>(e: Seq<(String, V)>) -> bool {
    forall|i: int, j: int| 0 <= i < j < e.len() ==> e[i].0@ != e[j].0@
}

/// The entries of `e` are exactly the pairs of `m`.
pub open spec fn entries_describe<V>(e: Seq<(String, V)>, m: Map<Seq<char>, V>) -> bool {
    &&& distinct_keys(e)
    &&& forall|i: int|
        0 <= i < e.len() ==> #[trigger] m.contains_key(e[i].0@) && m[e[i].0@] == e[i].1
    &&& forall|k: Seq<char>|
        #[trigger] m.contains_key(k) ==> exists|i: int| 0 <= i < e.len() && e[i].0@ == k
}

impl<V> View for Catalog<V> {
    type V = Map<Seq<char>, V>;

    closed spec fn view(&self) -> Map<Seq<char>, V> {
        self.model@
    }
}

impl<V> Catalog<V> {
    #[verifier::type_invariant]
    spec fn consistent(self) -> bool {
        entries_describe(self.entries@, self.model@)
    }

    /// The empty catalog.
    pub fn new() -> (r: Self)
        ensures
            r@ == Map::<Seq<char>, V>::empty(),
    {
        Catalog { entries: Vec::new(), model: Ghost(Map::empty()) }
    }

    /// Position of `key` among the entries.
    fn position(&self, key: &String) -> (r: Option<usize>)
        ensures
            match r {
                Some(i) => i < self.entries.len() && self.entries[i as int].0@ == key@,
                None => !self@.contains_key(key@),
            },
    {
        proof {
            use_type_invariant(self);
        }
        let mut i: usize = 0;
        while i < self.entries.len()
            invariant
                i <= self.entries.len(),
                forall|j: int| 0 <= j < i ==> self.entries[j].0@ != key@,
            decreases self.entries.len() - i,
        {
            if self.entries[i].0 == *key {
                return Some(i);
            }
            i = i + 1;
        }
        None
    }

    /// Whether the catalog has no entry.
    pub fn is_empty(&self) -> (r: bool)
        ensures
            r == (self@ == Map::<Seq<char>, V>::empty()),
    {
        proof {
            use_type_invariant(self);
            if self.entries.len() == 0 {
                assert(self@ =~= Map::<Seq<char>, V>::empty());
            } else {
                assert(self@.contains_key(self.entries[0].0@));
            }
        }
        self.entries.len() == 0
    }

    /// Whether `key` has an entry.
    pub fn contains_key(&self, key: &str) -> (r: bool)
        ensures
            r == self@.contains_key(key@),
    {
        proof {
            use_type_invariant(self);
        }
        let k = key.to_owned();
        self.position(&k).is_some()
    }

    /// The value of `key`, if it has one.
    pub fn get(&self, key: &str) -> (r: Option<&V>)
        ensures
            match r {
                Some(v) => self@.contains_key(key@) && *v == self@[key@],
                None => !self@.contains_key(key@),
            },
    {
        proof {
            use_type_invariant(self);
        }
        let k = key.to_owned();
        match self.position(&k) {
            Some(i) => Some(&self.entries[i].1),
            None => None,
        }
    }

    /// Sets the value of `key`, replacing the one it had.
    pub fn insert(&mut self, key: String, value: V)
        ensures
            final(self)@ == old(self)@.insert(key@, value),
    {
        proof {
            use_type_invariant(&*self);
        }
        let pos = self.position(&key);
        let mut taken = Catalog::new();
        std::mem::swap(self, &mut taken);
        proof {
            use_type_invariant(&taken);
        }
        let Catalog { entries, model } = taken;
        let mut entries = entries;
        let ghost e0 = entries@;
        let ghost k = key@;
        let ghost m = model@.insert(key@, value);
        match pos {
            Some(i) => {
                entries.set(i, (key, value));
                assert(entries@ == e0.update(i as int, entries@[i as int]));
            },
            None => {
                entries.push((key, value));
                assert(entries@ == e0.push(entries@[e0.len() as int]));
                assert forall|j: int| 0 <= j < e0.len() implies e0[j].0@ != k by {
                    assert(model@.contains_key(e0[j].0@));
                }
            },
        }
        assert forall|k2: Seq<char>| #[trigger] m.contains_key(k2) implies exists|j: int|
            0 <= j < entries.len() && entries[j].0@ == k2 by {
            if k2 != k {
                assert(model@.contains_key(k2));
                let j = choose|j: int| 0 <= j < e0.len() && e0[j].0@ == k2;
                assert(entries[j].0@ == k2);
            } else {
                match pos {
                    Some(i) => assert(entries[i as int].0@ == k2),
                    None => assert(entries[e0.len() as int].0@ == k2),
                }
            }
        }
        *self = Catalog { entries, model: Ghost(m) };
    }

    /// Drops the entry of `key`, if it has one.
    pub fn remove(&mut self, key: &str)
        ensures
            final(self)@ == old(self)@.remove(key@),
    {
        proof {
            use_type_invariant(&*self);
        }
        let k = key.to_owned();
        let pos = self.position(&k);
        match pos {
            None => {
                assert(self@.remove(key@) =~= self@);
            },
            Some(i) => {
                let mut taken = Catalog::new();
                std::mem::swap(self, &mut taken);
                proof {
                    use_type_invariant(&taken);
                }
                let Catalog { entries, model } = taken;
                let mut entries = entries;
                let ghost e0 = entries@;
                let ghost m = model@.remove(key@);
                entries.remove(i);
                assert(entries@ == e0.remove(i as int));
                assert forall|j: int| 0 <= j < entries.len() implies #[trigger] entries[j] == (if j < i {
                    e0[j]
                } else {
                    e0[j + 1]
                }) by {}
                assert forall|j: int|
                    0 <= j < entries.len() implies #[trigger] m.contains_key(entries[j].0@) && m[entries[j].0@]
                        == entries[j].1 by {
                    let j0 = if j < i { j } else { j + 1 };
                    assert(entries[j] == e0[j0]);
                    assert(model@.contains_key(e0[j0].0@));
                }
                assert forall|k2: Seq<char>| #[trigger] m.contains_key(k2) implies exists|j: int|
                    0 <= j < entries.len() && entries[j].0@ == k2 by {
                    assert(model@.contains_key(k2));
                    let j0 = choose|j: int| 0 <= j < e0.len() && e0[j].0@ == k2;
                    assert(j0 != i);
                    if j0 < i {
                        assert(entries[j0] == e0[j0]);
                    } else {
                        assert(entries[j0 - 1] == e0[j0]);
                    }
                }
                *self = Catalog { entries, model: Ghost(m) };
            },
        }
    }

    /// The entries, each key once.
    pub fn entries(&self) -> (r: &Vec<(String, V)>)
        ensures
            entries_describe(r@, self@),
    {
        proof {
            use_type_invariant(self);
        }
        &self.entries
    }

    /// The entries, each key once, handed over.
    pub fn into_entries(self) -> (r: Vec<(String, V)>)
        ensures
            entries_describe(r@, self@),
    {
        proof {
            use_type_invariant(&self);
        }
        self.entries
    }
}

/// The key texts of a list of pairs.
pub open spec fn pairs_model<V>(s: Seq<(String, V)>) -> Seq<(Seq<char>, V)> {
    s.map_values(|p: (String, V)| (p.0@, p.1))
}

impl<V> Catalog<V> {
    /// The catalog of a list of pairs; a later pair overrides an earlier one
    /// with the same key.
    pub fn from_pairs(pairs: Vec<(String, V)>) -> (r: Self)
        ensures
            r@ == pairs_to_map(pairs_model(pairs@)),
    {
        let ghost ps = pairs_model(pairs@);
        let n = pairs.len();
        let mut rest = pairs;
        let mut r = Catalog::new();
        let mut i: usize = 0;
        assert(rest@ =~= pairs@.skip(0));
        assert(ps.take(0) =~= Seq::<(Seq<char>, V)>::empty());
        while rest.len() > 0
            invariant
                ps == pairs_model(pairs@),
                pairs@.len() == n,
                i + rest.len() == n,
                rest@ == pairs@.skip(i as int),
                r@ == pairs_to_map(ps.take(i as int)),
            decreases rest.len(),
        {
            let (k, v) = rest.remove(0);
            assert(pairs@[i as int] == (k, v));
            assert(ps.take(i + 1).drop_last() =~= ps.take(i as int));
            r.insert(k, v);
            i = i + 1;
        }
        assert(ps.take(n as int) =~= ps);
        r
    }
}

} // verus!
