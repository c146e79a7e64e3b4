//! A dictionary that keeps its keys in the order they were first inserted,
//! as the game's own dictionaries do when they are walked.
use vstd::prelude::*;

verus! {

/// The key views of a dictionary.
pub open spec fn key_views(keys: Seq<String>) -> Seq<Seq<char>> {
    keys.map_values(|k: String| k@)
}

/// Keys in first-insertion order with their values, after setting `k` to
/// `v`: a key already there keeps its place and takes the new value; a new
/// key goes to the end.
pub open spec fn dict_insert<V>(t: (Seq<Seq<char>>, Seq<V>), k: Seq<char>, v: V) -> (Seq<Seq<char>>, Seq<V>) {
    if exists|i: int| 0 <= i < t.0.len() && #[trigger] t.0[i] == k {
        let i = choose|i: int| 0 <= i < t.0.len() && #[trigger] t.0[i] == k;
        (t.0, t.1.update(i, v))
    } else {
        (t.0.push(k), t.1.push(v))
    }
}

/// The value of `k` in a dictionary's keys and values, if it is there.
pub open spec fn dict_lookup<V>(t: (Seq<Seq<char>>, Seq<V>), k: Seq<char>) -> Option<V> {
    if exists|i: int| 0 <= i < t.0.len() && #[trigger] t.0[i] == k {
        Some(t.1[choose|i: int| 0 <= i < t.0.len() && #[trigger] t.0[i] == k])
    } else {
        None
    }
}

/// No key occurs twice, and each has a value.
pub open spec fn dict_shape<V>(t: (Seq<Seq<char>>, Seq<V>)) -> bool {
    &&& t.0.len() == t.1.len()
    &&& forall|i: int, j: int| 0 <= i < t.0.len() && 0 <= j < t.0.len() && i != j ==> #[trigger] t.0[i] != #[trigger] t.0[j]
}

/// A read gives back the last write: after setting `k` to `v`, `k` has the
/// value `v`, every other key keeps its value, and no key occurs twice.
pub proof fn lemma_lookup_after_insert<V>(t: (Seq<Seq<char>>, Seq<V>), k: Seq<char>, v: V, other: Seq<char>)
    requires
        dict_shape(t),
    ensures
        dict_shape(dict_insert(t, k, v)),
        dict_lookup(dict_insert(t, k, v), k) == Some(v),
        other != k ==> dict_lookup(dict_insert(t, k, v), other) == dict_lookup(t, other),
{
    let r = dict_insert(t, k, v);
    if exists|i: int| 0 <= i < t.0.len() && #[trigger] t.0[i] == k {
        let c = choose|i: int| 0 <= i < t.0.len() && #[trigger] t.0[i] == k;
        assert(r.0 == t.0);
        let c2 = choose|i: int| 0 <= i < r.0.len() && #[trigger] r.0[i] == k;
        assert(c2 == c);
        if other != k && exists|i: int| 0 <= i < t.0.len() && #[trigger] t.0[i] == other {
            let o = choose|i: int| 0 <= i < t.0.len() && #[trigger] t.0[i] == other;
            assert(o != c);
        }
    } else {
        assert(r.0[t.0.len() as int] == k);
        let c2 = choose|i: int| 0 <= i < r.0.len() && #[trigger] r.0[i] == k;
        assert(c2 == t.0.len());
        if other != k {
            if exists|i: int| 0 <= i < t.0.len() && #[trigger] t.0[i] == other {
                let o = choose|i: int| 0 <= i < t.0.len() && #[trigger] t.0[i] == other;
                assert(r.0[o] == other);
                let o2 = choose|i: int| 0 <= i < r.0.len() && #[trigger] r.0[i] == other;
                assert(o2 == o);
            } else {
                assert forall|i: int| 0 <= i < r.0.len() implies #[trigger] r.0[i] != other by {
                    if i < t.0.len() {
                        assert(r.0[i] == t.0[i]);
                    }
                }
            }
        }
    }
}

/// Inserting commutes with mapping the values.
pub proof fn lemma_dict_insert_map<V, W>(t: (Seq<Seq<char>>, Seq<V>), k: Seq<char>, v: V, f: spec_fn(V) -> W)
    requires
        t.0.len() == t.1.len(),
    ensures
        dict_insert((t.0, t.1.map_values(f)), k, f(v)) == (
            dict_insert(t, k, v).0,
            dict_insert(t, k, v).1.map_values(f),
        ),
{
    if exists|i: int| 0 <= i < t.0.len() && #[trigger] t.0[i] == k {
        let i = choose|i: int| 0 <= i < t.0.len() && #[trigger] t.0[i] == k;
        assert(t.1.update(i, v).map_values(f) =~= t.1.map_values(f).update(i, f(v)));
    } else {
        assert(t.1.push(v).map_values(f) =~= t.1.map_values(f).push(f(v)));
    }
}

/// Entries added to a dictionary one after another.
pub open spec fn insert_entries<V>(t: (Seq<Seq<char>>, Seq<V>), es: Seq<(Seq<char>, V)>) -> (Seq<Seq<char>>, Seq<V>)
    decreases es.len(),
{
    if es.len() == 0 {
        t
    } else {
        dict_insert(insert_entries(t, es.drop_last()), es.last().0, es.last().1)
    }
}

/// Keys in first-insertion order, each with its latest value.
pub struct CsDict<V> {
    keys: Vec<String>,
    values: Vec<V>,
}

impl<V> CsDict<V> {
    /// The keys, in the order they were first inserted.
    pub closed spec fn keys_view(&self) -> Seq<Seq<char>> {
        key_views(self.keys@)
    }

    /// The values, in the order of their keys.
    pub closed spec fn values_view(&self) -> Seq<V> {
        self.values@
    }

    /// Well-formed: one value per key, and no key twice.
    pub closed spec fn wf(&self) -> bool {
        &&& self.keys@.len() == self.values@.len()
        &&& forall|i: int, j: int|
            0 <= i < j < self.keys@.len() ==> #[trigger] self.keys@[i]@ != #[trigger] self.keys@[j]@
    }

    /// The position of `key`, if it is there.
    pub open spec fn index_of(&self, key: Seq<char>) -> Option<int> {
        if exists|i: int| 0 <= i < self.keys_view().len() && #[trigger] self.keys_view()[i] == key {
            Some(choose|i: int| 0 <= i < self.keys_view().len() && #[trigger] self.keys_view()[i] == key)
        } else {
            None
        }
    }

    /// No key of a well-formed dictionary occurs twice.
    pub proof fn lemma_keys_distinct(&self)
        requires
            self.wf(),
        ensures
            self.keys_view().len() == self.values_view().len(),
            forall|i: int, j: int|
                0 <= i < self.keys_view().len() && 0 <= j < self.keys_view().len() && i != j
                    ==> #[trigger] self.keys_view()[i] != #[trigger] self.keys_view()[j],
    {
        assert forall|i: int, j: int|
            0 <= i < self.keys_view().len() && 0 <= j < self.keys_view().len() && i != j
                implies #[trigger] self.keys_view()[i] != #[trigger] self.keys_view()[j] by {
            if i < j {
                assert(self.keys@[i]@ != self.keys@[j]@);
            } else {
                assert(self.keys@[j]@ != self.keys@[i]@);
            }
        }
    }

    /// An insertion seen through a view of the values.
    pub proof fn lemma_insert_mapped<W>(d0: Self, d1: Self, k: Seq<char>, v: V, f: spec_fn(V) -> W)
        requires
            d0.wf(),
            (d1.keys_view(), d1.values_view()) == dict_insert((d0.keys_view(), d0.values_view()), k, v),
        ensures
            (d1.keys_view(), d1.values_view().map_values(f)) == dict_insert(
                (d0.keys_view(), d0.values_view().map_values(f)),
                k,
                f(v),
            ),
    {
        d0.lemma_keys_distinct();
        lemma_dict_insert_map((d0.keys_view(), d0.values_view()), k, v, f);
    }

    /// An empty dictionary.
    pub fn new() -> (r: Self)
        ensures
            r.wf(),
            r.keys_view() == Seq::<Seq<char>>::empty(),
            r.values_view() == Seq::<V>::empty(),
    {
        let r = CsDict { keys: Vec::new(), values: Vec::new() };
        proof {
            assert(r.keys_view() =~= Seq::<Seq<char>>::empty());
        }
        r
    }

    /// Number of keys.
    pub fn len(&self) -> (r: usize)
        requires
            self.wf(),
        ensures
            r == self.keys_view().len(),
            r == self.values_view().len(),
    {
        self.keys.len()
    }

    /// The key at position `i`.
    pub fn key_at(&self, i: usize) -> (r: &String)
        requires
            self.wf(),
            i < self.keys_view().len(),
        ensures
            r@ == self.keys_view()[i as int],
    {
        &self.keys[i]
    }

    /// The position of `key`.
    pub fn find(&self, key: &String) -> (r: Option<usize>)
        requires
            self.wf(),
        ensures
            match r {
                Some(i) => self.index_of(key@) == Some(i as int) && i < self.values_view().len(),
                None => self.index_of(key@) is None,
            },
    {
        let mut i: usize = 0;
        while i < self.keys.len()
            invariant
                i <= self.keys@.len(),
                self.wf(),
                forall|q: int| 0 <= q < i ==> #[trigger] self.keys_view()[q] != key@,
            decreases self.keys@.len() - i,
        {
            if self.keys[i] == *key {
                proof {
                    assert(self.keys_view()[i as int] == key@);
                    let c = choose|q: int| 0 <= q < self.keys_view().len() && #[trigger] self.keys_view()[q] == key@;
                    assert(self.keys@[c]@ == self.keys@[i as int]@);
                    assert(c == i) by {
                        if c < i {
                            assert(self.keys_view()[c] != key@);
                        } else if c > i {
                            assert(self.keys@[i as int]@ != self.keys@[c]@);
                        }
                    }
                }
                return Some(i);
            }
            i = i + 1;
        }
        None
    }

    /// The value of `key`.
    pub fn get(&self, key: &String) -> (r: Option<&V>)
        requires
            self.wf(),
        ensures
            match self.index_of(key@) {
                Some(i) => r == Some(&self.values_view()[i]),
                None => r is None,
            },
    {
        match self.find(key) {
            Some(i) => Some(&self.values[i]),
            None => None,
        }
    }

    /// The values, in the order of their keys.
    pub fn into_values(self) -> (r: Vec<V>)
        ensures
            r@ == self.values_view(),
    {
        self.values
    }

    /// The value at position `i`.
    pub fn value_at(&self, i: usize) -> (r: &V)
        requires
            self.wf(),
            i < self.values_view().len(),
        ensures
            *r == self.values_view()[i as int],
    {
        &self.values[i]
    }

    /// Sets `key` to `val`. A key already there keeps its position and takes
    /// the new value; a new key goes to the end.
    pub fn insert(&mut self, key: String, val: V)
        requires
            old(self).wf(),
        ensures
            final(self).wf(),
            match old(self).index_of(key@) {
                Some(i) => {
                    &&& final(self).keys_view() == old(self).keys_view()
                    &&& final(self).values_view() == old(self).values_view().update(i, val)
                },
                None => {
                    &&& final(self).keys_view() == old(self).keys_view().push(key@)
                    &&& final(self).values_view() == old(self).values_view().push(val)
                },
            },
            (final(self).keys_view(), final(self).values_view()) == dict_insert(
                (old(self).keys_view(), old(self).values_view()),
                key@,
                val,
            ),
    {
        proof {
            old(self).lemma_keys_distinct();
            let kv = old(self).keys_view();
            if exists|i: int| 0 <= i < kv.len() && #[trigger] kv[i] == key@ {
                let c = choose|i: int| 0 <= i < kv.len() && #[trigger] kv[i] == key@;
                let c2 = old(self).index_of(key@)->0;
                assert(kv[c2] == key@);
                assert(c == c2);
            }
        }
        match self.find(&key) {
            Some(i) => {
                self.values.set(i, val);
            },
            None => {
                proof {
                    assert forall|q: int| 0 <= q < self.keys@.len() implies #[trigger] self.keys@[q]@ != key@ by {
                        assert(self.keys_view()[q] == self.keys@[q]@);
                    }
                }
                self.keys.push(key);
                self.values.push(val);
                proof {
                    assert(self.keys_view() =~= old(self).keys_view().push(key@));
                }
            },
        }
    }
}

} // verus!
