//! Maps and sets over ordered keys, held in sorted vectors.

use vstd::prelude::*;

use crate::order::{ascending, before, in_order, lists, Key, Order};
use crate::order::{lemma_in_order, lemma_lex_irreflexive, lemma_lex_total, lemma_lex_transitive};

verus! {

/// A map whose entries are kept in ascending order of their keys.
pub struct OrdMap<K: Key, V: DeepView> {
    entries: Vec<(K, V)>,
}

impl<K: Key, V: DeepView> OrdMap<K, V> {
    /// The keys of the map in ascending order.
    spec fn keys(self) -> Seq<K::V> {
        keys_of(self.entries@)
    }

    #[verifier::type_invariant]
    spec fn sorted(self) -> bool {
        ascending::<K>(self.keys())
    }
}

/// The keys of entries.
spec fn keys_of<K: Key, V>(entries: Seq<(K, V)>) -> Seq<K::V> {
    Seq::new(entries.len(), |i: int| entries[i].0@)
}

/// The map that entries make up.
spec fn map_of<K: Key, V: DeepView>(entries: Seq<(K, V)>) -> Map<K::V, V::V> {
    Map::new(
        |k: K::V| keys_of(entries).contains(k),
        |k: K::V| entries[keys_of(entries).index_of(k)].1.deep_view(),
    )
}

impl<K: Key, V: DeepView> View for OrdMap<K, V> {
    type V = Map<K::V, V::V>;

    closed spec fn view(&self) -> Map<K::V, V::V> {
        map_of(self.entries@)
    }
}

impl<K: Key, V: DeepView> DeepView for OrdMap<K, V> {
    type V = Map<K::V, V::V>;

    open spec fn deep_view(&self) -> Map<K::V, V::V> {
        self@
    }
}

/// Where an ascending sequence holds a key, it holds it once.
proof fn lemma_index<K: Key, V: DeepView>(entries: Seq<(K, V)>, i: int)
    requires
        ascending::<K>(keys_of(entries)),
        0 <= i < entries.len(),
    ensures
        map_of(entries).contains_key(entries[i].0@),
        map_of(entries)[entries[i].0@] == entries[i].1.deep_view(),
{
    let keys = keys_of(entries);
    assert(keys[i] == entries[i].0@);
    let j = keys.index_of(entries[i].0@);
    assert(keys.contains(keys[i]));
    assert(0 <= j < keys.len() && keys[j] == keys[i]);
    if j < i {
        assert(before::<K>(keys[j], keys[i]));
    } else if i < j {
        assert(before::<K>(keys[i], keys[j]));
    }
    lemma_lex_irreflexive(K::code(keys[i]));
}

impl<K: Key, V: DeepView> OrdMap<K, V> {
    /// A map has finitely many keys.
    pub proof fn lemma_finite(&self)
        ensures
            self@.dom().finite(),
    {
        let keys = keys_of(self.entries@);
        vstd::seq_lib::seq_to_set_is_finite(keys);
        assert(self@.dom() =~= keys.to_set());
    }

    /// Creates an empty map.
    pub fn new() -> (m: Self)
        ensures
            m@ == Map::<K::V, V::V>::empty(),
    {
        let m = OrdMap { entries: Vec::new() };
        assert(m@ =~= Map::<K::V, V::V>::empty());
        m
    }

    /// The number of entries.
    pub fn len(&self) -> (n: usize)
        ensures
            n == in_order::<K>(self@.dom()).len(),
            ascending::<K>(in_order::<K>(self@.dom())),
            lists(in_order::<K>(self@.dom()), self@.dom()),
    {
        proof {
            use_type_invariant(self);
            lemma_in_order::<K>(self.keys(), self@.dom());
        }
        self.entries.len()
    }

    /// The key of the `i`th entry in ascending order.
    pub fn key_at(&self, i: usize) -> (k: &K)
        requires
            i < in_order::<K>(self@.dom()).len(),
        ensures
            k@ == in_order::<K>(self@.dom())[i as int],
            self@.contains_key(k@),
    {
        proof {
            use_type_invariant(self);
            lemma_in_order::<K>(self.keys(), self@.dom());
            lemma_index(self.entries@, i as int);
        }
        &self.entries[i].0
    }

    /// The value of the `i`th entry in ascending order.
    pub fn value_at(&self, i: usize) -> (v: &V)
        requires
            i < in_order::<K>(self@.dom()).len(),
        ensures
            v.deep_view() == self@[in_order::<K>(self@.dom())[i as int]],
    {
        proof {
            use_type_invariant(self);
            lemma_in_order::<K>(self.keys(), self@.dom());
            lemma_index(self.entries@, i as int);
        }
        &self.entries[i].1
    }

    /// Finds the entry of a key, or else the place where it belongs.
    fn locate(&self, k: &K) -> (r: (bool, usize))
        ensures
            r.0 ==> r.1 < self.entries@.len() && self.entries@[r.1 as int].0@ == k@,
            r.0 == self@.contains_key(k@),
            !r.0 ==> r.1 <= self.entries@.len(),
            !r.0 ==> forall|j: int| 0 <= j < r.1 ==> before::<K>(#[trigger] self.keys()[j], k@),
            !r.0 ==> forall|j: int|
                r.1 <= j < self.entries@.len() ==> before::<K>(k@, #[trigger] self.keys()[j]),
    {
        proof {
            use_type_invariant(self);
        }
        let ghost keys = self.keys();
        let mut lo: usize = 0;
        let mut hi: usize = self.entries.len();
        while lo < hi
            invariant
                keys == self.keys(),
                ascending::<K>(keys),
                lo <= hi <= keys.len(),
                keys.len() == self.entries@.len(),
                forall|j: int| 0 <= j < lo ==> before::<K>(#[trigger] keys[j], k@),
                forall|j: int| hi <= j < keys.len() ==> before::<K>(k@, #[trigger] keys[j]),
            decreases hi - lo,
        {
            let mid = lo + (hi - lo) / 2;
            assert(keys[mid as int] == self.entries@[mid as int].0@);
            match self.entries[mid].0.order_of(k) {
                Order::Same => {
                    proof {
                        K::code_injective(keys[mid as int], k@);
                        lemma_index(self.entries@, mid as int);
                    }
                    return (true, mid);
                },
                Order::Before => {
                    proof {
                        assert forall|j: int| 0 <= j < mid + 1 implies before::<K>(
                            #[trigger] keys[j],
                            k@,
                        ) by {
                            if j < mid {
                                assert(before::<K>(keys[j], keys[mid as int]));
                                lemma_lex_transitive(
                                    K::code(keys[j]),
                                    K::code(keys[mid as int]),
                                    K::code(k@),
                                );
                            }
                        }
                    }
                    lo = mid + 1;
                },
                Order::After => {
                    proof {
                        lemma_lex_total(K::code(keys[mid as int]), K::code(k@));
                        assert forall|j: int| mid <= j < keys.len() implies before::<K>(
                            k@,
                            #[trigger] keys[j],
                        ) by {
                            if j > mid {
                                assert(before::<K>(keys[mid as int], keys[j]));
                                lemma_lex_transitive(
                                    K::code(k@),
                                    K::code(keys[mid as int]),
                                    K::code(keys[j]),
                                );
                            }
                        }
                    }
                    hi = mid;
                },
            }
        }
        proof {
            if keys.contains(k@) {
                let j = choose|j: int| 0 <= j < keys.len() && keys[j] == k@;
                lemma_lex_irreflexive(K::code(k@));
                assert(before::<K>(keys[j], k@) || before::<K>(k@, keys[j]));
                assert(false);
            }
        }
        (false, lo)
    }

    /// Looks up the value of a key.
    pub fn get(&self, k: &K) -> (r: Option<&V>)
        ensures
            match r {
                Some(v) => self@.contains_key(k@) && v.deep_view() == self@[k@],
                None => !self@.contains_key(k@),
            },
    {
        let (found, i) = self.locate(k);
        if found {
            proof {
                use_type_invariant(self);
                lemma_index(self.entries@, i as int);
            }
            Some(&self.entries[i].1)
        } else {
            None
        }
    }

    /// Whether the map holds a key.
    pub fn contains_key(&self, k: &K) -> (b: bool)
        ensures
            b == self@.contains_key(k@),
    {
        self.locate(k).0
    }

    /// Adds an entry, or replaces the value of the key. Returns the value that was replaced.
    pub fn insert(&mut self, k: K, v: V) -> (r: Option<V>)
        ensures
            final(self)@ == old(self)@.insert(k@, v.deep_view()),
            match r {
                Some(w) => old(self)@.contains_key(k@) && w.deep_view() == old(self)@[k@],
                None => !old(self)@.contains_key(k@),
            },
    {
        proof {
            use_type_invariant(&*self);
        }
        let (found, i) = self.locate(&k);
        let ghost old_entries = self.entries@;
        let mut entries: Vec<(K, V)> = Vec::new();
        std::mem::swap(&mut entries, &mut self.entries);
        let mut r: Option<V> = None;
        if found {
            proof {
                lemma_index(old_entries, i as int);
            }
            let old_entry = entries.remove(i);
            r = Some(old_entry.1);
        }
        let ghost kv = k@;
        let ghost vv = v.deep_view();
        entries.insert(i, (k, v));
        proof {
            lemma_inserted(old_entries, entries@, i as int, found);
        }
        self.entries = entries;
        r
    }

    /// Removes the entry of a key. Returns its value.
    pub fn remove(&mut self, k: &K) -> (r: Option<V>)
        ensures
            final(self)@ == old(self)@.remove(k@),
            match r {
                Some(w) => old(self)@.contains_key(k@) && w.deep_view() == old(self)@[k@],
                None => !old(self)@.contains_key(k@),
            },
    {
        proof {
            use_type_invariant(&*self);
        }
        let (found, i) = self.locate(k);
        if found {
            let ghost old_entries = self.entries@;
            let mut entries: Vec<(K, V)> = Vec::new();
            std::mem::swap(&mut entries, &mut self.entries);
            proof {
                lemma_index(old_entries, i as int);
            }
            let old_entry = entries.remove(i);
            proof {
                lemma_removed(old_entries, entries@, i as int);
            }
            self.entries = entries;
            Some(old_entry.1)
        } else {
            assert(self@.remove(k@) =~= self@);
            None
        }
    }
}

/// An entry that is put in its place is added to the map.
proof fn lemma_inserted<K: Key, V: DeepView>(
    a: Seq<(K, V)>,
    b: Seq<(K, V)>,
    i: int,
    found: bool,
)
    requires
        ascending::<K>(keys_of(a)),
        0 <= i < b.len(),
        found ==> i < a.len() && a[i].0@ == b[i].0@ && b == a.remove(i).insert(i, b[i]),
        !found ==> i <= a.len() && b == a.insert(i, b[i]),
        !found ==> forall|j: int| 0 <= j < i ==> before::<K>(#[trigger] keys_of(a)[j], b[i].0@),
        !found ==> forall|j: int|
            i <= j < a.len() ==> before::<K>(b[i].0@, #[trigger] keys_of(a)[j]),
    ensures
        ascending::<K>(keys_of(b)),
        map_of(b) == map_of(a).insert(b[i].0@, b[i].1.deep_view()),
{
    let ka = keys_of(a);
    let kb = keys_of(b);
    let k = b[i].0@;
    assert(kb[i] == k);
    if found {
        assert(kb =~= ka);
    } else {
        assert forall|p: int, q: int| #![trigger kb[p], kb[q]] 0 <= p < q < kb.len() implies before::<
            K,
        >(kb[p], kb[q]) by {
            if p < i {
                assert(kb[p] == ka[p]);
            } else if p > i {
                assert(kb[p] == ka[p - 1]);
            }
            if q < i {
                assert(kb[q] == ka[q]);
            } else if q > i {
                assert(kb[q] == ka[q - 1]);
            }
        }
    }
    let ma = map_of(a);
    let mb = map_of(b);
    assert forall|x: K::V| mb.contains_key(x) == ma.insert(k, b[i].1.deep_view()).contains_key(x) by {
        if kb.contains(x) {
            let p = choose|p: int| 0 <= p < kb.len() && kb[p] == x;
            if !found && p < i {
                assert(ka[p] == x);
            } else if !found && p > i {
                assert(ka[p - 1] == x);
            }
        }
        if ka.contains(x) {
            let p = choose|p: int| 0 <= p < ka.len() && ka[p] == x;
            if !found && p < i {
                assert(kb[p] == x);
            } else if !found {
                assert(kb[p + 1] == x);
            }
        }
    }
    assert forall|x: K::V| mb.contains_key(x) implies mb[x] == ma.insert(
        k,
        b[i].1.deep_view(),
    )[x] by {
        let p = choose|p: int| 0 <= p < kb.len() && kb[p] == x;
        lemma_index(b, p);
        if found {
            if p != i {
                assert(a[p] == b[p]);
                lemma_index(a, p);
                lemma_key_once::<K>(kb, p, i);
            }
        } else if p < i {
            assert(a[p] == b[p]);
            lemma_index(a, p);
            lemma_key_once::<K>(kb, p, i);
        } else if p > i {
            assert(a[p - 1] == b[p]);
            lemma_index(a, p - 1);
            lemma_key_once::<K>(kb, p, i);
        }
    }
    assert(mb =~= ma.insert(k, b[i].1.deep_view()));
}

/// An entry that is taken out is removed from the map.
proof fn lemma_removed<K: Key, V: DeepView>(a: Seq<(K, V)>, b: Seq<(K, V)>, i: int)
    requires
        ascending::<K>(keys_of(a)),
        0 <= i < a.len(),
        b == a.remove(i),
    ensures
        ascending::<K>(keys_of(b)),
        map_of(b) == map_of(a).remove(a[i].0@),
{
    let ka = keys_of(a);
    let kb = keys_of(b);
    let k = a[i].0@;
    assert(ka[i] == k);
    assert forall|p: int, q: int| #![trigger kb[p], kb[q]] 0 <= p < q < kb.len() implies before::<K>(
        kb[p],
        kb[q],
    ) by {
        let p1 = if p < i { p } else { p + 1 };
        let q1 = if q < i { q } else { q + 1 };
        assert(kb[p] == ka[p1] && kb[q] == ka[q1]);
    }
    let ma = map_of(a);
    let mb = map_of(b);
    assert forall|x: K::V| mb.contains_key(x) == ma.remove(k).contains_key(x) by {
        if kb.contains(x) {
            let p = choose|p: int| 0 <= p < kb.len() && kb[p] == x;
            let p1 = if p < i { p } else { p + 1 };
            assert(ka[p1] == x);
            lemma_key_once::<K>(ka, p1, i);
        }
        if ka.contains(x) && x != k {
            let p = choose|p: int| 0 <= p < ka.len() && ka[p] == x;
            assert(p != i);
            let p1 = if p < i { p } else { p - 1 };
            assert(kb[p1] == x);
        }
    }
    assert forall|x: K::V| mb.contains_key(x) implies mb[x] == ma.remove(k)[x] by {
        let p = choose|p: int| 0 <= p < kb.len() && kb[p] == x;
        let p1 = if p < i { p } else { p + 1 };
        assert(b[p] == a[p1]);
        assert(ka[p1] == kb[p]);
        lemma_key_once::<K>(ka, p1, i);
        lemma_index(b, p);
        lemma_index(a, p1);
    }
    assert(mb =~= ma.remove(k));
}

/// An ascending sequence holds a key at one place.
proof fn lemma_key_once<K: Key>(s: Seq<K::V>, i: int, j: int)
    requires
        ascending::<K>(s),
        0 <= i < s.len(),
        0 <= j < s.len(),
        i != j,
    ensures
        s[i] != s[j],
{
    lemma_lex_irreflexive(K::code(s[i]));
    if i < j {
        assert(before::<K>(s[i], s[j]));
    } else {
        assert(before::<K>(s[j], s[i]));
    }
}

/// A set whose elements are kept in ascending order.
pub struct OrdSet<K: Key> {
    map: OrdMap<K, ()>,
}

impl<K: Key> View for OrdSet<K> {
    type V = Set<K::V>;

    closed spec fn view(&self) -> Set<K::V> {
        self.map@.dom()
    }
}

impl<K: Key> DeepView for OrdSet<K> {
    type V = Set<K::V>;

    open spec fn deep_view(&self) -> Set<K::V> {
        self@
    }
}

impl<K: Key> OrdSet<K> {
    /// A set has finitely many elements.
    pub proof fn lemma_finite(&self)
        ensures
            self@.finite(),
    {
        self.map.lemma_finite();
    }

    /// Creates an empty set.
    pub fn new() -> (s: Self)
        ensures
            s@ == Set::<K::V>::empty(),
    {
        OrdSet { map: OrdMap::new() }
    }

    /// The number of elements.
    pub fn len(&self) -> (n: usize)
        ensures
            n == in_order::<K>(self@).len(),
            ascending::<K>(in_order::<K>(self@)),
            lists(in_order::<K>(self@), self@),
    {
        self.map.len()
    }

    /// The `i`th element in ascending order.
    pub fn at(&self, i: usize) -> (k: &K)
        requires
            i < in_order::<K>(self@).len(),
        ensures
            k@ == in_order::<K>(self@)[i as int],
            self@.contains(k@),
    {
        self.map.key_at(i)
    }

    /// Whether the set holds an element.
    pub fn contains(&self, k: &K) -> (b: bool)
        ensures
            b == self@.contains(k@),
    {
        self.map.contains_key(k)
    }

    /// Adds an element. Returns whether it was absent.
    pub fn insert(&mut self, k: K) -> (b: bool)
        ensures
            final(self)@ == old(self)@.insert(k@),
            b == !old(self)@.contains(k@),
    {
        let r = self.map.insert(k, ());
        r.is_none()
    }

    /// Removes an element. Returns whether it was present.
    pub fn remove(&mut self, k: &K) -> (b: bool)
        ensures
            final(self)@ == old(self)@.remove(k@),
            b == old(self)@.contains(k@),
    {
        let r = self.map.remove(k);
        r.is_some()
    }
}

} // verus!
