//! Keyed tables, kept in the order of their keys.
use vstd::prelude::*;

use crate::order::{arranged_once, arrangement, finite_is_arranged};

verus! {

/// What the keys of a table are: small values in a strict total order.
pub trait Key: Copy {
    /// The order.
    spec fn lt(self, other: Self) -> bool;

    /// No key comes before itself.
    proof fn lt_irreflexive(a: Self)
        ensures
            !a.lt(a),
    ;

    /// The order is transitive.
    proof fn lt_transitive(a: Self, b: Self, c: Self)
        requires
            a.lt(b),
            b.lt(c),
        ensures
            a.lt(c),
    ;

    /// Of two different keys one comes before the other.
    proof fn lt_total(a: Self, b: Self)
        ensures
            a.lt(b) || a == b || b.lt(a),
    ;

    /// Tells whether `self` comes before `other`.
    fn precedes(&self, other: &Self) -> (r: bool)
        ensures
            r == self.lt(*other),
    ;
}

/// The keys of `s` stand in strictly increasing order.
pub open spec fn increasing<K: Key>(s: Seq<K>) -> bool {
    forall|i: int, j: int| #![trigger s[i], s[j]] 0 <= i < j < s.len() ==> s[i].lt(s[j])
}

/// `s` lists the keys of `dom`, each once, in increasing order.
pub open spec fn lists<K: Key>(s: Seq<K>, dom: Set<K>) -> bool {
    &&& increasing(s)
    &&& forall|k: K| dom.contains(k) <==> #[trigger] s.contains(k)
}

/// The keys of `dom` in increasing order.
pub open spec fn ordered<K: Key>(dom: Set<K>) -> Seq<K> {
    choose|s: Seq<K>| lists(s, dom)
}

/// A set of keys is listed in increasing order in one way only.
pub proof fn lists_once<K: Key>(a: Seq<K>, b: Seq<K>, dom: Set<K>)
    requires
        lists(a, dom),
        lists(b, dom),
    ensures
        a == b,
{
    let before = |x: K, y: K| x.lt(y);
    assert forall|x: K| !#[trigger] before(x, x) by {
        K::lt_irreflexive(x);
    }
    assert forall|x: K, y: K, z: K| #[trigger]
        before(x, y) && #[trigger] before(y, z) implies before(x, z) by {
        K::lt_transitive(x, y, z);
    }
    arranged_once(a, b, dom, before);
}

/// What `lists` fixes, `ordered` is.
pub proof fn ordered_is<K: Key>(s: Seq<K>, dom: Set<K>)
    requires
        lists(s, dom),
    ensures
        ordered(dom) == s,
{
    lists_once(s, ordered(dom), dom);
}

/// A finite set of keys is listed.
pub proof fn finite_is_listed<K: Key>(dom: Set<K>)
    requires
        dom.finite(),
    ensures
        lists(ordered(dom), dom),
{
    let before = |x: K, y: K| x.lt(y);
    assert forall|x: K| !#[trigger] before(x, x) by {
        K::lt_irreflexive(x);
    }
    assert forall|x: K, y: K, z: K| #[trigger]
        before(x, y) && #[trigger] before(y, z) implies before(x, z) by {
        K::lt_transitive(x, y, z);
    }
    assert forall|x: K, y: K| #[trigger] before(x, y) || x == y || before(y, x) by {
        K::lt_total(x, y);
    }
    finite_is_arranged(dom, before);
    let s = arrangement(dom, before);
    assert forall|i: int, j: int|
        #![trigger s[i], s[j]]
        0 <= i < j < s.len() implies s[i].lt(s[j]) by {
        assert(before(s[i], s[j]));
    }
    assert(lists(s, dom));
}

/// A table from keys to values.
#[verifier::reject_recursive_types(K)]
pub struct Table<K: Key, V> {
    entries: Vec<(K, V)>,
}

spec fn entry_keys<K, V>(entries: Seq<(K, V)>) -> Seq<K> {
    Seq::new(entries.len(), |i: int| entries[i].0)
}

spec fn entry_map<K: Key, V: DeepView>(entries: Seq<(K, V)>) -> Map<K, V::V> {
    Map::new(
        |k: K| entry_keys(entries).contains(k),
        |k: K| entries[entry_keys(entries).index_of(k)].1.deep_view(),
    )
}

proof fn entry_map_at<K: Key, V: DeepView>(entries: Seq<(K, V)>, i: int)
    requires
        increasing(entry_keys(entries)),
        0 <= i < entries.len(),
    ensures
        entry_map(entries).contains_key(entries[i].0),
        entry_map(entries)[entries[i].0] == entries[i].1.deep_view(),
{
    let keys = entry_keys(entries);
    let k = entries[i].0;
    assert(keys[i] == k);
    assert(keys.contains(k));
    let j = keys.index_of(k);
    assert(0 <= j < keys.len() && keys[j] == k);
    if i < j {
        assert(keys[i].lt(keys[j]));
        K::lt_irreflexive(k);
    } else if j < i {
        assert(keys[j].lt(keys[i]));
        K::lt_irreflexive(k);
    }
}

impl<K: Key, V> Table<K, V> {
    #[verifier::type_invariant]
    spec fn in_order(&self) -> bool {
        increasing(entry_keys(self.entries@))
    }
}

impl<K: Key, V: DeepView> View for Table<K, V> {
    type V = Map<K, V::V>;

    closed spec fn view(&self) -> Map<K, V::V> {
        entry_map(self.entries@)
    }
}

impl<K: Key, V: DeepView> Table<K, V> {
    /// An empty table.
    pub fn new() -> (t: Self)
        ensures
            t@ == Map::<K, V::V>::empty(),
    {
        let t = Table { entries: Vec::new() };
        assert(t@ =~= Map::<K, V::V>::empty());
        t
    }

    /// The place of `key`: how many keys come before it.
    fn place(&self, key: &K) -> (p: usize)
        ensures
            p <= self.entries@.len(),
            forall|i: int| 0 <= i < p ==> (#[trigger] self.entries@[i]).0.lt(*key),
            forall|i: int|
                p <= i < self.entries@.len() ==> !(#[trigger] self.entries@[i]).0.lt(*key),
    {
        proof {
            use_type_invariant(self);
        }
        let mut low: usize = 0;
        let mut high: usize = self.entries.len();
        let ghost keys = entry_keys(self.entries@);
        while low < high
            invariant
                keys == entry_keys(self.entries@),
                increasing(keys),
                low <= high <= self.entries@.len(),
                forall|i: int| 0 <= i < low ==> (#[trigger] self.entries@[i]).0.lt(*key),
                forall|i: int|
                    high <= i < self.entries@.len() ==> !(#[trigger] self.entries@[i]).0.lt(*key),
            decreases high - low,
        {
            let mid: usize = low + (high - low) / 2;
            let before = self.entries[mid].0.precedes(key);
            if before {
                assert forall|i: int| 0 <= i < mid + 1 implies (#[trigger] self.entries@[i]).0.lt(
                    *key,
                ) by {
                    if i < mid {
                        assert(keys[i].lt(keys[mid as int]));
                        K::lt_transitive(keys[i], keys[mid as int], *key);
                    }
                }
                low = mid + 1;
            } else {
                assert forall|i: int| mid <= i < self.entries@.len() implies !(
                #[trigger] self.entries@[i]).0.lt(*key) by {
                    if i > mid && self.entries@[i].0.lt(*key) {
                        assert(keys[mid as int].lt(keys[i]));
                        K::lt_transitive(keys[mid as int], keys[i], *key);
                    }
                }
                high = mid;
            }
        }
        low
    }

    /// Tells whether `key` stands at `p`, its place.
    fn stands_at(&self, p: usize, key: &K) -> (r: bool)
        requires
            p <= self.entries@.len(),
            forall|i: int| 0 <= i < p ==> (#[trigger] self.entries@[i]).0.lt(*key),
            forall|i: int|
                p <= i < self.entries@.len() ==> !(#[trigger] self.entries@[i]).0.lt(*key),
        ensures
            r == self@.contains_key(*key),
            r ==> p < self.entries@.len() && self.entries@[p as int].0 == *key
                && self.entries@[p as int].1.deep_view() == self@[*key],
    {
        proof {
            use_type_invariant(self);
        }
        let ghost keys = entry_keys(self.entries@);
        if p < self.entries.len() && !key.precedes(&self.entries[p].0) {
            proof {
                K::lt_total(self.entries@[p as int].0, *key);
                entry_map_at(self.entries@, p as int);
            }
            true
        } else {
            proof {
                if keys.contains(*key) {
                    let i = choose|i: int| 0 <= i < keys.len() && keys[i] == *key;
                    K::lt_irreflexive(*key);
                    assert(self.entries@[i].0 == *key);
                    assert(i >= p);
                    if i > p {
                        assert(keys[p as int].lt(keys[i]));
                        assert(self.entries@[p as int].0.lt(*key));
                    }
                }
            }
            false
        }
    }

    /// The value under `key`, if there is one.
    pub fn try_get(&self, key: &K) -> (r: Option<&V>)
        ensures
            match r {
                Some(v) => self@.contains_key(*key) && v.deep_view() == self@[*key],
                None => !self@.contains_key(*key),
            },
    {
        let p = self.place(key);
        if self.stands_at(p, key) {
            Some(&self.entries[p].1)
        } else {
            None
        }
    }

    /// Puts `value` under `key`, in place of what stood there.
    pub fn put(&mut self, key: K, value: V)
        ensures
            final(self)@ == old(self)@.insert(key, value.deep_view()),
    {
        let p = self.place(&key);
        let found = self.stands_at(p, &key);
        proof {
            use_type_invariant(&*self);
        }
        let ghost before = self.entries@;
        let mut entries: Vec<(K, V)> = Vec::new();
        assert(increasing(entry_keys(entries@)));
        std::mem::swap(&mut entries, &mut self.entries);
        if found {
            let _ = entries.remove(p);
        }
        let ghost without = entries@;
        entries.insert(p, (key, value));
        let ghost after = entries@;
        proof {
            put_lemma(before, without, after, p as int, key, value, found);
        }
        std::mem::swap(&mut entries, &mut self.entries);
    }

    /// Takes the value under `key` out, if there is one.
    pub fn take(&mut self, key: &K) -> (r: Option<V>)
        ensures
            match r {
                Some(v) => old(self)@.contains_key(*key) && v.deep_view() == old(self)@[*key],
                None => !old(self)@.contains_key(*key),
            },
            final(self)@ == old(self)@.remove(*key),
    {
        let p = self.place(key);
        let found = self.stands_at(p, key);
        if !found {
            assert(self@.remove(*key) =~= self@);
            return None;
        }
        proof {
            use_type_invariant(&*self);
        }
        let ghost before = self.entries@;
        let mut entries: Vec<(K, V)> = Vec::new();
        std::mem::swap(&mut entries, &mut self.entries);
        let (_, value) = entries.remove(p);
        proof {
            take_lemma(before, entries@, p as int);
        }
        std::mem::swap(&mut entries, &mut self.entries);
        Some(value)
    }

    /// Deletes what stands under `key`, and tells whether anything did.
    pub fn delete(&mut self, key: &K) -> (r: bool)
        ensures
            r == old(self)@.contains_key(*key),
            final(self)@ == old(self)@.remove(*key),
    {
        match self.take(key) {
            Some(_) => true,
            None => false,
        }
    }

    /// The keys, in order.
    pub fn keys(&self) -> (r: Vec<K>)
        ensures
            r@ == ordered(self@.dom()),
            lists(r@, self@.dom()),
            self@.dom().finite(),
    {
        proof {
            use_type_invariant(self);
        }
        let mut r: Vec<K> = Vec::new();
        let n: usize = self.entries.len();
        for i in 0..n
            invariant
                n == self.entries@.len(),
                r@ =~= entry_keys(self.entries@).take(i as int),
        {
            r.push(self.entries[i].0);
        }
        assert(r@ =~= entry_keys(self.entries@));
        proof {
            ordered_is(r@, self@.dom());
            assert(self@.dom() =~= r@.to_set());
            vstd::seq_lib::seq_to_set_is_finite(r@);
        }
        r
    }

    /// The last key with its value, if the table holds any.
    pub fn last(&self) -> (r: Option<(K, &V)>)
        ensures
            match r {
                Some((k, v)) => {
                    &&& self@.contains_key(k)
                    &&& v.deep_view() == self@[k]
                    &&& ordered(self@.dom()).len() > 0
                    &&& ordered(self@.dom()).last() == k
                    &&& forall|j: K| #[trigger] self@.contains_key(j) ==> j == k || j.lt(k)
                },
                None => self@.dom() == Set::<K>::empty() && ordered(self@.dom()).len() == 0,
            },
    {
        proof {
            use_type_invariant(self);
            ordered_is(entry_keys(self.entries@), self@.dom());
        }
        let n: usize = self.entries.len();
        let ghost keys = entry_keys(self.entries@);
        if n == 0 {
            assert(self@.dom() =~= Set::<K>::empty());
            None
        } else {
            proof {
                entry_map_at(self.entries@, n - 1);
                assert forall|j: K| #[trigger] self@.contains_key(j) implies j == keys.last()
                    || j.lt(keys.last()) by {
                    let i = choose|i: int| 0 <= i < keys.len() && keys[i] == j;
                    if i < n - 1 {
                        assert(keys[i].lt(keys[n - 1]));
                    }
                }
            }
            Some((self.entries[n - 1].0, &self.entries[n - 1].1))
        }
    }

    /// Empties the table.
    pub fn clear(&mut self)
        ensures
            final(self)@ == Map::<K, V::V>::empty(),
    {
        let mut entries: Vec<(K, V)> = Vec::new();
        proof {
            assert(increasing(entry_keys(entries@)));
            assert(entry_map(entries@) =~= Map::<K, V::V>::empty());
        }
        std::mem::swap(&mut entries, &mut self.entries);
    }
}

proof fn take_lemma<K: Key, V: DeepView>(before: Seq<(K, V)>, after: Seq<(K, V)>, p: int)
    requires
        increasing(entry_keys(before)),
        0 <= p < before.len(),
        after == before.remove(p),
    ensures
        increasing(entry_keys(after)),
        entry_map(after) == entry_map(before).remove(before[p].0),
{
    let bk = entry_keys(before);
    let ak = entry_keys(after);
    let k = before[p].0;
    assert forall|i: int, j: int| #![trigger ak[i], ak[j]] 0 <= i < j < ak.len() implies ak[i].lt(
        ak[j],
    ) by {
        let i2 = if i < p { i } else { i + 1 };
        let j2 = if j < p { j } else { j + 1 };
        assert(bk[i2].lt(bk[j2]));
    }
    let target = entry_map(before).remove(k);
    assert forall|x: K| entry_map(after).contains_key(x) <==> target.contains_key(x) by {
        if ak.contains(x) {
            let i = choose|i: int| 0 <= i < ak.len() && ak[i] == x;
            let i2 = if i < p { i } else { i + 1 };
            assert(bk[i2] == x);
            if x == k {
                if i2 < p {
                    assert(bk[i2].lt(bk[p]));
                } else {
                    assert(bk[p].lt(bk[i2]));
                }
                K::lt_irreflexive(k);
            }
        }
        if target.contains_key(x) {
            let i = choose|i: int| 0 <= i < bk.len() && bk[i] == x;
            let i2 = if i < p { i } else { i - 1 };
            assert(ak[i2] == x);
        }
    }
    assert forall|x: K| #[trigger] target.contains_key(x) implies entry_map(after)[x]
        == target[x] by {
        let i = choose|i: int| 0 <= i < bk.len() && bk[i] == x;
        let i2 = if i < p { i } else { i - 1 };
        entry_map_at(before, i);
        entry_map_at(after, i2);
        assert(after[i2] == before[i]);
    }
    assert(entry_map(after) =~= target);
}

proof fn put_lemma<K: Key, V: DeepView>(
    before: Seq<(K, V)>,
    without: Seq<(K, V)>,
    after: Seq<(K, V)>,
    p: int,
    key: K,
    value: V,
    found: bool,
)
    requires
        increasing(entry_keys(before)),
        0 <= p <= before.len(),
        forall|i: int| 0 <= i < p ==> (#[trigger] before[i]).0.lt(key),
        forall|i: int| p <= i < before.len() ==> !(#[trigger] before[i]).0.lt(key),
        found == entry_map(before).contains_key(key),
        found ==> p < before.len() && before[p].0 == key && without == before.remove(p),
        !found ==> without == before,
        after == without.insert(p, (key, value)),
    ensures
        increasing(entry_keys(after)),
        entry_map(after) == entry_map(before).insert(key, value.deep_view()),
{
    if found {
        take_lemma(before, without, p);
    }
    let wk = entry_keys(without);
    let ak = entry_keys(after);
    let bk = entry_keys(before);
    assert forall|i: int| 0 <= i < p implies (#[trigger] wk[i]).lt(key) by {
        assert(wk[i] == before[i].0);
    }
    assert forall|i: int| p <= i < wk.len() implies key.lt(#[trigger] wk[i]) by {
        let i2 = if found { i + 1 } else { i };
        assert(wk[i] == before[i2].0);
        if found {
            assert(bk[p].lt(bk[i2]));
        } else {
            K::lt_total(key, bk[i2]);
            if bk[i2] == key {
                assert(bk.contains(key));
            }
        }
    }
    assert forall|i: int, j: int| #![trigger ak[i], ak[j]] 0 <= i < j < ak.len() implies ak[i].lt(
        ak[j],
    ) by {
        let i2 = if i < p { i } else { i - 1 };
        let j2 = if j < p { j } else { j - 1 };
        if i == p {
            assert(ak[j] == wk[j2]);
        } else if j == p {
            assert(ak[i] == wk[i2]);
        } else {
            assert(ak[i] == wk[i2] && ak[j] == wk[j2]);
        }
    }
    let target = entry_map(before).insert(key, value.deep_view());
    assert(ak[p] == key);
    entry_map_at(after, p);
    assert forall|x: K| entry_map(after).contains_key(x) <==> target.contains_key(x) by {
        if ak.contains(x) && x != key {
            let i = choose|i: int| 0 <= i < ak.len() && ak[i] == x;
            let i2 = if i < p { i } else { i - 1 };
            assert(wk[i2] == x);
            assert(entry_map(without).contains_key(x));
        }
        if target.contains_key(x) && x != key {
            assert(entry_map(without).contains_key(x));
            let i = choose|i: int| 0 <= i < wk.len() && wk[i] == x;
            let i2 = if i < p { i } else { i + 1 };
            assert(ak[i2] == x);
        }
        if x == key {
            assert(ak.contains(key));
        }
    }
    assert forall|x: K| #[trigger] target.contains_key(x) implies entry_map(after)[x]
        == target[x] by {
        if x != key {
            assert(entry_map(without).contains_key(x));
            let i = choose|i: int| 0 <= i < wk.len() && wk[i] == x;
            let i2 = if i < p { i } else { i + 1 };
            entry_map_at(without, i);
            entry_map_at(after, i2);
            assert(after[i2] == without[i]);
        }
    }
    assert(after[p] == (key, value));
    assert(entry_map(after).dom() =~= target.dom());
    assert(entry_map(after) =~= target);
}

} // verus!
