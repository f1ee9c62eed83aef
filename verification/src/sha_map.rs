//! A map from object names to values that remembers the order of first insertion.

use crate::lists::lemma_filter_picks;
use vstd::hash_map::StringHashMap;
use vstd::prelude::*;

verus! {

// ---------------------------------------------------------------------------
// Model: association lists
// ---------------------------------------------------------------------------

/// Does key `k` occur in the list?
pub open spec fn has_key<T>(m: Seq<(Seq<char>, T)>, k: Seq<char>) -> bool {
    exists|i: int| 0 <= i < m.len() && (#[trigger] m[i]).0 == k
}

/// A place where key `k` occurs.
pub open spec fn place_of<T>(m: Seq<(Seq<char>, T)>, k: Seq<char>) -> int {
    choose|i: int| 0 <= i < m.len() && (#[trigger] m[i]).0 == k
}

/// The value stored under `k`.
pub open spec fn lookup<T>(m: Seq<(Seq<char>, T)>, k: Seq<char>) -> Option<T> {
    if has_key(m, k) {
        Some(m[place_of(m, k)].1)
    } else {
        None
    }
}

/// No key occurs twice.
pub open spec fn unique_keys<T>(m: Seq<(Seq<char>, T)>) -> bool {
    forall|i: int, j: int|
        0 <= i < j < m.len() ==> (#[trigger] m[i]).0 != (#[trigger] m[j]).0
}

/// The list with `v` stored under `k`: in place of the old value if there is one,
/// at the end otherwise.
pub open spec fn put<T>(m: Seq<(Seq<char>, T)>, k: Seq<char>, v: T) -> Seq<(Seq<char>, T)> {
    if has_key(m, k) {
        m.update(place_of(m, k), (k, v))
    } else {
        m.push((k, v))
    }
}

/// The list that results from storing all pairs in order.
pub open spec fn put_all<T>(m: Seq<(Seq<char>, T)>, pairs: Seq<(Seq<char>, T)>) -> Seq<
    (Seq<char>, T),
>
    decreases pairs.len(),
{
    if pairs.len() == 0 {
        m
    } else {
        put(put_all(m, pairs.drop_last()), pairs.last().0, pairs.last().1)
    }
}

/// The pairs whose key occurs in `live`, in order.
pub open spec fn keep_keys<T, U>(
    m: Seq<(Seq<char>, T)>,
    live: Seq<(Seq<char>, U)>,
) -> Seq<(Seq<char>, T)> {
    m.filter(|e: (Seq<char>, T)| has_key(live, e.0))
}

/// The list stored under `k`, or the empty list.
pub open spec fn listed<T>(m: Seq<(Seq<char>, Seq<T>)>, k: Seq<char>) -> Seq<T> {
    match lookup(m, k) {
        Some(list) => list,
        None => seq![],
    }
}

/// What is found after storing a value: the value under its key, and what there was under
/// every other key.
pub proof fn lemma_lookup_put<T>(m: Seq<(Seq<char>, T)>, k: Seq<char>, v: T, q: Seq<char>)
    requires
        unique_keys(m),
    ensures
        unique_keys(put(m, k, v)),
        lookup(put(m, k, v), q) == (if q == k {
            Some(v)
        } else {
            lookup(m, q)
        }),
{
    let n = put(m, k, v);
    let at = if has_key(m, k) {
        place_of(m, k)
    } else {
        m.len() as int
    };
    assert(n[at] == (k, v));
    assert forall|i: int, j: int| 0 <= i < j < n.len() implies (#[trigger] n[i]).0 != (
    #[trigger] n[j]).0 by {
        if i != at {
            assert(n[i] == m[i]);
        }
        if j != at {
            assert(n[j] == m[j]);
        }
        if i < m.len() && j < m.len() {
            assert(m[i].0 != m[j].0);
        }
    }
    if q == k {
        assert(has_key(n, q));
        let p = place_of(n, q);
        assert(n[p].0 == n[at].0);
    } else if has_key(m, q) {
        let i = place_of(m, q);
        assert(n[i] == m[i]);
        assert(has_key(n, q));
        let p = place_of(n, q);
        assert(n[p].0 == n[i].0);
    } else if has_key(n, q) {
        let p = place_of(n, q);
        assert(m[p].0 == q);
    }
}

// ---------------------------------------------------------------------------
// The map
// ---------------------------------------------------------------------------

/// The pairs in order, and the place of each key.
struct Slots<V> {
    entries: Vec<(String, V)>,
    places: StringHashMap<usize>,
}

impl<V> Slots<V> {
    spec fn consistent(self) -> bool {
        &&& forall|i: int|
            0 <= i < self.entries@.len() ==> {
                &&& self.places@.contains_key((#[trigger] self.entries@[i]).0@)
                &&& self.places@[self.entries@[i].0@] == i
            }
        &&& forall|k: Seq<char>|
            #[trigger] self.places@.contains_key(k) ==> {
                &&& self.places@[k] < self.entries@.len()
                &&& self.entries@[self.places@[k] as int].0@ == k
            }
    }
}

/// A map from object names to values that remembers the order of first insertion.
pub struct ShaMap<V> {
    inner: Slots<V>,
}

impl<V> ShaMap<V> {
    #[verifier::type_invariant]
    spec fn well_formed(self) -> bool {
        self.inner.consistent()
    }
}

impl<V: DeepView> View for ShaMap<V> {
    type V = Seq<(Seq<char>, V::V)>;

    closed spec fn view(&self) -> Seq<(Seq<char>, V::V)> {
        Seq::new(
            self.inner.entries@.len(),
            |i: int| (self.inner.entries@[i].0@, self.inner.entries@[i].1.deep_view()),
        )
    }
}

impl<V: DeepView> ShaMap<V> {
    /// An empty map.
    pub fn new() -> (r: Self)
        ensures
            r@ == Seq::<(Seq<char>, V::V)>::empty(),
    {
        let r: Self = ShaMap { inner: Slots { entries: Vec::new(), places: StringHashMap::new() } };
        assert(r@ =~= Seq::<(Seq<char>, V::V)>::empty());
        r
    }

    /// The number of keys.
    pub fn len(&self) -> (r: usize)
        ensures
            r == self@.len(),
            unique_keys(self@),
    {
        proof {
            use_type_invariant(self);
        }
        self.inner.entries.len()
    }

    /// Is there no key?
    pub fn is_empty(&self) -> (r: bool)
        ensures
            r == (self@.len() == 0),
    {
        self.len() == 0
    }

    /// The place of `k` in the order.
    pub fn position(&self, k: &str) -> (r: Option<usize>)
        ensures
            match r {
                Some(i) => i < self@.len() && self@[i as int].0 == k@ && has_key(self@, k@)
                    && place_of(self@, k@) == i,
                None => !has_key(self@, k@),
            },
            unique_keys(self@),
    {
        proof {
            use_type_invariant(self);
        }
        match self.inner.places.get(k) {
            Some(i) => {
                assert(self@[*i as int].0 == k@);
                Some(*i)
            },
            None => {
                assert forall|i: int| 0 <= i < self@.len() implies (#[trigger] self@[i]).0
                    != k@ by {
                    assert(self@[i].0 == self.inner.entries@[i].0@);
                }
                None
            },
        }
    }

    /// Is `k` a key of the map?
    pub fn contains_key(&self, k: &str) -> (r: bool)
        ensures
            r == has_key(self@, k@),
    {
        self.position(k).is_some()
    }

    /// The value stored under `k`.
    pub fn get(&self, k: &str) -> (r: Option<&V>)
        ensures
            match r {
                Some(v) => lookup(self@, k@) == Some(v.deep_view()),
                None => lookup(self@, k@) is None,
            },
    {
        match self.position(k) {
            Some(i) => Some(self.value_at(i)),
            None => None,
        }
    }

    /// The key at place `i` of the order.
    pub fn key_at(&self, i: usize) -> (r: &str)
        requires
            i < self@.len(),
        ensures
            r@ == self@[i as int].0,
    {
        self.inner.entries[i].0.as_str()
    }

    /// The value at place `i` of the order.
    pub fn value_at(&self, i: usize) -> (r: &V)
        requires
            i < self@.len(),
        ensures
            r.deep_view() == self@[i as int].1,
    {
        &self.inner.entries[i].1
    }

    /// Stores `v` under `k`.
    pub fn insert(&mut self, k: String, v: V)
        ensures
            final(self)@ == put(old(self)@, k@, v.deep_view()),
            unique_keys(final(self)@),
    {
        proof {
            use_type_invariant(&*self);
        }
        let ghost before = self@;
        let mut inner: Slots<V> = Slots { entries: Vec::new(), places: StringHashMap::new() };
        std::mem::swap(&mut inner, &mut self.inner);
        let found: Option<usize> = match inner.places.get(k.as_str()) {
            Some(i) => Some(*i),
            None => None,
        };
        match found {
            Some(i) => {
                assert(before[i as int].0 == k@);
                proof {
                    let p = place_of(before, k@);
                    assert(inner.entries@[p].0@ == before[p].0);
                }
                inner.entries.set(i, (k, v));
            },
            None => {
                let n: usize = inner.entries.len();
                assert(!has_key(before, k@)) by {
                    assert forall|i: int| 0 <= i < before.len() implies (#[trigger] before[i]).0
                        != k@ by {
                        assert(before[i].0 == inner.entries@[i].0@);
                    }
                }
                inner.places.insert(k.clone(), n);
                inner.entries.push((k, v));
            },
        }
        self.inner = inner;
        assert(self@ =~= put(before, k@, v.deep_view()));
        proof {
            use_type_invariant(&*self);
        }
    }

    /// Drops every key that does not occur in `live`.
    pub fn retain_keys<W: DeepView>(&mut self, live: &ShaMap<W>)
        ensures
            final(self)@ == keep_keys(old(self)@, live@),
            unique_keys(final(self)@),
    {
        proof {
            use_type_invariant(&*self);
        }
        let ghost before = self@;
        let mut inner: Slots<V> = Slots { entries: Vec::new(), places: StringHashMap::new() };
        std::mem::swap(&mut inner, &mut self.inner);
        let ghost all = inner.entries@;
        let mut stack: Vec<(String, V)> = Vec::new();
        while inner.entries.len() > 0
            invariant
                inner.entries@.len() + stack@.len() == all.len(),
                inner.entries@ == all.take(inner.entries@.len() as int),
                forall|i: int| 0 <= i < stack@.len() ==> #[trigger] stack@[i] == all[all.len() - 1 - i],
            decreases inner.entries@.len(),
        {
            match inner.entries.pop() {
                Some(e) => stack.push(e),
                None => (),
            }
        }
        let mut kept: ShaMap<V> = ShaMap::new();
        let ghost pred = |e: (Seq<char>, V::V)| has_key(live@, e.0);
        assert(before.take(0) =~= Seq::empty());
        proof {
            reveal(Seq::filter);
        }
        while stack.len() > 0
            invariant
                before.len() == all.len(),
                stack@.len() <= all.len(),
                unique_keys(before),
                pred == (|e: (Seq<char>, V::V)| has_key(live@, e.0)),
                forall|i: int| 0 <= i < all.len() ==> #[trigger] before[i] == (all[i].0@, all[i].1.deep_view()),
                forall|i: int| 0 <= i < stack@.len() ==> #[trigger] stack@[i] == all[all.len() - 1 - i],
                kept@ == before.take(all.len() - stack@.len()).filter(pred),
            decreases stack@.len(),
        {
            let ghost n = all.len() - stack@.len();
            match stack.pop() {
                Some(e) => {
                    proof {
                        reveal(Seq::filter);
                        assert(before.take(n + 1).drop_last() =~= before.take(n));
                        assert(before[n] == (e.0@, e.1.deep_view()));
                        if has_key(kept@, e.0@) {
                            let i = place_of(kept@, e.0@);
                            assert(before.take(n).contains(kept@[i])) by {
                                assert(kept@.contains(kept@[i]));
                                lemma_filter_contains(before.take(n), pred, kept@[i]);
                            }
                            let j = choose|j: int| 0 <= j < n && before.take(n)[j] == kept@[i];
                            assert(before[j].0 == before[n].0);
                        }
                    }
                    if live.contains_key(e.0.as_str()) {
                        kept.insert(e.0, e.1);
                    }
                },
                None => (),
            }
        }
        assert(before.take(all.len() as int) =~= before);
        proof {
            use_type_invariant(&kept);
        }
        let ghost result = kept@;
        std::mem::swap(&mut kept.inner, &mut self.inner);
        assert(self@ =~= result);
        proof {
            use_type_invariant(&*self);
        }
    }
}

/// A filter keeps the members that meet its condition, and only those.
pub proof fn lemma_filter_contains<A>(s: Seq<A>, pred: spec_fn(A) -> bool, x: A)
    ensures
        s.filter(pred).contains(x) <==> s.contains(x) && pred(x),
    decreases s.len(),
{
    reveal(Seq::filter);
    if s.len() > 0 {
        let front = s.drop_last();
        let kept = front.filter(pred);
        lemma_filter_contains(front, pred, x);
        assert(s =~= front.push(s.last()));
        if kept.contains(x) {
            let i = choose|i: int| 0 <= i < kept.len() && kept[i] == x;
            assert(s.filter(pred)[i] == x);
        }
        if front.contains(x) {
            let i = choose|i: int| 0 <= i < front.len() && front[i] == x;
            assert(s[i] == x);
        }
        if s.last() == x {
            assert(s[s.len() - 1] == x);
            if pred(x) {
                assert(s.filter(pred)[kept.len() as int] == x);
            }
        }
    }
}

impl ShaMap<Vec<String>> {
    /// Adds `item` to the end of the list stored under `k`, which starts out empty.
    pub fn push_under(&mut self, k: String, item: String)
        ensures
            final(self)@ == put(
                old(self)@,
                k@,
                listed(old(self)@, k@).push(item@),
            ),
            unique_keys(final(self)@),
    {
        proof {
            use_type_invariant(&*self);
        }
        let ghost before = self@;
        let found: Option<usize> = self.position(k.as_str());
        match found {
            Some(i) => {
                let mut inner: Slots<Vec<String>> = Slots {
                    entries: Vec::new(),
                    places: StringHashMap::new(),
                };
                std::mem::swap(&mut inner, &mut self.inner);
                inner.entries[i].1.push(item);
                self.inner = inner;
                assert(self@[i as int].1 =~= listed(before, k@).push(item@));
                assert(self@ =~= put(before, k@, listed(before, k@).push(item@)));
            },
            None => {
                let mut list: Vec<String> = Vec::new();
                list.push(item);
                assert(list.deep_view() =~= listed(before, k@).push(item@));
                self.insert(k, list);
            },
        }
        proof {
            use_type_invariant(&*self);
        }
    }
}

// ---------------------------------------------------------------------------
// Laws
// ---------------------------------------------------------------------------

/// Looking up is finding the pair.
pub proof fn law_lookup<T>(m: Seq<(Seq<char>, T)>, k: Seq<char>, v: T)
    requires
        unique_keys(m),
    ensures
        lookup(m, k) == Some(v) <==> m.contains((k, v)),
        lookup(m, k) is None <==> forall|i: int| 0 <= i < m.len() ==> (#[trigger] m[i]).0 != k,
{
    if m.contains((k, v)) {
        let i = choose|i: int| 0 <= i < m.len() && m[i] == (k, v);
        assert(m[i].0 == k);
        assert(has_key(m, k));
        assert(m[place_of(m, k)].0 == m[i].0);
    }
    if has_key(m, k) {
        assert(m.contains(m[place_of(m, k)]));
    }
}

/// What is looked up is what stands under the key, and nothing is found just where the key does
/// not stand in the map.
pub proof fn law_get<V: DeepView>(map: &ShaMap<V>, k: &str, r: Option<&V>)
    requires
        call_ensures(ShaMap::<V>::get, (map, k), r),
        unique_keys(map@),
    ensures
        r is Some ==> map@.contains((k@, r->0.deep_view())),
        r is None <==> forall|i: int| 0 <= i < map@.len() ==> (#[trigger] map@[i]).0 != k@,
{
    match r {
        Some(v) => law_lookup(map@, k@, v.deep_view()),
        None => {
            if has_key(map@, k@) {
                assert(lookup(map@, k@) is Some);
            }
        },
    }
}

/// After a value is stored it stands under its key, alone, and what stands under other keys is
/// what stood there before. A key that was there keeps its place, and a new one is the last.
pub proof fn law_insert<V: DeepView>(map: &mut ShaMap<V>, k: String, v: V, q: Seq<char>, w: V::V)
    requires
        call_ensures(ShaMap::<V>::insert, (map, k, v), ()),
        unique_keys(old(map)@),
    ensures
        unique_keys(final(map)@),
        final(map)@.contains((k@, v.deep_view())),
        q != k@ ==> (final(map)@.contains((q, w)) <==> old(map)@.contains((q, w))),
        forall|i: int|
            0 <= i < old(map)@.len() ==> i < final(map)@.len() && (#[trigger] final(map)@[i]).0
                == old(map)@[i].0,
        final(map)@.len() <= old(map)@.len() + 1,
{
    let before = old(map)@;
    let after = final(map)@;
    lemma_lookup_put(before, k@, v.deep_view(), k@);
    lemma_lookup_put(before, k@, v.deep_view(), q);
    law_lookup(after, k@, v.deep_view());
    law_lookup(after, q, w);
    law_lookup(before, q, w);
}

/// What stays are the pairs whose key stands in the other map, all of them and in their order.
pub proof fn law_retain_keys<V: DeepView, W: DeepView>(map: &mut ShaMap<V>, live: &ShaMap<W>) -> (
    kept: Seq<int>)
    requires
        call_ensures(ShaMap::<V>::retain_keys::<W>, (map, live), ()),
    ensures
        final(map)@.len() == kept.len(),
        forall|i: int, j: int|
            0 <= i < j < kept.len() ==> #[trigger] kept[i] < #[trigger] kept[j],
        forall|i: int|
            0 <= i < kept.len() ==> 0 <= #[trigger] kept[i] < old(map)@.len() && final(map)@[i]
                == old(map)@[kept[i]],
        forall|k: int|
            0 <= k < old(map)@.len() ==> (#[trigger] kept.contains(k) <==> exists|j: int|
                0 <= j < live@.len() && (#[trigger] live@[j]).0 == old(map)@[k].0),
{
    let pred = |e: (Seq<char>, V::V)| has_key(live@, e.0);
    lemma_filter_picks(old(map)@, pred)
}

} // verus!
