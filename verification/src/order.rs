//! Ranking: the places of the smallest keys, in ascending order.

use vstd::prelude::*;

verus! {

/// Does place `a` rank before place `b`: by its key, and among equal keys by the place?
pub open spec fn ranks_before(keys: Seq<u64>, a: int, b: int) -> bool {
    keys[a] < keys[b] || (keys[a] == keys[b] && a < b)
}

/// Does `r` list the first `limit` of the first `n` places, in ranking order?
pub open spec fn ranked_among(keys: Seq<u64>, n: int, r: Seq<int>, limit: int) -> bool {
    &&& r.len() == (if limit < n {
        limit
    } else {
        n
    })
    &&& forall|i: int| 0 <= i < r.len() ==> 0 <= #[trigger] r[i] < n
    &&& n <= limit ==> forall|k: int| 0 <= k < n ==> #[trigger] r.contains(k)
    &&& forall|i: int, j: int|
        0 <= i < j < r.len() ==> ranks_before(keys, #[trigger] r[i], #[trigger] r[j])
    &&& forall|i: int, k: int|
        #![trigger r[i], keys[k]]
        0 <= i < r.len() && 0 <= k < n && !r.contains(k) ==> ranks_before(keys, r[i], k)
}

/// Does `r` list the first `limit` places (or all of them), in ranking order?
pub open spec fn ranked(keys: Seq<u64>, r: Seq<int>, limit: int) -> bool {
    ranked_among(keys, keys.len() as int, r, limit)
}

/// A list of places.
pub open spec fn places(v: Seq<usize>) -> Seq<int> {
    Seq::new(v.len(), |i: int| v[i] as int)
}

/// One more place joins a full or growing ranking at the position that its key gives.
proof fn lemma_rank_step(keys: Seq<u64>, n: int, r: Seq<int>, limit: int, p: int, next: Seq<int>)
    requires
        0 <= n < keys.len(),
        0 <= limit,
        ranked_among(keys, n, r, limit),
        0 <= p <= r.len(),
        forall|q: int| 0 <= q < p ==> keys[#[trigger] r[q]] <= keys[n],
        forall|q: int| p <= q < r.len() ==> keys[#[trigger] r[q]] > keys[n],
        next == (if p >= limit {
            r
        } else if r.len() == limit {
            r.insert(p, n).drop_last()
        } else {
            r.insert(p, n)
        }),
    ensures
        ranked_among(keys, n + 1, next, limit),
{
    let wide = r.insert(p, n);
    assert forall|i: int, j: int| 0 <= i < j < wide.len() implies ranks_before(
        keys,
        #[trigger] wide[i],
        #[trigger] wide[j],
    ) by {
        let a = if i < p { i } else { i - 1 };
        let b = if j < p { j } else { j - 1 };
        if i != p {
            assert(wide[i] == r[a]);
        }
        if j != p {
            assert(wide[j] == r[b]);
        }
    }
    assert forall|i: int| 0 <= i < wide.len() implies 0 <= #[trigger] wide[i] < n + 1 by {
        if i != p {
            assert(wide[i] == r[if i < p { i } else { i - 1 }]);
        }
    }
    assert forall|k: int| r.contains(k) implies wide.contains(k) by {
        let q = choose|q: int| 0 <= q < r.len() && r[q] == k;
        assert(wide[if q < p { q } else { q + 1 }] == k);
    }
    assert(wide[p] == n);
    assert forall|i: int, k: int|
        #![trigger next[i], keys[k]]
        0 <= i < next.len() && 0 <= k < n + 1 && !next.contains(k) implies ranks_before(
        keys,
        next[i],
        k,
    ) by {
        if p >= limit {
            assert(next[i] == r[i]);
        } else {
            assert(next[i] == wide[i]);
            if wide.contains(k) {
                let q = choose|q: int| 0 <= q < wide.len() && wide[q] == k;
                if q < next.len() {
                    assert(next[q] == k);
                }
                assert(i < q);
            } else {
                assert(!r.contains(k));
                assert(k != n);
                let last = wide[wide.len() - 1];
                assert(r.len() == limit);
                assert(last == r[r.len() - 1]);
                assert(ranks_before(keys, last, k));
                assert(ranks_before(keys, wide[i], last));
            }
        }
    }
}

/// The places of the `limit` smallest keys, in ascending order of the keys; equal keys
/// stay in the order of their places.
pub fn rank(keys: &Vec<u64>, limit: usize) -> (r: Vec<usize>)
    ensures
        ranked(keys@, places(r@), limit as int),
{
    let mut r: Vec<usize> = Vec::new();
    let mut n: usize = 0;
    while n < keys.len()
        invariant
            n <= keys@.len(),
            ranked_among(keys@, n as int, places(r@), limit as int),
        decreases keys@.len() - n,
    {
        let key: u64 = keys[n];
        let mut p: usize = r.len();
        let ghost before = places(r@);
        assert forall|i: int| 0 <= i < r@.len() implies (#[trigger] r@[i]) < n by {
            assert(before[i] == r@[i] as int);
        }
        while p > 0 && keys[r[p - 1]] > key
            invariant
                p <= r@.len(),
                before == places(r@),
                n < keys@.len(),
                key == keys@[n as int],
                ranked_among(keys@, n as int, before, limit as int),
                forall|i: int| 0 <= i < r@.len() ==> (#[trigger] r@[i]) < n,
                forall|q: int| p <= q < before.len() ==> keys@[#[trigger] before[q]] > key,
            decreases p,
        {
            p = p - 1;
            assert(before[p as int] == r@[p as int] as int);
        }
        proof {
            if p > 0 {
                assert(before[p - 1] == r@[p - 1] as int);
                assert forall|q: int| 0 <= q < p implies keys@[#[trigger] before[q]] <= key by {
                    if q < p - 1 {
                        assert(ranks_before(keys@, before[q], before[p - 1]));
                    }
                }
            }
        }
        if p < limit {
            let full: bool = r.len() == limit;
            r.insert(p, n);
            assert(places(r@) =~= before.insert(p as int, n as int));
            if full {
                r.pop();
                assert(places(r@) =~= before.insert(p as int, n as int).drop_last());
            }
        }
        proof {
            lemma_rank_step(keys@, n as int, before, limit as int, p as int, places(r@));
        }
        n = n + 1;
    }
    r
}

/// There is only one ranking: two lists that both rank the keys are the same.
pub proof fn law_ranking_is_unique(keys: Seq<u64>, a: Seq<int>, b: Seq<int>, limit: int)
    requires
        ranked(keys, a, limit),
        ranked(keys, b, limit),
    ensures
        a == b,
{
    lemma_same_prefix(keys, a, b, limit, a.len() as int);
    assert(a.take(a.len() as int) =~= a);
    assert(b.take(a.len() as int) =~= b);
}

/// Two rankings agree on their first `n` places.
proof fn lemma_same_prefix(keys: Seq<u64>, a: Seq<int>, b: Seq<int>, limit: int, n: int)
    requires
        ranked(keys, a, limit),
        ranked(keys, b, limit),
        0 <= n <= a.len(),
    ensures
        a.take(n) == b.take(n),
    decreases n,
{
    if n > 0 {
        lemma_same_prefix(keys, a, b, limit, n - 1);
        lemma_not_after(keys, a, b, limit, n - 1);
        lemma_not_after(keys, b, a, limit, n - 1);
        assert(a.take(n) =~= a.take(n - 1).push(a[n - 1]));
        assert(b.take(n) =~= b.take(n - 1).push(b[n - 1]));
    }
}

/// Where two rankings agree so far, the next place of the one does not rank before the
/// next place of the other.
proof fn lemma_not_after(keys: Seq<u64>, a: Seq<int>, b: Seq<int>, limit: int, n: int)
    requires
        ranked(keys, a, limit),
        ranked(keys, b, limit),
        0 <= n < a.len(),
        a.take(n) == b.take(n),
    ensures
        !ranks_before(keys, a[n], b[n]),
{
    if ranks_before(keys, a[n], b[n]) {
        let k = a[n];
        if b.contains(k) {
            let q = choose|q: int| 0 <= q < b.len() && b[q] == k;
            if q < n {
                assert(a.take(n)[q] == a[q] && b.take(n)[q] == b[q]);
                assert(ranks_before(keys, a[q], a[n]));
            } else if q > n {
                assert(ranks_before(keys, b[n], b[q]));
            }
        } else {
            assert(keys[k] == keys[k]);
            assert(ranks_before(keys, b[n], k));
        }
    }
}

/// A ranking that is cut off is the ranking of fewer places.
pub proof fn lemma_ranking_take(keys: Seq<u64>, r: Seq<int>, limit: int)
    requires
        ranked(keys, r, keys.len() as int),
        0 <= limit,
    ensures
        ranked(
            keys,
            r.take(
                if limit < r.len() {
                    limit
                } else {
                    r.len() as int
                },
            ),
            limit,
        ),
{
    if limit < r.len() {
        let t = r.take(limit);
        assert forall|i: int, k: int|
            #![trigger t[i], keys[k]]
            0 <= i < t.len() && 0 <= k < keys.len() && !t.contains(k) implies ranks_before(
            keys,
            t[i],
            k,
        ) by {
            assert(r.contains(k));
            let q = choose|q: int| 0 <= q < r.len() && r[q] == k;
            if q < limit {
                assert(t[q] == k);
            }
            assert(ranks_before(keys, r[i], r[q]));
        }
        assert forall|i: int, j: int| 0 <= i < j < t.len() implies ranks_before(
            keys,
            #[trigger] t[i],
            #[trigger] t[j],
        ) by {
            assert(t[i] == r[i] && t[j] == r[j]);
        }
    } else {
        assert(r.take(r.len() as int) =~= r);
    }
}

/// The places that [`rank`] gives: as many as there are, but `limit` at most; the key at each
/// is not above the key at a later one, nor above the key at a place that is not given, and
/// equal keys are in the order of their places.
pub proof fn law_rank(keys: &Vec<u64>, limit: usize, r: Vec<usize>)
    requires
        call_ensures(rank, (keys, limit), r),
    ensures
        r@.len() <= limit && r@.len() <= keys@.len(),
        r@.len() == limit || r@.len() == keys@.len(),
        forall|i: int| 0 <= i < r@.len() ==> (#[trigger] r@[i]) < keys@.len(),
        forall|i: int, j: int|
            0 <= i < j < r@.len() ==> keys@[#[trigger] r@[i] as int] < keys@[#[trigger] r@[j] as int]
                || (keys@[r@[i] as int] == keys@[r@[j] as int] && r@[i] < r@[j]),
        forall|i: int, k: int|
            #![trigger r@[i], keys@[k]]
            0 <= i < r@.len() && 0 <= k < keys@.len() && !(exists|j: int|
                0 <= j < r@.len() && #[trigger] r@[j] == k) ==> keys@[r@[i] as int] < keys@[k] || (
            keys@[r@[i] as int] == keys@[k] && r@[i] < k),
{
    let p = places(r@);
    assert(p.len() == r@.len());
    assert(forall|i: int| 0 <= i < r@.len() ==> #[trigger] p[i] == r@[i]);
    assert forall|i: int| 0 <= i < r@.len() implies (#[trigger] r@[i]) < keys@.len() by {
        assert(p[i] == r@[i]);
    }
    assert forall|i: int, j: int| 0 <= i < j < r@.len() implies keys@[#[trigger] r@[i] as int]
        < keys@[#[trigger] r@[j] as int] || (keys@[r@[i] as int] == keys@[r@[j] as int] && r@[i]
        < r@[j]) by {
        assert(ranks_before(keys@, p[i], p[j]));
    }
    assert forall|i: int, k: int|
        #![trigger r@[i], keys@[k]]
        0 <= i < r@.len() && 0 <= k < keys@.len() && !(exists|j: int|
            0 <= j < r@.len() && #[trigger] r@[j] == k) implies keys@[r@[i] as int] < keys@[k] || (
    keys@[r@[i] as int] == keys@[k] && r@[i] < k) by {
        if p.contains(k) {
            let j = choose|j: int| 0 <= j < p.len() && p[j] == k;
            assert(r@[j] == k);
        }
        assert(ranks_before(keys@, p[i], k));
    }
}

} // verus!
