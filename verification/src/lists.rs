//! Lists of lists, put one behind the other, and lists without some of their items.

use vstd::prelude::*;

verus! {

/// All lists one behind the other.
pub open spec fn flattened<A>(lists: Seq<Seq<A>>) -> Seq<A>
    decreases lists.len(),
{
    if lists.len() == 0 {
        seq![]
    } else {
        flattened(lists.drop_last()) + lists.last()
    }
}

/// Lists are put together piece by piece.
pub proof fn lemma_flattened_concat<A>(a: Seq<Seq<A>>, b: Seq<Seq<A>>)
    ensures
        flattened(a + b) == flattened(a) + flattened(b),
    decreases b.len(),
{
    if b.len() == 0 {
        assert(a + b =~= a);
        assert(flattened(a) + flattened(b) =~= flattened(a));
    } else {
        lemma_flattened_concat(a, b.drop_last());
        assert((a + b).drop_last() =~= a + b.drop_last());
        assert(flattened(a + b) =~= flattened(a) + flattened(b));
    }
}

/// One list alone.
pub proof fn lemma_flattened_one<A>(list: Seq<A>)
    ensures
        flattened(seq![list]) == list,
{
    let front = seq![list].drop_last();
    assert(front =~= seq![]);
    assert(flattened(front) =~= seq![]);
    assert(flattened(seq![list]) =~= list);
}

/// Where item `k` of list `b` stands when the lists are put one behind the other.
pub open spec fn flat_place<A>(lists: Seq<Seq<A>>, b: int, k: int) -> int {
    flattened(lists.take(b)).len() as int + k
}

/// The lists put one behind the other hold each item at its place.
pub proof fn lemma_flattened<A>(lists: Seq<Seq<A>>, b: int, k: int)
    requires
        0 <= b < lists.len(),
        0 <= k < lists[b].len(),
    ensures
        0 <= flat_place(lists, b, k) < flattened(lists).len(),
        flattened(lists)[flat_place(lists, b, k)] == lists[b][k],
    decreases lists.len(),
{
    let front = lists.drop_last();
    if b < front.len() {
        lemma_flattened(front, b, k);
        assert(front.take(b) =~= lists.take(b));
    } else {
        assert(lists.take(b) =~= front);
    }
}

/// The end of a list is not behind the start of a later one.
pub proof fn lemma_flat_order<A>(lists: Seq<Seq<A>>, b: int, c: int)
    requires
        0 <= b < c <= lists.len(),
    ensures
        flat_place(lists, b, lists[b].len() as int) <= flat_place(lists, c, 0),
    decreases c,
{
    assert(lists.take(c).drop_last() =~= lists.take(c - 1));
    if b < c - 1 {
        lemma_flat_order(lists, b, c - 1);
    }
}

/// Where an item of all lists one behind the other comes from.
pub proof fn lemma_flat_source<A>(lists: Seq<Seq<A>>, at: int) -> (r: (int, int))
    requires
        0 <= at < flattened(lists).len(),
    ensures
        0 <= r.0 < lists.len(),
        0 <= r.1 < lists[r.0].len(),
        lists[r.0][r.1] == flattened(lists)[at],
    decreases lists.len(),
{
    let front = lists.drop_last();
    let n = flattened(front).len();
    if at < n {
        let (b, k) = lemma_flat_source(front, at);
        assert(front[b] == lists[b]);
        (b, k)
    } else {
        (lists.len() - 1, at - n)
    }
}

/// Which items a filter keeps.
pub proof fn lemma_filter_picks<A>(s: Seq<A>, pred: spec_fn(A) -> bool) -> (kept: Seq<int>)
    ensures
        kept.len() == s.filter(pred).len(),
        forall|i: int, j: int|
            0 <= i < j < kept.len() ==> #[trigger] kept[i] < #[trigger] kept[j],
        forall|i: int|
            0 <= i < kept.len() ==> 0 <= #[trigger] kept[i] < s.len() && s.filter(pred)[i]
                == s[kept[i]],
        forall|k: int| 0 <= k < s.len() ==> (#[trigger] kept.contains(k) <==> pred(s[k])),
    decreases s.len(),
{
    reveal(Seq::filter);
    if s.len() == 0 {
        seq![]
    } else {
        let front = s.drop_last();
        let n = s.len() - 1;
        let before = lemma_filter_picks(front, pred);
        assert(forall|k: int| 0 <= k < n ==> #[trigger] front[k] == s[k]);
        let kept = if pred(s[n]) {
            before.push(n)
        } else {
            before
        };
        assert forall|k: int| 0 <= k < s.len() implies (#[trigger] kept.contains(k) <==> pred(
            s[k],
        )) by {
            if k == n {
                if pred(s[n]) {
                    assert(kept[before.len() as int] == k);
                }
            } else {
                assert(before.contains(k) <==> pred(front[k]));
                if before.contains(k) {
                    let i = choose|i: int| 0 <= i < before.len() && before[i] == k;
                    assert(kept[i] == k);
                }
                if kept.contains(k) {
                    let i = choose|i: int| 0 <= i < kept.len() && kept[i] == k;
                    assert(before[i] == k);
                }
            }
        }
        assert forall|i: int| 0 <= i < kept.len() implies 0 <= #[trigger] kept[i] < s.len()
            && s.filter(pred)[i] == s[kept[i]] by {
            if i < before.len() {
                assert(kept[i] == before[i]);
                assert(s.filter(pred)[i] == front.filter(pred)[i]);
            }
        }
        kept
    }
}

} // verus!
