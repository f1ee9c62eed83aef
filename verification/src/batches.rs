//! Batching: texts of similar length share a forward pass.

use crate::lists::{
    flat_place, flattened, lemma_flat_order, lemma_flat_source, lemma_flattened,
};
use crate::order::{places, rank, ranked, ranks_before};
use vstd::prelude::*;

verus! {

/// The most tokens that a batch takes, counted as its size times its longest text.
pub const MAX_BATCH_TOKENS: usize = 16384;

/// The most texts that a batch takes.
pub const MAX_BATCH_SIZE: usize = 32;

/// Do `n` texts of up to `tokens` tokens fit into a batch?
pub open spec fn fits(n: nat, tokens: int) -> bool {
    n <= MAX_BATCH_SIZE && n * tokens <= MAX_BATCH_TOKENS
}

/// The texts in the given order, packed into batches: a text joins the batch before it if
/// the batch still fits at the length of that text, and starts a batch of its own
/// otherwise.
pub open spec fn packed(order: Seq<int>, tokens: Seq<u64>) -> Seq<Seq<int>>
    decreases order.len(),
{
    if order.len() == 0 {
        seq![]
    } else {
        let done = packed(order.drop_last(), tokens);
        let x = order.last();
        if done.len() > 0 && fits(done.last().len() + 1, tokens[x] as int) {
            done.drop_last().push(done.last().push(x))
        } else {
            done.push(seq![x])
        }
    }
}

/// Is `batches` the packing of the texts in ascending order of their lengths, texts of one
/// length in the order in which they came?
pub open spec fn batched(tokens: Seq<u64>, batches: Seq<Seq<int>>) -> bool {
    exists|order: Seq<int>| #[trigger]
        ranked(tokens, order, tokens.len() as int) && batches == packed(order, tokens)
}

/// The contents of a list of batches.
pub open spec fn batch_places(v: Seq<Vec<usize>>) -> Seq<Seq<int>> {
    Seq::new(v.len(), |i: int| places(v[i]@))
}

/// Does one more text of `tokens` tokens fit into a batch of `n`?
fn has_room(n: usize, tokens: u64) -> (r: bool)
    ensures
        r == fits((n + 1) as nat, tokens as int),
{
    if n >= MAX_BATCH_SIZE {
        return false;
    }
    let size: u64 = n as u64 + 1;
    let limit: u64 = MAX_BATCH_TOKENS as u64;
    if tokens > limit {
        assert(size * tokens > MAX_BATCH_TOKENS) by (nonlinear_arith)
            requires
                size >= 1,
                tokens > MAX_BATCH_TOKENS,
        ;
        return false;
    }
    assert(size * tokens <= 32 * 16384) by (nonlinear_arith)
        requires
            size <= 32,
            tokens <= 16384,
    ;
    size * tokens <= limit
}

/// Groups texts, given by their lengths in tokens, into batches.
pub fn pack(tokens: &Vec<u64>) -> (r: Vec<Vec<usize>>)
    ensures
        batched(tokens@, batch_places(r@)),
{
    let order: Vec<usize> = rank(tokens, tokens.len());
    let ghost all = places(order@);
    let mut done: Vec<Vec<usize>> = Vec::new();
    let mut current: Vec<usize> = Vec::new();
    let mut i: usize = 0;
    assert forall|k: int| 0 <= k < order@.len() implies (#[trigger] order@[k]) < tokens@.len() by {
        assert(all[k] == order@[k]);
    }
    while i < order.len()
        invariant
            i <= order@.len(),
            all == places(order@),
            forall|k: int| 0 <= k < order@.len() ==> (#[trigger] order@[k]) < tokens@.len(),
            (i == 0) == (current@.len() == 0),
            i == 0 ==> done@.len() == 0,
            i > 0 ==> packed(all.take(i as int), tokens@) == batch_places(done@).push(
                places(current@),
            ),
        decreases order@.len() - i,
    {
        let x: usize = order[i];
        let ghost before = batch_places(done@);
        let ghost open = places(current@);
        proof {
            assert(all.take(i + 1).drop_last() =~= all.take(i as int));
            assert(all.take(i + 1).last() == x);
            assert(before.push(open).last() == open);
            assert(before.push(open).drop_last() =~= before);
        }
        if current.len() > 0 && !has_room(current.len(), tokens[x]) {
            let mut full: Vec<usize> = Vec::new();
            std::mem::swap(&mut full, &mut current);
            done.push(full);
            assert(batch_places(done@) =~= before.push(open));
        }
        let ghost rest = places(current@);
        current.push(x);
        assert(places(current@) =~= rest.push(x as int));
        proof {
            if i == 0 {
                assert(all.take(0) =~= seq![]);
                assert(packed(all.take(0), tokens@) =~= seq![]);
                assert(places(current@) =~= seq![x as int]);
                assert(packed(all.take(1), tokens@) =~= batch_places(done@).push(
                    places(current@),
                ));
            } else {
                assert(open.len() > 0);
                if rest.len() == 0 {
                    assert(places(current@) =~= seq![x as int]);
                }
                assert(packed(all.take(i + 1), tokens@) =~= batch_places(done@).push(
                    places(current@),
                ));
            }
        }
        i = i + 1;
    }
    assert(all.take(i as int) =~= all);
    if current.len() > 0 {
        let ghost before = batch_places(done@);
        let ghost open = places(current@);
        done.push(current);
        assert(batch_places(done@) =~= before.push(open));
    } else {
        assert(batch_places(done@) =~= packed(all, tokens@));
    }
    assert(ranked(tokens@, all, tokens@.len() as int));
    done
}

// ---------------------------------------------------------------------------
// Laws
// ---------------------------------------------------------------------------

/// Packing keeps every text, in order.
proof fn lemma_packed_flat(order: Seq<int>, tokens: Seq<u64>)
    ensures
        flattened(packed(order, tokens)) == order,
    decreases order.len(),
{
    if order.len() > 0 {
        let done = packed(order.drop_last(), tokens);
        let x = order.last();
        lemma_packed_flat(order.drop_last(), tokens);
        assert(order =~= order.drop_last().push(x));
        if done.len() > 0 && fits(done.last().len() + 1, tokens[x] as int) {
            let next = done.drop_last().push(done.last().push(x));
            assert(next.drop_last() =~= done.drop_last());
            assert(flattened(next) =~= order);
        } else {
            let next = done.push(seq![x]);
            assert(next.drop_last() =~= done);
            assert(flattened(next) =~= order);
        }
    }
}

/// What holds of each batch of a packing.
proof fn lemma_packed_fit(order: Seq<int>, tokens: Seq<u64>)
    ensures
        ({
            let batches = packed(order, tokens);
            &&& order.len() > 0 ==> batches.len() > 0 && batches.last().last() == order.last()
            &&& forall|b: int|
                0 <= b < batches.len() ==> {
                    &&& (#[trigger] batches[b]).len() > 0
                    &&& batches[b].len() == 1 || fits(
                        batches[b].len(),
                        tokens[batches[b].last()] as int,
                    )
                }
            &&& forall|b: int|
                0 <= b < batches.len() - 1 ==> !fits(
                    (#[trigger] batches[b]).len() + 1,
                    tokens[batches[b + 1][0]] as int,
                )
        }),
    decreases order.len(),
{
    if order.len() > 0 {
        let front = order.drop_last();
        let done = packed(front, tokens);
        let x = order.last();
        let batches = packed(order, tokens);
        lemma_packed_fit(front, tokens);
        if done.len() > 0 && fits(done.last().len() + 1, tokens[x] as int) {
            let k = done.len() - 1;
            assert(batches[k] == done[k].push(x));
            assert forall|b: int| 0 <= b < batches.len() implies {
                &&& (#[trigger] batches[b]).len() > 0
                &&& batches[b].len() == 1 || fits(
                    batches[b].len(),
                    tokens[batches[b].last()] as int,
                )
            } by {
                if b < k {
                    assert(batches[b] == done[b]);
                }
            }
            assert forall|b: int| 0 <= b < batches.len() - 1 implies !fits(
                (#[trigger] batches[b]).len() + 1,
                tokens[batches[b + 1][0]] as int,
            ) by {
                assert(batches[b] == done[b]);
                assert(done[b + 1].len() > 0);
                assert(batches[b + 1][0] == done[b + 1][0]);
            }
        } else {
            let k = done.len() as int;
            assert(batches[k] == seq![x]);
            assert forall|b: int| 0 <= b < batches.len() implies {
                &&& (#[trigger] batches[b]).len() > 0
                &&& batches[b].len() == 1 || fits(
                    batches[b].len(),
                    tokens[batches[b].last()] as int,
                )
            } by {
                if b < k {
                    assert(batches[b] == done[b]);
                }
            }
            assert forall|b: int| 0 <= b < batches.len() - 1 implies !fits(
                (#[trigger] batches[b]).len() + 1,
                tokens[batches[b + 1][0]] as int,
            ) by {
                assert(batches[b] == done[b]);
                if b + 1 < k {
                    assert(batches[b + 1] == done[b + 1]);
                }
            }
        }
    }
}

/// Every text is in exactly one batch: the batches one behind the other list each place
/// once, in ascending order of the lengths.
pub proof fn law_batches_partition(tokens: Seq<u64>, batches: Seq<Seq<int>>)
    requires
        batched(tokens, batches),
    ensures
        ({
            let all = flattened(batches);
            &&& all.len() == tokens.len()
            &&& forall|k: int| 0 <= k < tokens.len() ==> #[trigger] all.contains(k)
            &&& forall|i: int| 0 <= i < all.len() ==> 0 <= #[trigger] all[i] < tokens.len()
            &&& forall|i: int, j: int|
                0 <= i < j < all.len() ==> #[trigger] all[i] != #[trigger] all[j]
                    && tokens[all[i]] <= tokens[all[j]]
        }),
{
    let order = choose|order: Seq<int>| #[trigger]
        ranked(tokens, order, tokens.len() as int) && batches == packed(order, tokens);
    lemma_packed_flat(order, tokens);
    assert forall|i: int, j: int| 0 <= i < j < order.len() implies #[trigger] order[i]
        != #[trigger] order[j] && tokens[order[i]] <= tokens[order[j]] by {
        assert(ranks_before(tokens, order[i], order[j]));
    }
}

/// No batch is empty, and no batch is over the limits unless it holds a single text: it
/// has at most the maximal number of texts, and its size times its longest text is within
/// the token budget.
pub proof fn law_batches_within_limits(tokens: Seq<u64>, batches: Seq<Seq<int>>, b: int)
    requires
        batched(tokens, batches),
        0 <= b < batches.len(),
    ensures
        1 <= batches[b].len() <= MAX_BATCH_SIZE,
        forall|k: int|
            0 <= k < batches[b].len() ==> batches[b].len() == 1 || batches[b].len() * tokens[
                #[trigger] batches[b][k]
            ] <= MAX_BATCH_TOKENS,
{
    let order = choose|order: Seq<int>| #[trigger]
        ranked(tokens, order, tokens.len() as int) && batches == packed(order, tokens);
    lemma_packed_fit(order, tokens);
    lemma_packed_flat(order, tokens);
    let batch = batches[b];
    assert forall|k: int| 0 <= k < batch.len() implies batch.len() == 1 || batch.len() * tokens[
        #[trigger] batch[k]
    ] <= MAX_BATCH_TOKENS by {
        lemma_flattened(batches, b, k);
        lemma_flattened(batches, b, batch.len() - 1);
        let i = flat_place(batches, b, k);
        let j = flat_place(batches, b, batch.len() - 1);
        if k < batch.len() - 1 {
            assert(ranks_before(tokens, order[i], order[j]));
        }
        assert(tokens[batch[k]] <= tokens[batch.last()]);
        assert(batch.len() * tokens[batch[k]] <= batch.len() * tokens[batch.last()])
            by (nonlinear_arith)
            requires
                tokens[batch[k]] <= tokens[batch.last()],
                batch.len() >= 0,
        ;
    }
}

/// Packing is greedy: the first text of a batch would not have fitted into the batch
/// before it.
pub proof fn law_batches_are_full(tokens: Seq<u64>, batches: Seq<Seq<int>>, b: int)
    requires
        batched(tokens, batches),
        0 <= b < batches.len() - 1,
    ensures
        !fits(batches[b].len() + 1, tokens[batches[b + 1][0]] as int),
{
    let order = choose|order: Seq<int>| #[trigger]
        ranked(tokens, order, tokens.len() as int) && batches == packed(order, tokens);
    lemma_packed_fit(order, tokens);
    assert(batches[b].len() > 0);
}

/// No text is in two places.
pub proof fn lemma_batch_places_differ(
    tokens: Seq<u64>,
    batches: Seq<Seq<int>>,
    b: int,
    k: int,
    c: int,
    l: int,
)
    requires
        batched(tokens, batches),
        0 <= b < batches.len(),
        0 <= k < batches[b].len(),
        0 <= c < batches.len(),
        0 <= l < batches[c].len(),
        b != c || k != l,
    ensures
        batches[b][k] != batches[c][l],
{
    law_batches_partition(tokens, batches);
    lemma_flattened(batches, b, k);
    lemma_flattened(batches, c, l);
    if b < c {
        lemma_flat_order(batches, b, c);
    } else if c < b {
        lemma_flat_order(batches, c, b);
    }
    let i = flat_place(batches, b, k);
    let j = flat_place(batches, c, l);
    assert(i != j);
    if i < j {
        assert(flattened(batches)[i] != flattened(batches)[j]);
    } else {
        assert(flattened(batches)[j] != flattened(batches)[i]);
    }
}

/// The places of a list of batches.
proof fn lemma_places(v: Seq<Vec<usize>>, b: int, k: int)
    requires
        0 <= b < v.len(),
    ensures
        batch_places(v).len() == v.len(),
        batch_places(v)[b].len() == v[b]@.len(),
        0 <= k < v[b]@.len() ==> batch_places(v)[b][k] == v[b]@[k],
{
}

/// Every text is in a batch.
pub proof fn law_every_text_is_in_a_batch(tokens: &Vec<u64>, r: Vec<Vec<usize>>, at: int) -> (w: (
    int,
    int,
))
    requires
        call_ensures(pack, (tokens,), r),
        0 <= at < tokens@.len(),
    ensures
        0 <= w.0 < r@.len(),
        0 <= w.1 < r@[w.0]@.len(),
        r@[w.0]@[w.1] == at,
{
    lemma_batch_of(tokens@, r@, at)
}

/// The batch of a text.
pub proof fn lemma_batch_of(tokens: Seq<u64>, v: Seq<Vec<usize>>, at: int) -> (w: (int, int))
    requires
        batched(tokens, batch_places(v)),
        0 <= at < tokens.len(),
    ensures
        0 <= w.0 < v.len(),
        0 <= w.1 < v[w.0]@.len(),
        v[w.0]@[w.1] == at,
{
    let groups = batch_places(v);
    law_batches_partition(tokens, groups);
    assert(flattened(groups).contains(at));
    let i = choose|i: int| 0 <= i < flattened(groups).len() && flattened(groups)[i] == at;
    let (b, k) = lemma_flat_source(groups, i);
    lemma_places(v, b, k);
    (b, k)
}

/// No text is in two places of the batches, and a text at an earlier place is not longer than
/// one at a later place.
pub proof fn law_texts_are_batched_by_length(
    tokens: &Vec<u64>,
    r: Vec<Vec<usize>>,
    b: int,
    k: int,
    c: int,
    l: int,
)
    requires
        call_ensures(pack, (tokens,), r),
        0 <= b <= c < r@.len(),
        0 <= k < r@[b]@.len(),
        0 <= l < r@[c]@.len(),
        b < c || k < l,
    ensures
        r@[b]@[k] < tokens@.len(),
        r@[c]@[l] < tokens@.len(),
        r@[b]@[k] != r@[c]@[l],
        tokens@[r@[b]@[k] as int] <= tokens@[r@[c]@[l] as int],
{
    lemma_batch_order(tokens@, r@, b, k, c, l);
}

/// The order of the texts in the batches.
pub proof fn lemma_batch_order(
    tokens: Seq<u64>,
    v: Seq<Vec<usize>>,
    b: int,
    k: int,
    c: int,
    l: int,
)
    requires
        batched(tokens, batch_places(v)),
        0 <= b <= c < v.len(),
        0 <= k < v[b]@.len(),
        0 <= l < v[c]@.len(),
        b < c || k < l,
    ensures
        v[b]@[k] < tokens.len(),
        v[c]@[l] < tokens.len(),
        v[b]@[k] != v[c]@[l],
        tokens[v[b]@[k] as int] <= tokens[v[c]@[l] as int],
{
    let groups = batch_places(v);
    lemma_places(v, b, k);
    lemma_places(v, c, l);
    law_batches_partition(tokens, groups);
    lemma_flattened(groups, b, k);
    lemma_flattened(groups, c, l);
    if b < c {
        lemma_flat_order(groups, b, c);
    }
    let i = flat_place(groups, b, k);
    let j = flat_place(groups, c, l);
    assert(i < j);
    assert(flattened(groups)[i] != flattened(groups)[j]);
}

/// A batch holds 1 to 32 texts. The number of its texts times its longest text is at most 16384
/// tokens, unless it is a single text. The first text of the next batch would not have fitted.
pub proof fn law_pack_limits(tokens: &Vec<u64>, r: Vec<Vec<usize>>, b: int)
    requires
        call_ensures(pack, (tokens,), r),
        0 <= b < r@.len(),
    ensures
        1 <= r@[b]@.len() <= 32,
        forall|k: int|
            0 <= k < r@[b]@.len() ==> r@[b]@.len() == 1 || r@[b]@.len()
                * tokens@[#[trigger] r@[b]@[k] as int] <= 16384,
        b + 1 < r@.len() ==> r@[b + 1]@.len() > 0 && (r@[b]@.len() + 1 > 32 || (r@[b]@.len() + 1)
            * tokens@[r@[b + 1]@[0] as int] > 16384),
{
    lemma_batch_limits(tokens@, r@, b);
}

/// The limits of a batch.
pub proof fn lemma_batch_limits(tokens: Seq<u64>, v: Seq<Vec<usize>>, b: int)
    requires
        batched(tokens, batch_places(v)),
        0 <= b < v.len(),
    ensures
        1 <= v[b]@.len() <= 32,
        forall|k: int|
            0 <= k < v[b]@.len() ==> v[b]@.len() == 1 || v[b]@.len()
                * tokens[#[trigger] v[b]@[k] as int] <= 16384,
        b + 1 < v.len() ==> v[b + 1]@.len() > 0 && (v[b]@.len() + 1 > 32 || (v[b]@.len() + 1)
            * tokens[v[b + 1]@[0] as int] > 16384),
{
    let groups = batch_places(v);
    lemma_places(v, b, 0);
    law_batches_within_limits(tokens, groups, b);
    assert forall|k: int| 0 <= k < v[b]@.len() implies v[b]@.len() == 1 || v[b]@.len()
        * tokens[#[trigger] v[b]@[k] as int] <= 16384 by {
        lemma_places(v, b, k);
        assert(groups[b][k] == v[b]@[k]);
    }
    if b + 1 < v.len() {
        lemma_places(v, b + 1, 0);
        law_batches_within_limits(tokens, groups, b + 1);
        law_batches_are_full(tokens, groups, b);
    }
}

} // verus!
