//! Chunking: long texts are split at line boundaries.

use crate::lists::{flat_place, flattened, lemma_flattened};
use crate::text::{join, join_strings, texts};
use vstd::prelude::*;

verus! {

/// The tokens that are left for the lines of a chunk: the budget without the tokens of the
/// prefix and the two special tokens.
pub open spec fn room_for(budget: int, prefix_tokens: int) -> int {
    if budget - prefix_tokens > 2 {
        budget - prefix_tokens - 2
    } else {
        0
    }
}

/// What a line costs: its tokens without the two special ones, and one at least.
pub open spec fn line_cost(count: int) -> int {
    if count > 3 {
        count - 2
    } else {
        1
    }
}

/// The costs of lines with the given numbers of tokens.
pub open spec fn line_costs(counts: Seq<int>) -> Seq<int> {
    Seq::new(counts.len(), |i: int| line_cost(counts[i]))
}

/// What a group of lines costs.
pub open spec fn total(group: Seq<int>, costs: Seq<int>) -> int
    decreases group.len(),
{
    if group.len() == 0 {
        0
    } else {
        total(group.drop_last(), costs) + costs[group.last()]
    }
}

/// The first `n` lines in groups: a line joins the group before it if the two fit into the
/// room together, and starts a group of its own otherwise.
pub open spec fn grouped(n: nat, costs: Seq<int>, room: int) -> Seq<Seq<int>>
    decreases n,
{
    if n == 0 {
        seq![]
    } else {
        let done = grouped((n - 1) as nat, costs, room);
        let x = n - 1;
        if done.len() > 0 && total(done.last(), costs) + costs[x] <= room {
            done.drop_last().push(done.last().push(x))
        } else {
            done.push(seq![x])
        }
    }
}

/// The lines of a group, joined again.
pub open spec fn chunk_text(ls: Seq<Seq<char>>, group: Seq<int>) -> Seq<char> {
    join(Seq::new(group.len(), |k: int| ls[group[k]]), "\n"@)
}

/// The chunks of a text with the given lines, whose numbers of tokens are `counts`. There
/// are none if there is no room for lines.
pub open spec fn chunk_texts(ls: Seq<Seq<char>>, counts: Seq<int>, room: int) -> Seq<Seq<char>> {
    if room == 0 {
        seq![]
    } else {
        let groups = grouped(ls.len(), line_costs(counts), room);
        Seq::new(groups.len(), |g: int| chunk_text(ls, groups[g]))
    }
}

/// The values of a list of numbers.
pub open spec fn numbers(v: Seq<usize>) -> Seq<int> {
    Seq::new(v.len(), |i: int| v[i] as int)
}

/// The tokens that are left for the lines of a chunk.
pub fn chunk_room(budget: usize, prefix_tokens: usize) -> (r: usize)
    ensures
        r == room_for(budget as int, prefix_tokens as int),
{
    if budget <= prefix_tokens || budget - prefix_tokens <= 2 {
        0
    } else {
        budget - prefix_tokens - 2
    }
}

/// Splits lines, given with their numbers of tokens, into chunks that fit into the room.
/// A line that is over the room makes a chunk of its own.
pub fn split_chunks(lines: &Vec<String>, counts: &Vec<usize>, room: usize) -> (r: Vec<String>)
    requires
        lines@.len() == counts@.len(),
    ensures
        texts(r@) == chunk_texts(texts(lines@), numbers(counts@), room as int),
{
    let mut done: Vec<String> = Vec::new();
    if room == 0 {
        assert(texts(done@) =~= seq![]);
        return done;
    }
    let ghost ls = texts(lines@);
    let ghost costs = line_costs(numbers(counts@));
    let ghost mut groups: Seq<Seq<int>> = seq![];
    let ghost mut open: Seq<int> = seq![];
    let mut current: Vec<String> = Vec::new();
    let mut tokens: usize = 0;
    let mut i: usize = 0;
    while i < lines.len()
        invariant
            i <= lines@.len() == counts@.len(),
            ls == texts(lines@),
            costs == line_costs(numbers(counts@)),
            room > 0,
            (i == 0) == (open.len() == 0),
            i == 0 ==> groups.len() == 0,
            i > 0 ==> grouped(i as nat, costs, room as int) == groups.push(open),
            tokens == total(open, costs),
            texts(current@) == Seq::new(open.len(), |k: int| ls[open[k]]),
            texts(done@) == Seq::new(groups.len(), |g: int| chunk_text(ls, groups[g])),
        decreases lines@.len() - i,
    {
        let count: usize = counts[i];
        let cost: usize = if count > 3 {
            count - 2
        } else {
            1
        };
        assert(cost == costs[i as int]);
        assert(texts(current@).len() == current@.len());
        let ghost old_groups = groups;
        let ghost old_open = open;
        proof {
            assert(groups.push(open).last() == open);
            assert(groups.push(open).drop_last() =~= groups);
        }
        if current.len() > 0 && (tokens > room || cost > room - tokens) {
            let ghost before = done@;
            done.push(join_strings(&current, "\n"));
            assert(texts(done@) =~= texts(before).push(chunk_text(ls, open)));
            proof {
                groups = groups.push(open);
                open = seq![];
            }
            assert(texts(done@) =~= Seq::new(groups.len(), |g: int| chunk_text(ls, groups[g])));
            current = Vec::new();
            tokens = 0;
        }
        let ghost before = current@;
        let ghost rest = open;
        proof {
            open = open.push(i as int);
            assert(open.drop_last() =~= rest);
            assert(open.last() == i);
        }
        current.push(lines[i].clone());
        assert(texts(current@) =~= texts(before).push(ls[i as int]));
        assert(texts(current@) =~= Seq::new(open.len(), |k: int| ls[open[k]]));
        assert(tokens == total(rest, costs));
        tokens = tokens + cost;
        i = i + 1;
        proof {
            if old_open.len() == 0 {
                assert(grouped(0, costs, room as int) =~= seq![]);
                assert(open =~= seq![0int]);
            } else if rest.len() == 0 {
                assert(open =~= seq![i - 1]);
            }
            assert(grouped(i as nat, costs, room as int) =~= groups.push(open));
        }
    }
    if current.len() > 0 {
        let ghost before = done@;
        done.push(join_strings(&current, "\n"));
        assert(texts(done@) =~= texts(before).push(chunk_text(ls, open)));
        assert(texts(current@).len() == current@.len());
        assert(texts(done@) =~= chunk_texts(ls, numbers(counts@), room as int));
    } else {
        assert(texts(current@).len() == current@.len());
        assert(texts(done@) =~= chunk_texts(ls, numbers(counts@), room as int));
    }
    done
}

// ---------------------------------------------------------------------------
// Laws
// ---------------------------------------------------------------------------

/// No line is lost, repeated or moved: the groups one behind the other list every line in
/// order.
pub proof fn law_chunks_keep_every_line(n: nat, costs: Seq<int>, room: int)
    ensures
        flattened(grouped(n, costs, room)) == Seq::new(n, |i: int| i),
    decreases n,
{
    if n == 0 {
        assert(flattened(grouped(n, costs, room)) =~= Seq::new(n, |i: int| i));
    } else {
        let done = grouped((n - 1) as nat, costs, room);
        let x = n - 1;
        law_chunks_keep_every_line((n - 1) as nat, costs, room);
        if done.len() > 0 && total(done.last(), costs) + costs[x] <= room {
            let next = done.drop_last().push(done.last().push(x));
            assert(next.drop_last() =~= done.drop_last());
            assert(flattened(next) =~= flattened(done).push(x));
        } else {
            let next = done.push(seq![x]);
            assert(next.drop_last() =~= done);
            assert(flattened(next) =~= flattened(done).push(x));
        }
        assert(flattened(grouped(n, costs, room)) =~= Seq::new(n, |i: int| i));
    }
}

/// The chunks joined line by line are the lines joined: no text is lost, whatever the
/// numbers of tokens are.
pub proof fn law_chunks_make_up_the_text(ls: Seq<Seq<char>>, counts: Seq<int>, room: int)
    requires
        room > 0,
    ensures
        join(chunk_texts(ls, counts, room), "\n"@) == join(ls, "\n"@),
{
    lemma_join_chunks(ls, ls.len(), line_costs(counts), room);
    assert(ls.take(ls.len() as int) =~= ls);
    assert(chunk_texts(ls, counts, room) =~= group_texts(
        ls,
        grouped(ls.len(), line_costs(counts), room),
    ));
}

/// The texts of groups of lines.
spec fn group_texts(ls: Seq<Seq<char>>, groups: Seq<Seq<int>>) -> Seq<Seq<char>> {
    Seq::new(groups.len(), |g: int| chunk_text(ls, groups[g]))
}

proof fn lemma_join_chunks(ls: Seq<Seq<char>>, n: nat, costs: Seq<int>, room: int)
    requires
        n <= ls.len(),
    ensures
        join(group_texts(ls, grouped(n, costs, room)), "\n"@) == join(ls.take(n as int), "\n"@),
    decreases n,
{
    let sep = "\n"@;
    let after = grouped(n, costs, room);
    if n == 0 {
        assert(group_texts(ls, after) =~= seq![]);
        assert(ls.take(0) =~= seq![]);
    } else {
        let m = (n - 1) as nat;
        let x = n - 1;
        let done = grouped(m, costs, room);
        let parts = group_texts(ls, done);
        let front = ls.take(x);
        lemma_join_chunks(ls, m, costs, room);
        assert(ls.take(n as int).drop_last() =~= front);
        assert(ls.take(n as int).last() == ls[x]);
        if n == 1 {
            assert(ls.take(1) =~= seq![ls[0]]);
        }
        if done.len() > 0 && total(done.last(), costs) + costs[x] <= room {
            let k = done.len() - 1;
            let g = done.last();
            law_chunks_within_room(m, costs, room, k);
            let own = Seq::new(g.len(), |i: int| ls[g[i]]);
            let longer = Seq::new(g.push(x).len(), |i: int| ls[g.push(x)[i]]);
            assert(longer.drop_last() =~= own);
            assert(chunk_text(ls, g.push(x)) == chunk_text(ls, g) + sep + ls[x]);
            let next = group_texts(ls, after);
            assert(next.drop_last() =~= parts.drop_last());
            assert(next.last() == chunk_text(ls, g.push(x)));
            assert(parts.last() == chunk_text(ls, g));
            assert(m > 0);
            assert(join(next, sep) =~= join(parts, sep) + sep + ls[x]);
        } else {
            let next = group_texts(ls, after);
            let alone = Seq::new(1, |i: int| ls[seq![x][i]]);
            assert(alone =~= seq![ls[x]]);
            assert(chunk_text(ls, seq![x]) == ls[x]);
            assert(next =~= parts.push(ls[x]));
            assert(next.drop_last() =~= parts);
            if done.len() == 0 {
                assert(m == 0);
            } else {
                assert(m > 0);
                assert(join(next, sep) == join(parts, sep) + sep + ls[x]);
            }
        }
    }
}

/// No chunk is empty, and every chunk fits into the room unless it is a single line.
pub proof fn law_chunks_within_room(n: nat, costs: Seq<int>, room: int, g: int)
    requires
        0 <= g < grouped(n, costs, room).len(),
    ensures
        grouped(n, costs, room)[g].len() >= 1,
        grouped(n, costs, room)[g].len() == 1 || total(grouped(n, costs, room)[g], costs) <= room,
    decreases n,
{
    if n > 0 {
        let done = grouped((n - 1) as nat, costs, room);
        let x = n - 1;
        if done.len() > 0 && total(done.last(), costs) + costs[x] <= room {
            let next = done.last().push(x);
            assert(next.drop_last() =~= done.last());
            law_chunks_within_room((n - 1) as nat, costs, room, g);
        } else if g < done.len() {
            law_chunks_within_room((n - 1) as nat, costs, room, g);
        }
    }
}

/// Chunks are full: the first line of a chunk would not have fitted into the chunk before it.
pub proof fn law_chunks_are_full(n: nat, costs: Seq<int>, room: int, g: int)
    requires
        0 <= g < grouped(n, costs, room).len() - 1,
    ensures
        total(grouped(n, costs, room)[g], costs) + costs[grouped(n, costs, room)[g + 1][0]] > room,
    decreases n,
{
    if n > 0 {
        let done = grouped((n - 1) as nat, costs, room);
        let x = n - 1;
        if done.len() > 0 && total(done.last(), costs) + costs[x] <= room {
            law_chunks_within_room((n - 1) as nat, costs, room, g + 1);
            law_chunks_are_full((n - 1) as nat, costs, room, g);
        } else if g < done.len() - 1 {
            law_chunks_are_full((n - 1) as nat, costs, room, g);
        }
    }
}

/// What the lines `from..to` cost together: of each the number of its tokens without the two
/// special ones, and one at least.
pub open spec fn cost_between(counts: Seq<int>, from: int, to: int) -> int
    decreases to - from,
{
    if to <= from {
        0
    } else {
        cost_between(counts, from, to - 1) + if counts[to - 1] - 2 >= 1 {
            counts[to - 1] - 2
        } else {
            1
        }
    }
}

/// Chunks are runs of lines, one behind the other, from the first line to the last: chunk `g`
/// is the lines `cuts[g]..cuts[g + 1]` with line feeds between them. A chunk of more than one
/// line is not over the room, and with the next line it would be.
pub proof fn law_chunks_are_runs_of_lines(ls: Seq<Seq<char>>, counts: Seq<int>, room: int) -> (cuts:
    Seq<int>)
    requires
        room > 0,
        counts.len() == ls.len(),
    ensures
        cuts.len() == chunk_texts(ls, counts, room).len() + 1,
        cuts[0] == 0,
        cuts[cuts.len() - 1] == ls.len(),
        forall|g: int|
            0 <= g < cuts.len() - 1 ==> {
                &&& 0 <= #[trigger] cuts[g] < cuts[g + 1] <= ls.len()
                &&& chunk_texts(ls, counts, room)[g] == join(
                    ls.subrange(cuts[g], cuts[g + 1]),
                    "\n"@,
                )
                &&& cuts[g + 1] == cuts[g] + 1 || cost_between(counts, cuts[g], cuts[g + 1])
                    <= room
                &&& cuts[g + 1] < ls.len() ==> cost_between(counts, cuts[g], cuts[g + 1] + 1)
                    > room
            },
{
    let costs = line_costs(counts);
    let n = ls.len();
    let groups = grouped(n, costs, room);
    law_chunks_keep_every_line(n, costs, room);
    let cuts = Seq::new(groups.len() + 1, |g: int| flat_place(groups, g, 0));
    assert(groups.take(0) =~= seq![]);
    assert(groups.take(groups.len() as int) =~= groups);
    assert forall|g: int| 0 <= g < groups.len() implies {
        &&& 0 <= #[trigger] cuts[g] < cuts[g + 1] <= n
        &&& chunk_texts(ls, counts, room)[g] == join(ls.subrange(cuts[g], cuts[g + 1]), "\n"@)
        &&& cuts[g + 1] == cuts[g] + 1 || cost_between(counts, cuts[g], cuts[g + 1]) <= room
        &&& cuts[g + 1] < n ==> cost_between(counts, cuts[g], cuts[g + 1] + 1) > room
    } by {
        let from = cuts[g];
        let group = groups[g];
        assert(groups.take(g + 1).drop_last() =~= groups.take(g));
        assert(groups.take(g + 1).last() == group);
        assert(cuts[g + 1] == from + group.len());
        law_chunks_within_room(n, costs, room, g);
        assert forall|k: int| 0 <= k < group.len() implies #[trigger] group[k] == from + k by {
            lemma_flattened(groups, g, k);
        }
        lemma_flattened(groups, g, group.len() - 1);
        assert(Seq::new(group.len(), |k: int| ls[group[k]]) =~= ls.subrange(from, cuts[g + 1]));
        lemma_total_is_cost(group, counts, from);
        if cuts[g + 1] < n {
            if g + 1 == groups.len() {
                assert(groups.take(g + 1) =~= groups);
                assert(false);
            }
            law_chunks_within_room(n, costs, room, g + 1);
            lemma_flattened(groups, g + 1, 0);
            law_chunks_are_full(n, costs, room, g);
            assert(groups[g + 1][0] == cuts[g + 1]);
        }
    }
    cuts
}

/// The cost of a group of consecutive lines.
proof fn lemma_total_is_cost(group: Seq<int>, counts: Seq<int>, from: int)
    requires
        0 <= from <= from + group.len() <= counts.len(),
        forall|k: int| 0 <= k < group.len() ==> #[trigger] group[k] == from + k,
    ensures
        total(group, line_costs(counts)) == cost_between(counts, from, from + group.len()),
    decreases group.len(),
{
    if group.len() > 0 {
        let front = group.drop_last();
        assert forall|k: int| 0 <= k < front.len() implies #[trigger] front[k] == from + k by {
            assert(front[k] == group[k]);
        }
        lemma_total_is_cost(front, counts, from);
        assert(group.last() == from + group.len() - 1);
    }
}

/// The chunks that [`split_chunks`] gives: there are none where there is no room. Otherwise
/// they are runs of lines with line feeds between them, one behind the other, from the first
/// line to the last. A chunk of more than one line is not over the room, and with the next
/// line it would be.
pub proof fn law_split_chunks(
    lines: &Vec<String>,
    counts: &Vec<usize>,
    room: usize,
    r: Vec<String>,
) -> (cuts: Seq<int>)
    requires
        lines@.len() == counts@.len(),
        call_ensures(split_chunks, (lines, counts, room), r),
    ensures
        room == 0 ==> r@.len() == 0,
        room > 0 ==> {
            let ls = Seq::new(lines@.len(), |i: int| lines@[i]@);
            let cs = Seq::new(counts@.len(), |i: int| counts@[i] as int);
            &&& cuts.len() == r@.len() + 1
            &&& cuts[0] == 0
            &&& cuts[cuts.len() - 1] == ls.len()
            &&& forall|g: int|
                0 <= g < r@.len() ==> {
                    &&& 0 <= #[trigger] cuts[g] < cuts[g + 1] <= ls.len()
                    &&& r@[g]@ == join(ls.subrange(cuts[g], cuts[g + 1]), "\n"@)
                    &&& cuts[g + 1] == cuts[g] + 1 || cost_between(cs, cuts[g], cuts[g + 1])
                        <= room
                    &&& cuts[g + 1] < ls.len() ==> cost_between(cs, cuts[g], cuts[g + 1] + 1)
                        > room
                }
        },
{
    let ls = Seq::new(lines@.len(), |i: int| lines@[i]@);
    let cs = Seq::new(counts@.len(), |i: int| counts@[i] as int);
    assert(texts(lines@) =~= ls);
    assert(numbers(counts@) =~= cs);
    assert(texts(r@).len() == r@.len());
    if room > 0 {
        let cuts = law_chunks_are_runs_of_lines(ls, cs, room as int);
        assert(forall|g: int| 0 <= g < r@.len() ==> #[trigger] texts(r@)[g] == r@[g]@);
        assert forall|g: int| 0 <= g < r@.len() implies {
            &&& 0 <= #[trigger] cuts[g] < cuts[g + 1] <= ls.len()
            &&& r@[g]@ == join(ls.subrange(cuts[g], cuts[g + 1]), "\n"@)
            &&& cuts[g + 1] == cuts[g] + 1 || cost_between(cs, cuts[g], cuts[g + 1]) <= room
            &&& cuts[g + 1] < ls.len() ==> cost_between(cs, cuts[g], cuts[g + 1] + 1) > room
        } by {
            assert(texts(r@)[g] == r@[g]@);
        }
        cuts
    } else {
        seq![]
    }
}

} // verus!
