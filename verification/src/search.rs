//! Search: which indexed files are closest to a query or to another file.
//!
//! A score is held as the bit pattern of an IEEE 754 single, as are the components of a
//! vector. The similarity of two vectors is a function that the caller hands in.

use crate::git::{blob_sha_to_paths, blobs, groups, paths_of, Blob, TreeEntry};
use crate::index::EmbedIndex;
use crate::order::{
    law_ranking_is_unique, lemma_ranking_take, places, rank, ranked, ranks_before,
};
use crate::sha_map::{lemma_filter_contains, listed, lookup, place_of, ShaMap};
use crate::text::{concat, has_prefix, same_text};
use vstd::prelude::*;

verus! {

// ---------------------------------------------------------------------------
// Types
// ---------------------------------------------------------------------------

/// One hit of a search.
#[derive(Debug)]
pub struct SearchResult {
    /// The similarity, as the bits of an IEEE 754 single.
    pub score: u32,
    pub path: String,
    pub blob_sha: String,
}

/// What a hit holds.
pub struct Hit {
    pub score: u32,
    pub path: Seq<char>,
    pub sha: Seq<char>,
}

impl View for SearchResult {
    type V = Hit;

    open spec fn view(&self) -> Hit {
        Hit { score: self.score, path: self.path@, sha: self.blob_sha@ }
    }
}

/// The hits of a list of results.
pub open spec fn hits(v: Seq<SearchResult>) -> Seq<Hit> {
    Seq::new(v.len(), |i: int| v[i]@)
}

/// How to search.
pub struct SearchOpts {
    /// How many components of the vectors to compare.
    pub dims: usize,
    /// How many results to give at most.
    pub top: usize,
    /// The prefix that the path of a result must have.
    pub path: Option<String>,
}

impl Default for SearchOpts {
    fn default() -> (r: Self)
        ensures
            r.dims == 768,
            r.top == 10,
            r.path is None,
    {
        SearchOpts { dims: 768, top: 10, path: None }
    }
}

// ---------------------------------------------------------------------------
// Scores
// ---------------------------------------------------------------------------

/// Are these the bits of a NaN?
pub open spec fn is_nan(bits: u32) -> bool {
    bits % 0x8000_0000 > 0x7f80_0000
}

/// A number that orders the bit patterns of IEEE 754 singles as the values they stand for:
/// the magnitude bits with the sign of the value. The two zeros are equal, and a NaN comes
/// below every value.
pub open spec fn score_order(bits: u32) -> int {
    if is_nan(bits) {
        -0x8000_0000
    } else if bits >= 0x8000_0000 {
        -(bits - 0x8000_0000)
    } else {
        bits as int
    }
}

/// The key by which a score is ranked: the higher the score, the smaller the key.
pub open spec fn score_key(bits: u32) -> u64 {
    (0x8000_0000 - score_order(bits)) as u64
}

fn key_of_score(bits: u32) -> (r: u64)
    ensures
        r == score_key(bits),
{
    let magnitude: u32 = bits % 0x8000_0000;
    if magnitude > 0x7f80_0000 {
        0x1_0000_0000
    } else if bits >= 0x8000_0000 {
        0x8000_0000 + (magnitude as u64)
    } else {
        0x8000_0000 - (magnitude as u64)
    }
}

// ---------------------------------------------------------------------------
// Selecting the best
// ---------------------------------------------------------------------------

/// The ranking keys of the candidates.
pub open spec fn score_keys(candidates: Seq<Hit>) -> Seq<u64> {
    Seq::new(candidates.len(), |i: int| score_key(candidates[i].score))
}

/// The candidates at the given places.
pub open spec fn selected(candidates: Seq<Hit>, picks: Seq<int>) -> Seq<Hit> {
    Seq::new(picks.len(), |i: int| candidates[picks[i]])
}

/// Is `best` the list of the `top` candidates with the highest scores, in descending order
/// of the scores, candidates of one score in the order in which they came?
pub open spec fn best_of(candidates: Seq<Hit>, best: Seq<Hit>, top: int) -> bool {
    exists|picks: Seq<int>| #[trigger]
        ranked(score_keys(candidates), picks, top) && best == selected(candidates, picks)
}

/// The candidates of a list of scored paths, each given as score, object name and path.
pub open spec fn candidate_hits(scored: Seq<(u32, &str, &str)>) -> Seq<Hit> {
    Seq::new(scored.len(), |i: int| Hit { score: scored[i].0, path: scored[i].2@, sha: scored[i].1@ })
}

/// Select the top-k results from scored candidates, each given as score, object name and
/// path.
///
/// Only materializes owned [`SearchResult`]s for the final winners.
pub fn top_k_results<'a>(scored: Vec<(u32, &'a str, &'a str)>, top: usize) -> (r: Vec<
    SearchResult,
>)
    ensures
        best_of(candidate_hits(scored@), hits(r@), top as int),
{
    let mut keys: Vec<u64> = Vec::new();
    let mut i: usize = 0;
    while i < scored.len()
        invariant
            i <= scored@.len(),
            keys@.len() == i,
            forall|j: int| 0 <= j < i ==> #[trigger] keys@[j] == score_key(scored@[j].0),
        decreases scored@.len() - i,
    {
        keys.push(key_of_score(scored[i].0));
        i = i + 1;
    }
    assert(keys@ =~= score_keys(candidate_hits(scored@)));
    let picks: Vec<usize> = rank(&keys, top);
    assert forall|j: int| 0 <= j < picks@.len() implies (#[trigger] picks@[j]) < scored@.len() by {
        assert(places(picks@)[j] == picks@[j]);
    }
    let mut r: Vec<SearchResult> = Vec::new();
    let mut k: usize = 0;
    let ghost winners = selected(candidate_hits(scored@), places(picks@));
    while k < picks.len()
        invariant
            k <= picks@.len(),
            winners == selected(candidate_hits(scored@), places(picks@)),
            forall|j: int| 0 <= j < picks@.len() ==> (#[trigger] picks@[j]) < scored@.len(),
            hits(r@) == winners.take(k as int),
        decreases picks@.len() - k,
    {
        let (score, sha, path): (u32, &str, &str) = scored[picks[k]];
        let ghost before = r@;
        r.push(SearchResult { score: score, path: path.to_string(), blob_sha: sha.to_string() });
        k = k + 1;
        assert(hits(r@) =~= hits(before).push(winners[k - 1]));
        assert(hits(r@) =~= winners.take(k as int));
    }
    assert(hits(r@) =~= winners);
    r
}

/// The best candidates are at most `top`, and all of them if there are no more; their
/// scores descend; and no candidate that was left out has a higher score than one that
/// was taken.
pub proof fn law_best_results(candidates: Seq<Hit>, best: Seq<Hit>, top: int)
    requires
        best_of(candidates, best, top),
        0 <= top,
    ensures
        best.len() == (if top < candidates.len() {
            top
        } else {
            candidates.len() as int
        }),
        forall|i: int| 0 <= i < best.len() ==> candidates.contains(#[trigger] best[i]),
        forall|i: int, j: int|
            0 <= i < j < best.len() ==> score_order((#[trigger] best[i]).score) >= score_order(
                (#[trigger] best[j]).score,
            ),
        forall|c: Hit, i: int|
            #![trigger candidates.contains(c), best[i]]
            candidates.contains(c) && !best.contains(c) && 0 <= i < best.len() ==> score_order(
                best[i].score,
            ) >= score_order(c.score),
{
    let keys = score_keys(candidates);
    let picks = choose|picks: Seq<int>| #[trigger]
        ranked(keys, picks, top) && best == selected(candidates, picks);
    assert forall|i: int| 0 <= i < best.len() implies candidates.contains(#[trigger] best[i]) by {
        assert(best[i] == candidates[picks[i]]);
    }
    assert forall|i: int, j: int| 0 <= i < j < best.len() implies score_order(
        (#[trigger] best[i]).score,
    ) >= score_order((#[trigger] best[j]).score) by {
        assert(ranks_before(keys, picks[i], picks[j]));
    }
    assert forall|c: Hit, i: int|
        #![trigger candidates.contains(c), best[i]]
        candidates.contains(c) && !best.contains(c) && 0 <= i < best.len() implies score_order(
        best[i].score,
    ) >= score_order(c.score) by {
        let k = choose|k: int| 0 <= k < candidates.len() && candidates[k] == c;
        if picks.contains(k) {
            let q = choose|q: int| 0 <= q < picks.len() && picks[q] == k;
            assert(best[q] == c);
        }
        assert(keys[k] == score_key(c.score));
        assert(ranks_before(keys, picks[i], k));
    }
}

/// What is best is determined: two lists that are both the best of the same candidates are
/// the same.
pub proof fn law_best_results_unique(candidates: Seq<Hit>, a: Seq<Hit>, b: Seq<Hit>, top: int)
    requires
        best_of(candidates, a, top),
        best_of(candidates, b, top),
    ensures
        a == b,
{
    let keys = score_keys(candidates);
    let p = choose|p: Seq<int>| #[trigger] ranked(keys, p, top) && a == selected(candidates, p);
    let q = choose|q: Seq<int>| #[trigger] ranked(keys, q, top) && b == selected(candidates, q);
    law_ranking_is_unique(keys, p, q, top);
}

// ---------------------------------------------------------------------------
// Candidates
// ---------------------------------------------------------------------------

/// Does the path have the prefix that is asked for?
pub open spec fn wanted(path: Seq<char>, prefix: Option<Seq<char>>) -> bool {
    match prefix {
        Some(p) => p.is_prefix_of(path),
        None => true,
    }
}

/// The candidates of one embedding: one for each path at which its blob stands in the tree
/// and that is wanted.
pub open spec fn candidates_of(
    sha: Seq<char>,
    score: u32,
    tree: Seq<Blob>,
    prefix: Option<Seq<char>>,
) -> Seq<Hit> {
    paths_of(tree, sha).filter(|p: Seq<char>| wanted(p, prefix)).map_values(
        |p: Seq<char>| Hit { score: score, path: p, sha: sha },
    )
}

/// The candidates of all embeddings but the one of `except`, in the order of the index.
pub open spec fn candidates(
    entries: Seq<(Seq<char>, Seq<u32>)>,
    scores: Seq<u32>,
    tree: Seq<Blob>,
    prefix: Option<Seq<char>>,
    except: Option<Seq<char>>,
) -> Seq<Hit>
    decreases entries.len(),
{
    if entries.len() == 0 {
        seq![]
    } else {
        let rest = candidates(entries.drop_last(), scores, tree, prefix, except);
        let sha = entries.last().0;
        if except == Some(sha) {
            rest
        } else {
            rest + candidates_of(sha, scores[entries.len() - 1], tree, prefix)
        }
    }
}

/// The candidates of one embedding are the wanted paths at which its blob stands.
proof fn lemma_candidates_of(
    sha: Seq<char>,
    score: u32,
    tree: Seq<Blob>,
    prefix: Option<Seq<char>>,
    h: Hit,
)
    ensures
        candidates_of(sha, score, tree, prefix).contains(h) <==> {
            &&& h.sha == sha
            &&& h.score == score
            &&& tree.contains(Blob { path: h.path, sha: h.sha })
            &&& wanted(h.path, prefix)
        },
{
    let b = Blob { path: h.path, sha: sha };
    let same = |x: Blob| x.sha == sha;
    let ok = |p: Seq<char>| wanted(p, prefix);
    let blobs_here = tree.filter(same);
    let paths = paths_of(tree, sha);
    let kept = paths.filter(ok);
    let all = candidates_of(sha, score, tree, prefix);
    lemma_filter_contains(tree, same, b);
    lemma_filter_contains(paths, ok, h.path);
    if all.contains(h) {
        let i = choose|i: int| 0 <= i < all.len() && all[i] == h;
        assert(kept[i] == h.path);
        assert(paths.contains(h.path));
        let k = choose|k: int| 0 <= k < paths.len() && paths[k] == h.path;
        assert(blobs_here.contains(blobs_here[k]));
        lemma_filter_contains(tree, same, blobs_here[k]);
        assert(blobs_here[k] == b);
    }
    if h.sha == sha && h.score == score && tree.contains(b) && wanted(h.path, prefix) {
        let k = choose|k: int| 0 <= k < blobs_here.len() && blobs_here[k] == b;
        assert(paths[k] == h.path);
        let i = choose|i: int| 0 <= i < kept.len() && kept[i] == h.path;
        assert(all[i] == h);
    }
}

/// A candidate is a file of the tree, at a wanted path, whose blob has an embedding other
/// than the excluded one, with the score of that embedding; and every such file is a
/// candidate. So an embedding whose blob has left the tree gives no result, and a file is
/// not similar to itself.
pub proof fn law_candidates(
    entries: Seq<(Seq<char>, Seq<u32>)>,
    scores: Seq<u32>,
    tree: Seq<Blob>,
    prefix: Option<Seq<char>>,
    except: Option<Seq<char>>,
    h: Hit,
)
    requires
        entries.len() <= scores.len(),
    ensures
        candidates(entries, scores, tree, prefix, except).contains(h) <==> {
            &&& exists|i: int|
                0 <= i < entries.len() && (#[trigger] entries[i]).0 == h.sha && scores[i] == h.score
            &&& tree.contains(Blob { path: h.path, sha: h.sha })
            &&& prefix matches Some(p) ==> p.len() <= h.path.len() && h.path.take(p.len() as int)
                == p
            &&& except != Some(h.sha)
        },
    decreases entries.len(),
{
    assert(wanted(h.path, prefix) <==> (prefix matches Some(p) ==> p.len() <= h.path.len()
        && h.path.take(p.len() as int) == p)) by {
        match prefix {
            Some(p) => {
                if p.is_prefix_of(h.path) {
                    assert(h.path.take(p.len() as int) =~= p);
                }
                if p.len() <= h.path.len() && h.path.take(p.len() as int) == p {
                    assert(p =~= h.path.subrange(0, p.len() as int));
                }
            },
            None => {},
        }
    }
    if entries.len() > 0 {
        let n = entries.len() - 1;
        let front = entries.drop_last();
        let sha = entries.last().0;
        let rest = candidates(front, scores, tree, prefix, except);
        let own = candidates_of(sha, scores[n], tree, prefix);
        let all = candidates(entries, scores, tree, prefix, except);
        law_candidates(front, scores, tree, prefix, except, h);
        lemma_candidates_of(sha, scores[n], tree, prefix, h);
        assert(all.contains(h) <==> rest.contains(h) || (except != Some(sha) && own.contains(h)))
            by {
            if rest.contains(h) {
                let i = choose|i: int| 0 <= i < rest.len() && rest[i] == h;
                assert(all[i] == h);
            }
            if except != Some(sha) && own.contains(h) {
                let i = choose|i: int| 0 <= i < own.len() && own[i] == h;
                assert(all[rest.len() + i] == h);
            }
            if all.contains(h) {
                let i = choose|i: int| 0 <= i < all.len() && all[i] == h;
                if i < rest.len() {
                    assert(rest[i] == h);
                } else {
                    assert(own[i - rest.len()] == h);
                }
            }
        }
        assert forall|i: int| 0 <= i < front.len() implies front[i] == #[trigger] entries[i] by {}
        if exists|i: int|
            0 <= i < entries.len() && (#[trigger] entries[i]).0 == h.sha && scores[i] == h.score {
            let i = choose|i: int|
                0 <= i < entries.len() && (#[trigger] entries[i]).0 == h.sha && scores[i]
                    == h.score;
            if i < n {
                assert(front[i].0 == h.sha);
            }
        }
        assert(entries[n].0 == sha);
    }
}

/// The path prefix that the options ask for.
pub open spec fn prefix_of(opts: SearchOpts) -> Option<Seq<char>> {
    match opts.path {
        Some(p) => Some(p@),
        None => None,
    }
}

/// Can the similarity of `query` to a vector be `score`, over `dims` components?
pub open spec fn similarity_is<F: Fn(&Vec<u32>, &Vec<u32>, usize) -> u32>(
    similarity: F,
    query: &Vec<u32>,
    dims: usize,
    vector: Seq<u32>,
    score: u32,
) -> bool {
    exists|v: Vec<u32>|
        v@ == vector && #[trigger] call_ensures(similarity, (query, &v, dims), score)
}

/// Are the scores the similarities of `query` to the embeddings, over `dims` components?
pub open spec fn scored_by<F: Fn(&Vec<u32>, &Vec<u32>, usize) -> u32>(
    similarity: F,
    query: &Vec<u32>,
    dims: usize,
    entries: Seq<(Seq<char>, Seq<u32>)>,
    scores: Seq<u32>,
) -> bool {
    &&& scores.len() == entries.len()
    &&& forall|i: int|
        0 <= i < entries.len() ==> similarity_is(
            similarity,
            query,
            dims,
            (#[trigger] entries[i]).1,
            scores[i],
        )
}

/// Scores every embedding of the index against `query`.
fn score_all<F: Fn(&Vec<u32>, &Vec<u32>, usize) -> u32>(
    similarity: &F,
    query: &Vec<u32>,
    dims: usize,
    index: &EmbedIndex,
) -> (r: Vec<u32>)
    requires
        forall|v: Vec<u32>| #[trigger] call_requires(*similarity, (query, &v, dims)),
    ensures
        scored_by(*similarity, query, dims, index@.entries, r@),
{
    let n: usize = index.embeddings.len();
    let mut r: Vec<u32> = Vec::new();
    let mut i: usize = 0;
    while i < n
        invariant
            i <= n == index@.entries.len(),
            r@.len() == i,
            forall|v: Vec<u32>| #[trigger] call_requires(*similarity, (query, &v, dims)),
            forall|k: int|
                0 <= k < i ==> similarity_is(
                    *similarity,
                    query,
                    dims,
                    (#[trigger] index@.entries[k]).1,
                    r@[k],
                ),
        decreases n - i,
    {
        let v: &Vec<u32> = index.embeddings.value_at(i);
        let score: u32 = similarity(query, v, dims);
        assert(v@ =~= index@.entries[i as int].1);
        assert(similarity_is(*similarity, query, dims, index@.entries[i as int].1, score));
        r.push(score);
        i = i + 1;
    }
    r
}

/// The best of the candidates that the scored index has in the tree, but for the
/// embedding of `except`.
pub fn search_scored(
    entries: &Vec<TreeEntry>,
    index: &EmbedIndex,
    scores: &Vec<u32>,
    except: Option<&str>,
    opts: &SearchOpts,
) -> (r: Vec<SearchResult>)
    requires
        scores@.len() == index@.entries.len(),
    ensures
        best_of(
            candidates(
                index@.entries,
                scores@,
                blobs(entries@),
                prefix_of(*opts),
                match except {
                    Some(e) => Some(e@),
                    None => None,
                },
            ),
            hits(r@),
            opts.top as int,
        ),
{
    let ghost tree = blobs(entries@);
    let ghost prefix = prefix_of(*opts);
    let ghost skipped = match except {
        Some(e) => Some(e@),
        None => None,
    };
    let sha_paths: ShaMap<Vec<String>> = blob_sha_to_paths(entries);
    let n: usize = index.embeddings.len();
    let mut scored: Vec<(u32, &str, &str)> = Vec::new();
    let mut i: usize = 0;
    while i < n
        invariant
            i <= n == index@.entries.len() == scores@.len(),
            groups(sha_paths@, tree),
            prefix == prefix_of(*opts),
            skipped == (match except {
                Some(e) => Some(e@),
                None => None,
            }),
            candidate_hits(scored@) == candidates(
                index@.entries.take(i as int),
                scores@,
                tree,
                prefix,
                skipped,
            ),
        decreases n - i,
    {
        let ghost all = index@.entries;
        assert(all.take(i + 1).drop_last() =~= all.take(i as int));
        let sha: &str = index.embeddings.key_at(i);
        let score: u32 = scores[i];
        let skip: bool = match except {
            Some(e) => same_text(e, sha),
            None => false,
        };
        let ghost before = candidate_hits(scored@);
        if !skip {
            assert(listed(sha_paths@, sha@) == paths_of(tree, sha@));
            match sha_paths.get(sha) {
                Some(paths) => {
                    let mut k: usize = 0;
                    let ghost found = paths_of(tree, sha@);
                    let ghost pred = |p: Seq<char>| wanted(p, prefix);
                    proof {
                        reveal(Seq::filter);
                        assert(paths.deep_view() =~= found);
                        assert(candidate_hits(scored@) =~= before + found.take(0).filter(
                            pred,
                        ).map_values(|p: Seq<char>| Hit { score: score, path: p, sha: sha@ }));
                    }
                    while k < paths.len()
                        invariant
                            k <= paths@.len(),
                            paths@.len() == found.len(),
                            paths.deep_view() == found,
                            pred == (|p: Seq<char>| wanted(p, prefix)),
                            prefix == prefix_of(*opts),
                            candidate_hits(scored@) == before + found.take(k as int).filter(
                                pred,
                            ).map_values(|p: Seq<char>| Hit { score: score, path: p, sha: sha@ }),
                        decreases paths@.len() - k,
                    {
                        let path: &str = paths[k].as_str();
                        let ok: bool = match &opts.path {
                            Some(p) => has_prefix(path, p.as_str()),
                            None => true,
                        };
                        let ghost so_far = scored@;
                        proof {
                            reveal(Seq::filter);
                            assert(found.take(k + 1).drop_last() =~= found.take(k as int));
                            assert(found[k as int] == paths.deep_view()[k as int]);
                            assert(path@ == found[k as int]);
                        }
                        if ok {
                            scored.push((score, sha, path));
                            assert(candidate_hits(scored@) =~= candidate_hits(so_far).push(
                                Hit { score: score, path: path@, sha: sha@ },
                            ));
                        }
                        k = k + 1;
                        assert(candidate_hits(scored@) =~= before + found.take(k as int).filter(
                            pred,
                        ).map_values(|p: Seq<char>| Hit { score: score, path: p, sha: sha@ }));
                    }
                    assert(found.take(k as int) =~= found);
                },
                None => {
                    proof {
                        reveal(Seq::filter);
                        assert(candidates_of(sha@, score, tree, prefix) =~= seq![]);
                        assert(before + Seq::<Hit>::empty() =~= before);
                    }
                },
            }
        }
        i = i + 1;
    }
    assert(index@.entries.take(i as int) =~= index@.entries);
    top_k_results(scored, opts.top)
}

// ---------------------------------------------------------------------------
// Search
// ---------------------------------------------------------------------------

/// Search the index for vectors most similar to `query_vec`.
///
/// Returns up to `opts.top` results in descending order of their similarity. If `opts.path`
/// is set, only results whose path starts with that prefix are listed.
pub fn search<F: Fn(&Vec<u32>, &Vec<u32>, usize) -> u32>(
    entries: &Vec<TreeEntry>,
    index: &EmbedIndex,
    query_vec: &Vec<u32>,
    opts: &SearchOpts,
    similarity: F,
) -> (r: Vec<SearchResult>)
    requires
        forall|v: Vec<u32>| #[trigger] call_requires(similarity, (query_vec, &v, opts.dims)),
    ensures
        exists|scores: Seq<u32>| #[trigger]
            scored_by(similarity, query_vec, opts.dims, index@.entries, scores) && best_of(
                candidates(index@.entries, scores, blobs(entries@), prefix_of(*opts), None),
                hits(r@),
                opts.top as int,
            ),
{
    let scores: Vec<u32> = score_all(&similarity, query_vec, opts.dims, index);
    search_scored(entries, index, &scores, None, opts)
}

/// Why no similar files can be named.
#[derive(Debug)]
pub enum SimilarError {
    /// The tree has no file at the path.
    NotInTree(String),
    /// The file has no embedding.
    NotIndexed(String),
}

impl SimilarError {
    /// The error as a sentence.
    pub fn message(&self) -> (r: String)
        ensures
            r@ == (match self {
                SimilarError::NotInTree(p) => "File not found in tree: "@ + p@,
                SimilarError::NotIndexed(p) => "File not indexed: "@ + p@,
            }),
    {
        match self {
            SimilarError::NotInTree(p) => concat("File not found in tree: ", p.as_str()),
            SimilarError::NotIndexed(p) => concat("File not indexed: ", p.as_str()),
        }
    }
}

/// The object name of the first blob at a path.
pub open spec fn sha_at(tree: Seq<Blob>, path: Seq<char>) -> Option<Seq<char>>
    decreases tree.len(),
{
    if tree.len() == 0 {
        None
    } else if tree[0].path == path {
        Some(tree[0].sha)
    } else {
        sha_at(tree.skip(1), path)
    }
}

/// The place of the first entry at a path.
fn entry_at(entries: &Vec<TreeEntry>, path: &str) -> (r: Option<usize>)
    ensures
        match r {
            Some(i) => i < entries@.len() && sha_at(blobs(entries@), path@) == Some(
                entries@[i as int].blob_sha@,
            ),
            None => sha_at(blobs(entries@), path@) is None,
        },
{
    let ghost tree = blobs(entries@);
    let mut i: usize = 0;
    assert(tree.skip(0) =~= tree);
    while i < entries.len()
        invariant
            i <= entries@.len(),
            tree == blobs(entries@),
            sha_at(tree, path@) == sha_at(tree.skip(i as int), path@),
        decreases entries@.len() - i,
    {
        assert(tree.skip(i as int).skip(1) =~= tree.skip(i + 1));
        if same_text(entries[i].path.as_str(), path) {
            return Some(i);
        }
        i = i + 1;
    }
    None
}

/// Find files similar to the file at `file_path`.
///
/// Looks up the blob SHA for `file_path` in the tree, retrieves its embedding from the
/// index, and scores all other indexed blobs against it. Returns up to `opts.top` results
/// in descending order of their similarity.
pub fn similar<F: Fn(&Vec<u32>, &Vec<u32>, usize) -> u32>(
    entries: &Vec<TreeEntry>,
    index: &EmbedIndex,
    file_path: &str,
    opts: &SearchOpts,
    similarity: F,
) -> (r: Result<Vec<SearchResult>, SimilarError>)
    requires
        forall|q: Vec<u32>, v: Vec<u32>| #[trigger]
            call_requires(similarity, (&q, &v, opts.dims)),
    ensures
        match sha_at(blobs(entries@), file_path@) {
            None => r matches Err(SimilarError::NotInTree(p)) && p@ == file_path@,
            Some(sha) => match lookup(index@.entries, sha) {
                None => r matches Err(SimilarError::NotIndexed(p)) && p@ == file_path@,
                Some(vector) => r matches Ok(found) && exists|target: Vec<u32>, scores: Seq<u32>|
                    target@ == vector && #[trigger] scored_by(
                        similarity,
                        &target,
                        opts.dims,
                        index@.entries,
                        scores,
                    ) && best_of(
                        candidates(
                            index@.entries,
                            scores,
                            blobs(entries@),
                            prefix_of(*opts),
                            Some(sha),
                        ),
                        hits(found@),
                        opts.top as int,
                    ),
            },
        },
{
    let at: usize = match entry_at(entries, file_path) {
        Some(i) => i,
        None => return Err(SimilarError::NotInTree(file_path.to_string())),
    };
    let target_sha: &str = entries[at].blob_sha.as_str();
    let target_vec: &Vec<u32> = match index.embeddings.get(target_sha) {
        Some(v) => v,
        None => return Err(SimilarError::NotIndexed(file_path.to_string())),
    };
    let scores: Vec<u32> = score_all(&similarity, target_vec, opts.dims, index);
    assert(target_vec@ =~= target_vec.deep_view());
    Ok(search_scored(entries, index, &scores, Some(target_sha), opts))
}

// ---------------------------------------------------------------------------
// Similar files as a search
// ---------------------------------------------------------------------------

/// The places that are marked, in ascending order.
spec fn marked(flags: Seq<bool>) -> Seq<int>
    decreases flags.len(),
{
    if flags.len() == 0 {
        seq![]
    } else if flags.last() {
        marked(flags.drop_last()).push(flags.len() - 1)
    } else {
        marked(flags.drop_last())
    }
}

/// Every marked place is listed once, in ascending order.
proof fn lemma_marked(flags: Seq<bool>)
    ensures
        forall|a: int|
            0 <= a < marked(flags).len() ==> 0 <= #[trigger] marked(flags)[a] < flags.len()
                && flags[marked(flags)[a]],
        forall|a: int, b: int|
            0 <= a < b < marked(flags).len() ==> #[trigger] marked(flags)[a]
                < #[trigger] marked(flags)[b],
        forall|i: int|
            0 <= i < flags.len() && #[trigger] flags[i] ==> marked(flags).contains(i),
    decreases flags.len(),
{
    if flags.len() > 0 {
        let front = flags.drop_last();
        let before = marked(front);
        let all = marked(flags);
        lemma_marked(front);
        assert forall|a: int| 0 <= a < all.len() implies 0 <= #[trigger] all[a] < flags.len()
            && flags[all[a]] by {
            if a < before.len() {
                assert(all[a] == before[a]);
                assert(front[before[a]]);
            }
        }
        assert forall|i: int| 0 <= i < flags.len() && #[trigger] flags[i] implies all.contains(
            i,
        ) by {
            if i < front.len() {
                assert(front[i]);
                let a = choose|a: int| 0 <= a < before.len() && before[a] == i;
                assert(all[a] == i);
            } else {
                assert(all[before.len() as int] == i);
            }
        }
    }
}

/// A filter takes what stands at the marked places.
proof fn lemma_filter_marked(s: Seq<Hit>, pred: spec_fn(Hit) -> bool, flags: Seq<bool>)
    requires
        flags.len() == s.len(),
        forall|i: int| 0 <= i < s.len() ==> #[trigger] flags[i] == pred(s[i]),
    ensures
        s.filter(pred) == selected(s, marked(flags)),
    decreases s.len(),
{
    reveal(Seq::filter);
    if s.len() > 0 {
        let front = s.drop_last();
        let fewer = flags.drop_last();
        assert forall|i: int| 0 <= i < front.len() implies #[trigger] fewer[i] == pred(
            front[i],
        ) by {
            assert(fewer[i] == flags[i]);
        }
        lemma_filter_marked(front, pred, fewer);
        lemma_marked(fewer);
        assert(flags[flags.len() - 1] == pred(s[s.len() - 1]));
        assert(selected(front, marked(fewer)) =~= selected(s, marked(fewer)));
    }
    assert(s.filter(pred) =~= selected(s, marked(flags)));
}

/// Filtering a complete ranking is the same as ranking what the filter keeps.
proof fn lemma_rank_filtered(all: Seq<Hit>, full: Seq<Hit>, pred: spec_fn(Hit) -> bool)
    requires
        best_of(all, full, all.len() as int),
    ensures
        best_of(all.filter(pred), full.filter(pred), all.filter(pred).len() as int),
{
    let keys = score_keys(all);
    let n = all.len() as int;
    let picks = choose|picks: Seq<int>| #[trigger]
        ranked(keys, picks, n) && full == selected(all, picks);
    let flags = Seq::new(all.len(), |i: int| pred(all[i]));
    let ranks = Seq::new(full.len(), |i: int| pred(full[i]));
    let k = marked(flags);
    let j = marked(ranks);
    let kept = all.filter(pred);
    let rest = full.filter(pred);
    lemma_filter_marked(all, pred, flags);
    lemma_filter_marked(full, pred, ranks);
    lemma_marked(flags);
    lemma_marked(ranks);
    let keys2 = score_keys(kept);
    let q = Seq::new(
        j.len(),
        |a: int| choose|b: int| 0 <= b < k.len() && #[trigger] k[b] == picks[j[a]],
    );
    assert forall|a: int| 0 <= a < j.len() implies 0 <= #[trigger] q[a] < k.len() && k[q[a]]
        == picks[j[a]] by {
        assert(ranks[j[a]]);
        assert(full[j[a]] == all[picks[j[a]]]);
        assert(flags[picks[j[a]]]);
        assert(k.contains(picks[j[a]]));
        let b = choose|b: int| 0 <= b < k.len() && k[b] == picks[j[a]];
        assert(k[b] == picks[j[a]]);
    }
    assert forall|a: int, b: int| 0 <= a < b < q.len() implies ranks_before(
        keys2,
        #[trigger] q[a],
        #[trigger] q[b],
    ) by {
        assert(j[a] < j[b]);
        assert(ranks_before(keys, picks[j[a]], picks[j[b]]));
        assert(keys2[q[a]] == keys[k[q[a]]]);
        assert(keys2[q[b]] == keys[k[q[b]]]);
        if q[b] < q[a] {
            assert(k[q[b]] < k[q[a]]);
        }
    }
    assert forall|b: int| 0 <= b < k.len() implies #[trigger] q.contains(b) by {
        assert(flags[k[b]]);
        assert(picks.contains(k[b]));
        let i = choose|i: int| 0 <= i < picks.len() && picks[i] == k[b];
        assert(full[i] == all[k[b]]);
        assert(ranks[i]);
        assert(j.contains(i));
        let a = choose|a: int| 0 <= a < j.len() && j[a] == i;
        assert(k[q[a]] == k[b]);
        if q[a] < b {
            assert(k[q[a]] < k[b]);
        } else if b < q[a] {
            assert(k[b] < k[q[a]]);
        }
        assert(q[a] == b);
    }
    assert(q.no_duplicates()) by {
        assert forall|a: int, b: int| 0 <= a < q.len() && 0 <= b < q.len() && a != b implies q[a]
            != q[b] by {
            if a < b {
                assert(ranks_before(keys2, q[a], q[b]));
            } else {
                assert(ranks_before(keys2, q[b], q[a]));
            }
        }
    }
    q.unique_seq_to_set();
    vstd::set_lib::lemma_int_range(0, k.len() as int);
    assert(q.to_set() =~= vstd::set_lib::set_int_range(0, k.len() as int)) by {
        assert forall|b: int| q.to_set().contains(b) <==> vstd::set_lib::set_int_range(
            0,
            k.len() as int,
        ).contains(b) by {
            if q.to_set().contains(b) {
                let a = choose|a: int| 0 <= a < q.len() && q[a] == b;
                assert(0 <= q[a] < k.len());
            }
            if 0 <= b < k.len() {
                assert(q.contains(b));
            }
        }
    }
    assert(q.len() == k.len());
    assert(ranked(keys2, q, kept.len() as int));
    assert forall|a: int| 0 <= a < q.len() implies selected(kept, q)[a] == rest[a] by {
        assert(kept[q[a]] == all[k[q[a]]]);
        assert(rest[a] == full[j[a]]);
        assert(full[j[a]] == all[picks[j[a]]]);
    }
    assert(selected(kept, q) =~= rest);
}

/// All candidates of one embedding have its object name.
proof fn lemma_one_sha(
    sha: Seq<char>,
    score: u32,
    tree: Seq<Blob>,
    prefix: Option<Seq<char>>,
    except: Seq<char>,
)
    ensures
        candidates_of(sha, score, tree, prefix).filter(|h: Hit| h.sha != except) == (if sha
            == except {
            seq![]
        } else {
            candidates_of(sha, score, tree, prefix)
        }),
{
    let own = candidates_of(sha, score, tree, prefix);
    let pred = |h: Hit| h.sha != except;
    assert forall|i: int| 0 <= i < own.len() implies (#[trigger] own[i]).sha == sha by {}
    lemma_filter_uniform(own, pred, sha != except);
}

/// A filter that treats everything alike keeps everything or nothing.
proof fn lemma_filter_uniform(s: Seq<Hit>, pred: spec_fn(Hit) -> bool, keep: bool)
    requires
        forall|i: int| 0 <= i < s.len() ==> pred(#[trigger] s[i]) == keep,
    ensures
        s.filter(pred) == (if keep {
            s
        } else {
            seq![]
        }),
    decreases s.len(),
{
    reveal(Seq::filter);
    if s.len() > 0 {
        let front = s.drop_last();
        assert forall|i: int| 0 <= i < front.len() implies pred(#[trigger] front[i]) == keep by {
            assert(front[i] == s[i]);
        }
        lemma_filter_uniform(front, pred, keep);
        assert(pred(s[s.len() - 1]) == keep);
        assert(front.push(s.last()) =~= s);
    } else {
        assert(s.filter(pred) =~= s);
    }
}

/// Leaving out one embedding leaves out the candidates with its object name, and no others.
pub proof fn law_except_is_a_filter(
    entries: Seq<(Seq<char>, Seq<u32>)>,
    scores: Seq<u32>,
    tree: Seq<Blob>,
    prefix: Option<Seq<char>>,
    sha: Seq<char>,
)
    ensures
        candidates(entries, scores, tree, prefix, Some(sha)) == candidates(
            entries,
            scores,
            tree,
            prefix,
            None,
        ).filter(|h: Hit| h.sha != sha),
    decreases entries.len(),
{
    let pred = |h: Hit| h.sha != sha;
    if entries.len() > 0 {
        let front = entries.drop_last();
        let rest = candidates(front, scores, tree, prefix, None);
        let own = candidates_of(entries.last().0, scores[entries.len() - 1], tree, prefix);
        law_except_is_a_filter(front, scores, tree, prefix, sha);
        lemma_one_sha(entries.last().0, scores[entries.len() - 1], tree, prefix, sha);
        Seq::filter_distributes_over_add(rest, own, pred);
        assert(rest.filter(pred) + Seq::<Hit>::empty() =~= rest.filter(pred));
    } else {
        reveal(Seq::filter);
        assert(Seq::<Hit>::empty().filter(pred) =~= seq![]);
    }
}

/// Similar files are what a search for the vector of the file finds, without the files of the
/// same content: the results are those of the search over all candidates, with the same
/// scores, without the ones that have the object name of the file, in the same order, up to
/// the number of results that is asked for.
pub proof fn law_similar_is_a_search(
    entries: Seq<(Seq<char>, Seq<u32>)>,
    scores: Seq<u32>,
    tree: Seq<Blob>,
    prefix: Option<Seq<char>>,
    sha: Seq<char>,
    found: Seq<Hit>,
    all: int,
    best: Seq<Hit>,
    top: int,
)
    requires
        best_of(candidates(entries, scores, tree, prefix, None), found, all),
        all >= candidates(entries, scores, tree, prefix, None).len(),
        best_of(candidates(entries, scores, tree, prefix, Some(sha)), best, top),
        0 <= top,
    ensures
        ({
            let others = found.filter(|h: Hit| h.sha != sha);
            best == others.take(
                if top < others.len() {
                    top
                } else {
                    others.len() as int
                },
            )
        }),
{
    let pred = |h: Hit| h.sha != sha;
    let every = candidates(entries, scores, tree, prefix, None);
    let kept = every.filter(pred);
    let others = found.filter(pred);
    law_except_is_a_filter(entries, scores, tree, prefix, sha);
    assert(best_of(every, found, every.len() as int)) by {
        let picks = choose|picks: Seq<int>| #[trigger]
            ranked(score_keys(every), picks, all) && found == selected(every, picks);
        assert(ranked(score_keys(every), picks, every.len() as int));
    }
    lemma_rank_filtered(every, found, pred);
    let keys = score_keys(kept);
    let q = choose|q: Seq<int>| #[trigger]
        ranked(keys, q, kept.len() as int) && others == selected(kept, q);
    let r = choose|r: Seq<int>| #[trigger] ranked(keys, r, top) && best == selected(kept, r);
    lemma_ranking_take(keys, q, top);
    let n = if top < q.len() {
        top
    } else {
        q.len() as int
    };
    law_ranking_is_unique(keys, r, q.take(n), top);
    assert(selected(kept, q.take(n)) =~= selected(kept, q).take(n));
}

// ---------------------------------------------------------------------------
// What a search lists
// ---------------------------------------------------------------------------

/// Scores are ordered as the numbers that their bits stand for: among bits without the sign
/// bit the larger is the larger number, among bits with it the smaller; a number with the
/// sign bit is not above one without, and equal to it only if both are zero; and bits that
/// stand for no number come below all others.
pub proof fn law_score_order(a: u32, b: u32)
    ensures
        a <= 0x7f80_0000 && b <= 0x7f80_0000 ==> (score_order(a) < score_order(b) <==> a < b),
        0x8000_0000 <= a <= 0xff80_0000 && 0x8000_0000 <= b <= 0xff80_0000 ==> (score_order(a)
            < score_order(b) <==> a > b),
        0x8000_0000 <= a <= 0xff80_0000 && b <= 0x7f80_0000 ==> score_order(a) <= score_order(b)
            && (score_order(a) == score_order(b) <==> a == 0x8000_0000 && b == 0),
        (0x7f80_0000 < a < 0x8000_0000 || 0xff80_0000 < a) && (b <= 0x7f80_0000 || 0x8000_0000 <= b
            <= 0xff80_0000) ==> score_order(a) < score_order(b),
{
}

/// What is known of one of the best candidates.
proof fn lemma_result(
    es: Seq<(Seq<char>, Seq<u32>)>,
    scores: Seq<u32>,
    entries: Seq<TreeEntry>,
    prefix: Option<Seq<char>>,
    except: Option<Seq<char>>,
    r: Seq<SearchResult>,
    top: int,
    i: int,
)
    requires
        es.len() <= scores.len(),
        0 <= top,
        best_of(candidates(es, scores, blobs(entries), prefix, except), hits(r), top),
        0 <= i < r.len(),
    ensures
        exists|k: int|
            0 <= k < entries.len() && (#[trigger] entries[k]).path@ == r[i].path@
                && entries[k].blob_sha@ == r[i].blob_sha@,
        exists|m: int|
            0 <= m < es.len() && (#[trigger] es[m]).0 == r[i].blob_sha@ && scores[m] == r[i].score,
        prefix matches Some(p) ==> p.len() <= r[i].path@.len() && r[i].path@.take(p.len() as int)
            == p,
        except != Some(r[i].blob_sha@),
{
    let all = candidates(es, scores, blobs(entries), prefix, except);
    let h = hits(r)[i];
    assert(h == r[i]@);
    law_best_results(all, hits(r), top);
    law_candidates(es, scores, blobs(entries), prefix, except, h);
    let tree = blobs(entries);
    let b = Blob { path: h.path, sha: h.sha };
    assert(tree.contains(b));
    let k = choose|k: int| 0 <= k < tree.len() && tree[k] == b;
    assert(tree[k] == entries[k]@);
    assert(entries[k].path@ == r[i].path@);
    match prefix {
        Some(p) => {
            assert(h.path.take(p.len() as int) =~= p);
        },
        None => {},
    }
}

/// What is known of a file that could be listed.
proof fn lemma_not_missed(
    es: Seq<(Seq<char>, Seq<u32>)>,
    scores: Seq<u32>,
    entries: Seq<TreeEntry>,
    prefix: Option<Seq<char>>,
    except: Option<Seq<char>>,
    r: Seq<SearchResult>,
    top: int,
    k: int,
    m: int,
)
    requires
        es.len() <= scores.len(),
        0 <= top,
        best_of(candidates(es, scores, blobs(entries), prefix, except), hits(r), top),
        0 <= k < entries.len(),
        0 <= m < es.len(),
        es[m].0 == entries[k].blob_sha@,
        prefix matches Some(p) ==> p.len() <= entries[k].path@.len() && entries[k].path@.take(
            p.len() as int,
        ) == p,
        except != Some(entries[k].blob_sha@),
    ensures
        r.len() <= top,
        (exists|i: int|
            0 <= i < r.len() && (#[trigger] r[i]).path@ == entries[k].path@ && r[i].blob_sha@
                == entries[k].blob_sha@ && r[i].score == scores[m]) || (r.len() == top && forall|
            i: int,
        |
            0 <= i < r.len() ==> score_order((#[trigger] r[i]).score) >= score_order(scores[m])),
{
    let all = candidates(es, scores, blobs(entries), prefix, except);
    let h = Hit { score: scores[m], path: entries[k].path@, sha: entries[k].blob_sha@ };
    let best = hits(r);
    assert(best.len() == r.len());
    law_best_results(all, best, top);
    law_candidates(es, scores, blobs(entries), prefix, except, h);
    assert(blobs(entries)[k] == (Blob { path: h.path, sha: h.sha }));
    match prefix {
        Some(p) => {
            assert(p.is_prefix_of(h.path));
        },
        None => {},
    }
    assert(es[m].0 == h.sha);
    assert(all.contains(h));
    if best.contains(h) {
        let i = choose|i: int| 0 <= i < best.len() && best[i] == h;
        assert(best[i] == r[i]@);
        assert(r[i].path@ == entries[k].path@);
    } else {
        let picks = choose|picks: Seq<int>| #[trigger]
            ranked(score_keys(all), picks, top) && best == selected(all, picks);
        let at = choose|at: int| 0 <= at < all.len() && all[at] == h;
        assert(top < all.len()) by {
            if top >= all.len() {
                assert(picks.contains(at));
                let q = choose|q: int| 0 <= q < picks.len() && picks[q] == at;
                assert(best[q] == h);
            }
        }
        assert forall|i: int| 0 <= i < r.len() implies score_order((#[trigger] r[i]).score)
            >= score_order(scores[m]) by {
            assert(best[i] == r[i]@);
        }
    }
}

/// A filter keeps items apart that are apart.
proof fn lemma_filter_apart(tree: Seq<Blob>, pred: spec_fn(Blob) -> bool)
    requires
        forall|i: int, j: int|
            0 <= i < j < tree.len() ==> (#[trigger] tree[i]).path != (#[trigger] tree[j]).path,
    ensures
        forall|i: int, j: int|
            0 <= i < j < tree.filter(pred).len() ==> (#[trigger] tree.filter(pred)[i]).path != (
            #[trigger] tree.filter(pred)[j]).path,
    decreases tree.len(),
{
    reveal(Seq::filter);
    if tree.len() > 0 {
        let front = tree.drop_last();
        let kept = front.filter(pred);
        let all = tree.filter(pred);
        assert forall|i: int, j: int| 0 <= i < j < front.len() implies (#[trigger] front[i]).path
            != (#[trigger] front[j]).path by {
            assert(front[i] == tree[i] && front[j] == tree[j]);
        }
        lemma_filter_apart(front, pred);
        assert forall|i: int, j: int| 0 <= i < j < all.len() implies (#[trigger] all[i]).path != (
        #[trigger] all[j]).path by {
            assert(all[i] == kept[i]);
            if j < kept.len() {
                assert(all[j] == kept[j]);
            } else {
                assert(kept.contains(kept[i]));
                lemma_filter_contains(front, pred, kept[i]);
                let q = choose|q: int| 0 <= q < front.len() && front[q] == kept[i];
                assert(tree[q].path != tree[tree.len() - 1].path);
            }
        }
    }
}

/// A filter of paths keeps them apart.
proof fn lemma_paths_apart(paths: Seq<Seq<char>>, pred: spec_fn(Seq<char>) -> bool)
    requires
        forall|i: int, j: int|
            0 <= i < j < paths.len() ==> #[trigger] paths[i] != #[trigger] paths[j],
    ensures
        forall|i: int, j: int|
            0 <= i < j < paths.filter(pred).len() ==> #[trigger] paths.filter(pred)[i]
                != #[trigger] paths.filter(pred)[j],
    decreases paths.len(),
{
    reveal(Seq::filter);
    if paths.len() > 0 {
        let front = paths.drop_last();
        let kept = front.filter(pred);
        let all = paths.filter(pred);
        assert forall|i: int, j: int| 0 <= i < j < front.len() implies #[trigger] front[i]
            != #[trigger] front[j] by {
            assert(front[i] == paths[i] && front[j] == paths[j]);
        }
        lemma_paths_apart(front, pred);
        assert forall|i: int, j: int| 0 <= i < j < all.len() implies #[trigger] all[i]
            != #[trigger] all[j] by {
            assert(all[i] == kept[i]);
            if j < kept.len() {
                assert(all[j] == kept[j]);
            } else {
                assert(kept.contains(kept[i]));
                lemma_filter_contains(front, pred, kept[i]);
                let q = choose|q: int| 0 <= q < front.len() && front[q] == kept[i];
                assert(paths[q] != paths[paths.len() - 1]);
            }
        }
    }
}

/// Where no two blobs share a path and no object name has two embeddings, no two candidates
/// share a path.
proof fn lemma_candidates_apart(
    es: Seq<(Seq<char>, Seq<u32>)>,
    scores: Seq<u32>,
    tree: Seq<Blob>,
    prefix: Option<Seq<char>>,
    except: Option<Seq<char>>,
)
    requires
        es.len() <= scores.len(),
        forall|i: int, j: int|
            0 <= i < j < tree.len() ==> (#[trigger] tree[i]).path != (#[trigger] tree[j]).path,
        forall|i: int, j: int|
            0 <= i < j < es.len() ==> (#[trigger] es[i]).0 != (#[trigger] es[j]).0,
    ensures
        ({
            let all = candidates(es, scores, tree, prefix, except);
            forall|i: int, j: int|
                0 <= i < j < all.len() ==> (#[trigger] all[i]).path != (#[trigger] all[j]).path
        }),
    decreases es.len(),
{
    let all = candidates(es, scores, tree, prefix, except);
    if es.len() > 0 {
        let front = es.drop_last();
        let n = es.len() - 1;
        let sha = es.last().0;
        let rest = candidates(front, scores, tree, prefix, except);
        let own = candidates_of(sha, scores[n], tree, prefix);
        let same = |x: Blob| x.sha == sha;
        let ok = |p: Seq<char>| wanted(p, prefix);
        assert forall|i: int, j: int| 0 <= i < j < front.len() implies (#[trigger] front[i]).0 != (
        #[trigger] front[j]).0 by {
            assert(front[i] == es[i] && front[j] == es[j]);
        }
        lemma_candidates_apart(front, scores, tree, prefix, except);
        lemma_filter_apart(tree, same);
        let paths = paths_of(tree, sha);
        assert forall|i: int, j: int| 0 <= i < j < paths.len() implies #[trigger] paths[i]
            != #[trigger] paths[j] by {
            assert(paths[i] == tree.filter(same)[i].path);
            assert(paths[j] == tree.filter(same)[j].path);
        }
        lemma_paths_apart(paths, ok);
        if except != Some(sha) {
            assert forall|i: int, j: int| 0 <= i < j < all.len() implies (#[trigger] all[i]).path
                != (#[trigger] all[j]).path by {
                if j < rest.len() {
                    assert(all[i] == rest[i] && all[j] == rest[j]);
                } else if i >= rest.len() {
                    assert(all[i] == own[i - rest.len()] && all[j] == own[j - rest.len()]);
                    assert(own[i - rest.len()].path == paths.filter(ok)[i - rest.len()]);
                    assert(own[j - rest.len()].path == paths.filter(ok)[j - rest.len()]);
                } else {
                    let a = rest[i];
                    let b = own[j - rest.len()];
                    assert(all[i] == a && all[j] == b);
                    assert(rest.contains(a));
                    assert(own.contains(b));
                    law_candidates(front, scores, tree, prefix, except, a);
                    lemma_candidates_of(sha, scores[n], tree, prefix, b);
                    let x = Blob { path: a.path, sha: a.sha };
                    let y = Blob { path: b.path, sha: b.sha };
                    let p = choose|p: int| 0 <= p < tree.len() && tree[p] == x;
                    let q = choose|q: int| 0 <= q < tree.len() && tree[q] == y;
                    let m = choose|m: int|
                        0 <= m < front.len() && (#[trigger] front[m]).0 == a.sha && scores[m]
                            == a.score;
                    assert(es[m].0 != es[n].0);
                    assert(tree[p] == x && tree[q] == y);
                    assert(p != q);
                    if p < q {
                        assert(tree[p].path != tree[q].path);
                    } else {
                        assert(tree[q].path != tree[p].path);
                    }
                }
            }
        }
    }
}

/// The best candidates descend and are few enough; and where no two files of the tree share a
/// path and no object name has two embeddings, no two of them share a path.
proof fn lemma_results_descend(
    es: Seq<(Seq<char>, Seq<u32>)>,
    scores: Seq<u32>,
    entries: Seq<TreeEntry>,
    prefix: Option<Seq<char>>,
    except: Option<Seq<char>>,
    r: Seq<SearchResult>,
    top: int,
)
    requires
        es.len() <= scores.len(),
        0 <= top,
        best_of(candidates(es, scores, blobs(entries), prefix, except), hits(r), top),
    ensures
        r.len() <= top,
        forall|i: int, j: int|
            0 <= i < j < r.len() ==> score_order((#[trigger] r[i]).score) >= score_order(
                (#[trigger] r[j]).score,
            ),
        (forall|i: int, j: int|
            0 <= i < j < entries.len() ==> (#[trigger] entries[i]).path@ != (
            #[trigger] entries[j]).path@) && (forall|i: int, j: int|
            0 <= i < j < es.len() ==> (#[trigger] es[i]).0 != (#[trigger] es[j]).0) ==> forall|
            i: int,
            j: int,
        |
            0 <= i < j < r.len() ==> (#[trigger] r[i]).path@ != (#[trigger] r[j]).path@,
{
    let tree = blobs(entries);
    let all = candidates(es, scores, tree, prefix, except);
    let best = hits(r);
    let picks = choose|picks: Seq<int>| #[trigger]
        ranked(score_keys(all), picks, top) && best == selected(all, picks);
    assert(best.len() == r.len());
    assert(picks.len() == r.len());
    law_best_results(all, best, top);
    assert forall|i: int, j: int| 0 <= i < j < r.len() implies score_order((#[trigger] r[i]).score)
        >= score_order((#[trigger] r[j]).score) by {
        assert(best[i] == r[i]@ && best[j] == r[j]@);
    }
    if (forall|i: int, j: int|
        0 <= i < j < entries.len() ==> (#[trigger] entries[i]).path@ != (
        #[trigger] entries[j]).path@) && (forall|i: int, j: int|
        0 <= i < j < es.len() ==> (#[trigger] es[i]).0 != (#[trigger] es[j]).0) {
        assert forall|i: int, j: int| 0 <= i < j < tree.len() implies (#[trigger] tree[i]).path != (
        #[trigger] tree[j]).path by {
            assert(tree[i] == entries[i]@ && tree[j] == entries[j]@);
            assert(entries[i].path@ != entries[j].path@);
        }
        lemma_candidates_apart(es, scores, tree, prefix, except);
        assert forall|i: int, j: int| 0 <= i < j < r.len() implies (#[trigger] r[i]).path@ != (
        #[trigger] r[j]).path@ by {
            assert(best[i] == r[i]@ && best[j] == r[j]@);
            assert(ranks_before(score_keys(all), picks[i], picks[j]));
            assert(best[i] == all[picks[i]] && best[j] == all[picks[j]]);
            if picks[i] < picks[j] {
                assert(all[picks[i]].path != all[picks[j]].path);
            } else {
                assert(all[picks[j]].path != all[picks[i]].path);
            }
        }
    }
}

/// Every result of [`search_scored`] is a file of the tree whose blob has an embedding with
/// that score; its path starts with the prefix that is asked for; and it is not of the
/// content that is left out.
pub proof fn law_results_are_wanted_files(
    entries: &Vec<TreeEntry>,
    index: &EmbedIndex,
    scores: &Vec<u32>,
    except: Option<&str>,
    opts: &SearchOpts,
    r: Vec<SearchResult>,
    i: int,
)
    requires
        scores@.len() == index.embeddings@.len(),
        call_ensures(search_scored, (entries, index, scores, except, opts), r),
        0 <= i < r@.len(),
    ensures
        exists|k: int|
            0 <= k < entries@.len() && (#[trigger] entries@[k]).path@ == r@[i].path@
                && entries@[k].blob_sha@ == r@[i].blob_sha@,
        exists|m: int|
            0 <= m < index.embeddings@.len() && (#[trigger] index.embeddings@[m]).0
                == r@[i].blob_sha@ && scores@[m] == r@[i].score,
        opts.path matches Some(p) ==> p@.len() <= r@[i].path@.len() && r@[i].path@.take(
            p@.len() as int,
        ) == p@,
        except matches Some(e) ==> r@[i].blob_sha@ != e@,
{
    let skipped = match except {
        Some(e) => Some(e@),
        None => None,
    };
    lemma_result(
        index@.entries,
        scores@,
        entries@,
        prefix_of(*opts),
        skipped,
        r@,
        opts.top as int,
        i,
    );
}

/// No file is missed by [`search_scored`]: a file of the tree whose path starts with the
/// prefix that is asked for, whose blob has an embedding and is not of the content that is
/// left out, is listed with the score of that embedding; or else the list is as long as was
/// asked for and holds no lower score.
pub proof fn law_no_file_is_missed(
    entries: &Vec<TreeEntry>,
    index: &EmbedIndex,
    scores: &Vec<u32>,
    except: Option<&str>,
    opts: &SearchOpts,
    r: Vec<SearchResult>,
    k: int,
    m: int,
)
    requires
        scores@.len() == index.embeddings@.len(),
        call_ensures(search_scored, (entries, index, scores, except, opts), r),
        0 <= k < entries@.len(),
        0 <= m < index.embeddings@.len(),
        index.embeddings@[m].0 == entries@[k].blob_sha@,
        opts.path matches Some(p) ==> p@.len() <= entries@[k].path@.len() && entries@[k].path@.take(
            p@.len() as int,
        ) == p@,
        except matches Some(e) ==> entries@[k].blob_sha@ != e@,
    ensures
        r@.len() <= opts.top,
        (exists|i: int|
            0 <= i < r@.len() && (#[trigger] r@[i]).path@ == entries@[k].path@ && r@[i].blob_sha@
                == entries@[k].blob_sha@ && r@[i].score == scores@[m]) || (r@.len() == opts.top
            && forall|i: int|
            0 <= i < r@.len() ==> score_order((#[trigger] r@[i]).score) >= score_order(scores@[m])),
{
    let skipped = match except {
        Some(e) => Some(e@),
        None => None,
    };
    lemma_not_missed(
        index@.entries,
        scores@,
        entries@,
        prefix_of(*opts),
        skipped,
        r@,
        opts.top as int,
        k,
        m,
    );
}

/// The results of [`search_scored`] come in descending order of their scores, no more than
/// were asked for, and each file at most once.
pub proof fn law_results_descend(
    entries: &Vec<TreeEntry>,
    index: &EmbedIndex,
    scores: &Vec<u32>,
    except: Option<&str>,
    opts: &SearchOpts,
    r: Vec<SearchResult>,
)
    requires
        scores@.len() == index.embeddings@.len(),
        call_ensures(search_scored, (entries, index, scores, except, opts), r),
    ensures
        r@.len() <= opts.top,
        forall|i: int, j: int|
            0 <= i < j < r@.len() ==> score_order((#[trigger] r@[i]).score) >= score_order(
                (#[trigger] r@[j]).score,
            ),
        (forall|i: int, j: int|
            0 <= i < j < entries@.len() ==> (#[trigger] entries@[i]).path@ != (
            #[trigger] entries@[j]).path@) && (forall|i: int, j: int|
            0 <= i < j < index.embeddings@.len() ==> (#[trigger] index.embeddings@[i]).0 != (
            #[trigger] index.embeddings@[j]).0) ==> forall|i: int, j: int|
            0 <= i < j < r@.len() ==> (#[trigger] r@[i]).path@ != (#[trigger] r@[j]).path@,
{
    let skipped = match except {
        Some(e) => Some(e@),
        None => None,
    };
    lemma_results_descend(
        index@.entries,
        scores@,
        entries@,
        prefix_of(*opts),
        skipped,
        r@,
        opts.top as int,
    );
}

/// Every result of [`search`] is a file of the tree whose path starts with the prefix that is
/// asked for, and its score is the similarity of the query to the embedding of its blob, over
/// the components that are asked for.
pub proof fn law_search<F: Fn(&Vec<u32>, &Vec<u32>, usize) -> u32>(
    entries: &Vec<TreeEntry>,
    index: &EmbedIndex,
    query_vec: &Vec<u32>,
    opts: &SearchOpts,
    similarity: F,
    r: Vec<SearchResult>,
    i: int,
)
    requires
        call_ensures(search::<F>, (entries, index, query_vec, opts, similarity), r),
        0 <= i < r@.len(),
    ensures
        exists|k: int|
            0 <= k < entries@.len() && (#[trigger] entries@[k]).path@ == r@[i].path@
                && entries@[k].blob_sha@ == r@[i].blob_sha@,
        exists|m: int, v: Vec<u32>|
            0 <= m < index.embeddings@.len() && (#[trigger] index.embeddings@[m]).0
                == r@[i].blob_sha@ && v@ == index.embeddings@[m].1 && #[trigger] call_ensures(
                similarity,
                (query_vec, &v, opts.dims),
                r@[i].score,
            ),
        opts.path matches Some(p) ==> p@.len() <= r@[i].path@.len() && r@[i].path@.take(
            p@.len() as int,
        ) == p@,
{
    let es = index@.entries;
    let prefix = prefix_of(*opts);
    let scores = choose|scores: Seq<u32>| #[trigger]
        scored_by(similarity, query_vec, opts.dims, es, scores) && best_of(
            candidates(es, scores, blobs(entries@), prefix, None),
            hits(r@),
            opts.top as int,
        );
    lemma_result(es, scores, entries@, prefix, None, r@, opts.top as int, i);
    let m = choose|m: int|
        0 <= m < es.len() && (#[trigger] es[m]).0 == r@[i].blob_sha@ && scores[m] == r@[i].score;
    assert(similarity_is(similarity, query_vec, opts.dims, es[m].1, scores[m]));
    let v = choose|v: Vec<u32>|
        v@ == es[m].1 && #[trigger] call_ensures(similarity, (query_vec, &v, opts.dims), scores[m]);
    assert(index.embeddings@[m].0 == r@[i].blob_sha@);
    assert(call_ensures(similarity, (query_vec, &v, opts.dims), r@[i].score));
}

/// The results of [`search`] come in descending order of their scores, no more than were asked
/// for, and each file at most once.
pub proof fn law_search_descends<F: Fn(&Vec<u32>, &Vec<u32>, usize) -> u32>(
    entries: &Vec<TreeEntry>,
    index: &EmbedIndex,
    query_vec: &Vec<u32>,
    opts: &SearchOpts,
    similarity: F,
    r: Vec<SearchResult>,
)
    requires
        call_ensures(search::<F>, (entries, index, query_vec, opts, similarity), r),
    ensures
        r@.len() <= opts.top,
        forall|i: int, j: int|
            0 <= i < j < r@.len() ==> score_order((#[trigger] r@[i]).score) >= score_order(
                (#[trigger] r@[j]).score,
            ),
        (forall|i: int, j: int|
            0 <= i < j < entries@.len() ==> (#[trigger] entries@[i]).path@ != (
            #[trigger] entries@[j]).path@) && (forall|i: int, j: int|
            0 <= i < j < index.embeddings@.len() ==> (#[trigger] index.embeddings@[i]).0 != (
            #[trigger] index.embeddings@[j]).0) ==> forall|i: int, j: int|
            0 <= i < j < r@.len() ==> (#[trigger] r@[i]).path@ != (#[trigger] r@[j]).path@,
{
    let es = index@.entries;
    let prefix = prefix_of(*opts);
    let scores = choose|scores: Seq<u32>| #[trigger]
        scored_by(similarity, query_vec, opts.dims, es, scores) && best_of(
            candidates(es, scores, blobs(entries@), prefix, None),
            hits(r@),
            opts.top as int,
        );
    lemma_results_descend(es, scores, entries@, prefix, None, r@, opts.top as int);
}

/// No file is missed by [`search`]: a file of the tree whose path starts with the prefix that
/// is asked for and whose blob has an embedding is listed with its similarity to the query;
/// or else the list is as long as was asked for and holds no lower score.
pub proof fn law_search_misses_nothing<F: Fn(&Vec<u32>, &Vec<u32>, usize) -> u32>(
    entries: &Vec<TreeEntry>,
    index: &EmbedIndex,
    query_vec: &Vec<u32>,
    opts: &SearchOpts,
    similarity: F,
    r: Vec<SearchResult>,
    k: int,
    m: int,
)
    requires
        call_ensures(search::<F>, (entries, index, query_vec, opts, similarity), r),
        0 <= k < entries@.len(),
        0 <= m < index.embeddings@.len(),
        index.embeddings@[m].0 == entries@[k].blob_sha@,
        opts.path matches Some(p) ==> p@.len() <= entries@[k].path@.len() && entries@[k].path@.take(
            p@.len() as int,
        ) == p@,
    ensures
        exists|v: Vec<u32>, score: u32|
            {
                &&& v@ == index.embeddings@[m].1
                &&& #[trigger] call_ensures(similarity, (query_vec, &v, opts.dims), score)
                &&& (exists|i: int|
                    0 <= i < r@.len() && (#[trigger] r@[i]).path@ == entries@[k].path@
                        && r@[i].blob_sha@ == entries@[k].blob_sha@ && r@[i].score == score) || (
                r@.len() == opts.top && forall|i: int|
                    0 <= i < r@.len() ==> score_order((#[trigger] r@[i]).score) >= score_order(
                        score,
                    ))
            },
{
    let es = index@.entries;
    let prefix = prefix_of(*opts);
    let scores = choose|scores: Seq<u32>| #[trigger]
        scored_by(similarity, query_vec, opts.dims, es, scores) && best_of(
            candidates(es, scores, blobs(entries@), prefix, None),
            hits(r@),
            opts.top as int,
        );
    lemma_not_missed(es, scores, entries@, prefix, None, r@, opts.top as int, k, m);
    assert(es[m].0 == entries@[k].blob_sha@);
    assert(similarity_is(similarity, query_vec, opts.dims, es[m].1, scores[m]));
    let v = choose|v: Vec<u32>|
        v@ == es[m].1 && #[trigger] call_ensures(similarity, (query_vec, &v, opts.dims), scores[m]);
    assert(call_ensures(similarity, (query_vec, &v, opts.dims), scores[m]));
}

/// The file that is looked up is the one at exactly the given path, the first if there are
/// several; none is found only if the tree has no file at that path.
pub proof fn law_file_is_looked_up_by_its_path(tree: Seq<Blob>, path: Seq<char>)
    ensures
        match sha_at(tree, path) {
            Some(s) => exists|i: int|
                0 <= i < tree.len() && (#[trigger] tree[i]).path == path && tree[i].sha == s
                    && forall|j: int| 0 <= j < i ==> (#[trigger] tree[j]).path != path,
            None => forall|i: int| 0 <= i < tree.len() ==> (#[trigger] tree[i]).path != path,
        },
        sha_at(tree, path) matches Some(s) ==> tree.contains(Blob { path: path, sha: s }),
    decreases tree.len(),
{
    if tree.len() > 0 {
        let rest = tree.skip(1);
        if tree[0].path == path {
            assert(tree[0] == (Blob { path: path, sha: tree[0].sha }));
        } else {
            law_file_is_looked_up_by_its_path(rest, path);
            match sha_at(tree, path) {
                Some(s) => {
                    let i = choose|i: int|
                        0 <= i < rest.len() && (#[trigger] rest[i]).path == path && rest[i].sha == s
                            && forall|j: int| 0 <= j < i ==> (#[trigger] rest[j]).path != path;
                    assert(tree[i + 1] == rest[i]);
                    assert forall|j: int| 0 <= j < i + 1 implies (#[trigger] tree[j]).path
                        != path by {
                        if j > 0 {
                            assert(rest[j - 1] == tree[j]);
                        }
                    }
                    assert(tree[i + 1] == (Blob { path: path, sha: s }));
                },
                None => {
                    assert forall|i: int| 0 <= i < tree.len() implies (#[trigger] tree[i]).path
                        != path by {
                        if i > 0 {
                            assert(rest[i - 1] == tree[i]);
                        }
                    }
                },
            }
        }
    }
}

/// The file that is looked up among tree entries.
proof fn lemma_looked_up(entries: Seq<TreeEntry>, path: Seq<char>, at: int)
    requires
        0 <= at < entries.len(),
        entries[at].path@ == path,
        forall|j: int| 0 <= j < at ==> (#[trigger] entries[j]).path@ != path,
    ensures
        sha_at(blobs(entries), path) == Some(entries[at].blob_sha@),
{
    let tree = blobs(entries);
    law_file_is_looked_up_by_its_path(tree, path);
    assert(tree[at].path == path);
    let i = choose|i: int|
        0 <= i < tree.len() && (#[trigger] tree[i]).path == path && tree[i].sha == sha_at(
            tree,
            path,
        )->0 && forall|j: int| 0 <= j < i ==> (#[trigger] tree[j]).path != path;
    assert(tree[i] == entries[i]@);
    if i < at {
        assert(entries[i].path@ != path);
    }
}

/// [`similar`] fails for want of a file just where the tree has none at the given path, and
/// for want of an embedding just where it has one, and the blob of the first such file has no
/// embedding. Either way it tells the path.
pub proof fn law_similar_fails<F: Fn(&Vec<u32>, &Vec<u32>, usize) -> u32>(
    entries: &Vec<TreeEntry>,
    index: &EmbedIndex,
    file_path: &str,
    opts: &SearchOpts,
    similarity: F,
    r: Result<Vec<SearchResult>, SimilarError>,
)
    requires
        call_ensures(similar::<F>, (entries, index, file_path, opts, similarity), r),
    ensures
        (r is Err && r->Err_0 is NotInTree) <==> forall|i: int|
            0 <= i < entries@.len() ==> (#[trigger] entries@[i]).path@ != file_path@,
        r is Err ==> (match r->Err_0 {
            SimilarError::NotInTree(p) => p@ == file_path@,
            SimilarError::NotIndexed(p) => p@ == file_path@,
        }),
        forall|at: int|
            0 <= at < entries@.len() && (#[trigger] entries@[at]).path@ == file_path@ && (forall|
                j: int,
            |
                0 <= j < at ==> (#[trigger] entries@[j]).path@ != file_path@) ==> ((r is Err
                && r->Err_0 is NotIndexed) <==> forall|m: int|
                0 <= m < index.embeddings@.len() ==> (#[trigger] index.embeddings@[m]).0
                    != entries@[at].blob_sha@),
{
    let tree = blobs(entries@);
    let es = index@.entries;
    law_file_is_looked_up_by_its_path(tree, file_path@);
    if sha_at(tree, file_path@) is None {
        assert forall|i: int| 0 <= i < entries@.len() implies (#[trigger] entries@[i]).path@
            != file_path@ by {
            assert(tree[i].path != file_path@);
        }
    } else {
        let i = choose|i: int|
            0 <= i < tree.len() && (#[trigger] tree[i]).path == file_path@ && tree[i].sha == sha_at(
                tree,
                file_path@,
            )->0 && forall|j: int| 0 <= j < i ==> (#[trigger] tree[j]).path != file_path@;
        assert(entries@[i].path@ == file_path@);
        assert forall|at: int|
            0 <= at < entries@.len() && (#[trigger] entries@[at]).path@ == file_path@ && (forall|
                j: int,
            |
                0 <= j < at ==> (#[trigger] entries@[j]).path@ != file_path@) implies ((r is Err
            && r->Err_0 is NotIndexed) <==> forall|m: int|
            0 <= m < index.embeddings@.len() ==> (#[trigger] index.embeddings@[m]).0
                != entries@[at].blob_sha@) by {
            let sha = entries@[at].blob_sha@;
            lemma_looked_up(entries@, file_path@, at);
            if lookup(es, sha) is Some {
                assert(es[place_of(es, sha)].0 == sha);
            } else {
                assert forall|m: int| 0 <= m < es.len() implies (#[trigger] es[m]).0 != sha by {}
            }
        }
    }
}

/// The scores behind the similar files of a file.
proof fn lemma_similar_scores<F: Fn(&Vec<u32>, &Vec<u32>, usize) -> u32>(
    entries: &Vec<TreeEntry>,
    index: &EmbedIndex,
    file_path: &str,
    opts: &SearchOpts,
    similarity: F,
    found: Vec<SearchResult>,
    at: int,
) -> (r: (Vec<u32>, Seq<u32>, int))
    requires
        call_ensures(
            similar::<F>,
            (entries, index, file_path, opts, similarity),
            Ok::<Vec<SearchResult>, SimilarError>(found),
        ),
        0 <= at < entries@.len(),
        entries@[at].path@ == file_path@,
        forall|j: int| 0 <= j < at ==> (#[trigger] entries@[j]).path@ != file_path@,
    ensures
        0 <= r.2 < index.embeddings@.len(),
        index.embeddings@[r.2] == (entries@[at].blob_sha@, r.0@),
        scored_by(similarity, &r.0, opts.dims, index@.entries, r.1),
        best_of(
            candidates(
                index@.entries,
                r.1,
                blobs(entries@),
                prefix_of(*opts),
                Some(entries@[at].blob_sha@),
            ),
            hits(found@),
            opts.top as int,
        ),
{
    let es = index@.entries;
    let sha = entries@[at].blob_sha@;
    lemma_looked_up(entries@, file_path@, at);
    let vector = lookup(es, sha)->0;
    let t = place_of(es, sha);
    assert(es[t].0 == sha && es[t].1 == vector);
    let (target, scores) = choose|target: Vec<u32>, scores: Seq<u32>|
        target@ == vector && #[trigger] scored_by(similarity, &target, opts.dims, es, scores)
            && best_of(
            candidates(es, scores, blobs(entries@), prefix_of(*opts), Some(sha)),
            hits(found@),
            opts.top as int,
        );
    (target, scores, t)
}

/// Every result of [`similar`] is another file of the tree, of another content than the first
/// file at the given path; its path starts with the prefix that is asked for; and its score is
/// the similarity of the embedding of that file to its own, over the components that are
/// asked for.
pub proof fn law_similar<F: Fn(&Vec<u32>, &Vec<u32>, usize) -> u32>(
    entries: &Vec<TreeEntry>,
    index: &EmbedIndex,
    file_path: &str,
    opts: &SearchOpts,
    similarity: F,
    found: Vec<SearchResult>,
    at: int,
    i: int,
)
    requires
        call_ensures(
            similar::<F>,
            (entries, index, file_path, opts, similarity),
            Ok::<Vec<SearchResult>, SimilarError>(found),
        ),
        0 <= at < entries@.len(),
        entries@[at].path@ == file_path@,
        forall|j: int| 0 <= j < at ==> (#[trigger] entries@[j]).path@ != file_path@,
        0 <= i < found@.len(),
    ensures
        found@[i].blob_sha@ != entries@[at].blob_sha@,
        exists|k: int|
            0 <= k < entries@.len() && (#[trigger] entries@[k]).path@ == found@[i].path@
                && entries@[k].blob_sha@ == found@[i].blob_sha@,
        opts.path matches Some(p) ==> p@.len() <= found@[i].path@.len() && found@[i].path@.take(
            p@.len() as int,
        ) == p@,
        exists|t: int, m: int, q: Vec<u32>, v: Vec<u32>|
            0 <= t < index.embeddings@.len() && 0 <= m < index.embeddings@.len() && (
            #[trigger] index.embeddings@[t]).0 == entries@[at].blob_sha@ && (
            #[trigger] index.embeddings@[m]).0 == found@[i].blob_sha@ && q@
                == index.embeddings@[t].1 && v@ == index.embeddings@[m].1
                && #[trigger] call_ensures(similarity, (&q, &v, opts.dims), found@[i].score),
{
    let es = index@.entries;
    let sha = entries@[at].blob_sha@;
    let (q, scores, t) = lemma_similar_scores(
        entries,
        index,
        file_path,
        opts,
        similarity,
        found,
        at,
    );
    lemma_result(
        es,
        scores,
        entries@,
        prefix_of(*opts),
        Some(sha),
        found@,
        opts.top as int,
        i,
    );
    let m = choose|m: int|
        0 <= m < es.len() && (#[trigger] es[m]).0 == found@[i].blob_sha@ && scores[m]
            == found@[i].score;
    assert(similarity_is(similarity, &q, opts.dims, es[m].1, scores[m]));
    let v = choose|v: Vec<u32>|
        v@ == es[m].1 && #[trigger] call_ensures(similarity, (&q, &v, opts.dims), scores[m]);
    assert(index.embeddings@[t].0 == sha && index.embeddings@[m].0 == found@[i].blob_sha@);
    assert(call_ensures(similarity, (&q, &v, opts.dims), found@[i].score));
}

/// The results of [`similar`] come in descending order of their scores, no more than were
/// asked for, and each file at most once.
pub proof fn law_similar_descends<F: Fn(&Vec<u32>, &Vec<u32>, usize) -> u32>(
    entries: &Vec<TreeEntry>,
    index: &EmbedIndex,
    file_path: &str,
    opts: &SearchOpts,
    similarity: F,
    found: Vec<SearchResult>,
    at: int,
)
    requires
        call_ensures(
            similar::<F>,
            (entries, index, file_path, opts, similarity),
            Ok::<Vec<SearchResult>, SimilarError>(found),
        ),
        0 <= at < entries@.len(),
        entries@[at].path@ == file_path@,
        forall|j: int| 0 <= j < at ==> (#[trigger] entries@[j]).path@ != file_path@,
    ensures
        found@.len() <= opts.top,
        forall|i: int, j: int|
            0 <= i < j < found@.len() ==> score_order((#[trigger] found@[i]).score) >= score_order(
                (#[trigger] found@[j]).score,
            ),
        (forall|i: int, j: int|
            0 <= i < j < entries@.len() ==> (#[trigger] entries@[i]).path@ != (
            #[trigger] entries@[j]).path@) && (forall|i: int, j: int|
            0 <= i < j < index.embeddings@.len() ==> (#[trigger] index.embeddings@[i]).0 != (
            #[trigger] index.embeddings@[j]).0) ==> forall|i: int, j: int|
            0 <= i < j < found@.len() ==> (#[trigger] found@[i]).path@ != (
            #[trigger] found@[j]).path@,
{
    let (q, scores, t) = lemma_similar_scores(
        entries,
        index,
        file_path,
        opts,
        similarity,
        found,
        at,
    );
    lemma_results_descend(
        index@.entries,
        scores,
        entries@,
        prefix_of(*opts),
        Some(entries@[at].blob_sha@),
        found@,
        opts.top as int,
    );
}

/// No file is missed by [`similar`]: a file of the tree of another content, whose path starts
/// with the prefix that is asked for and whose blob has an embedding, is listed with its
/// similarity; or else the list is as long as was asked for and holds no lower score.
pub proof fn law_similar_misses_nothing<F: Fn(&Vec<u32>, &Vec<u32>, usize) -> u32>(
    entries: &Vec<TreeEntry>,
    index: &EmbedIndex,
    file_path: &str,
    opts: &SearchOpts,
    similarity: F,
    found: Vec<SearchResult>,
    at: int,
    k: int,
    m: int,
)
    requires
        call_ensures(
            similar::<F>,
            (entries, index, file_path, opts, similarity),
            Ok::<Vec<SearchResult>, SimilarError>(found),
        ),
        0 <= at < entries@.len(),
        entries@[at].path@ == file_path@,
        forall|j: int| 0 <= j < at ==> (#[trigger] entries@[j]).path@ != file_path@,
        0 <= k < entries@.len(),
        entries@[k].blob_sha@ != entries@[at].blob_sha@,
        0 <= m < index.embeddings@.len(),
        index.embeddings@[m].0 == entries@[k].blob_sha@,
        opts.path matches Some(p) ==> p@.len() <= entries@[k].path@.len() && entries@[k].path@.take(
            p@.len() as int,
        ) == p@,
    ensures
        exists|t: int, q: Vec<u32>, v: Vec<u32>, score: u32|
            {
                &&& 0 <= t < index.embeddings@.len()
                &&& (#[trigger] index.embeddings@[t]).0 == entries@[at].blob_sha@
                &&& q@ == index.embeddings@[t].1
                &&& v@ == index.embeddings@[m].1
                &&& #[trigger] call_ensures(similarity, (&q, &v, opts.dims), score)
                &&& (exists|i: int|
                    0 <= i < found@.len() && (#[trigger] found@[i]).path@ == entries@[k].path@
                        && found@[i].blob_sha@ == entries@[k].blob_sha@ && found@[i].score == score)
                    || (found@.len() == opts.top && forall|i: int|
                    0 <= i < found@.len() ==> score_order((#[trigger] found@[i]).score)
                        >= score_order(score))
            },
{
    let es = index@.entries;
    let sha = entries@[at].blob_sha@;
    let (q, scores, t) = lemma_similar_scores(
        entries,
        index,
        file_path,
        opts,
        similarity,
        found,
        at,
    );
    lemma_not_missed(
        es,
        scores,
        entries@,
        prefix_of(*opts),
        Some(sha),
        found@,
        opts.top as int,
        k,
        m,
    );
    assert(es[m].0 == entries@[k].blob_sha@);
    assert(similarity_is(similarity, &q, opts.dims, es[m].1, scores[m]));
    let v = choose|v: Vec<u32>|
        v@ == es[m].1 && #[trigger] call_ensures(similarity, (&q, &v, opts.dims), scores[m]);
    assert(index.embeddings@[t].0 == sha);
    assert(call_ensures(similarity, (&q, &v, opts.dims), scores[m]));
}

/// The best of scored candidates are among the candidates, at the places that are given back,
/// with their scores, object names and paths; no more than were asked for, and all of them if
/// there are no more; in descending order of the scores; and none that is left out has a higher
/// score. Candidates of one score stay in their order, and the first of them are taken.
pub proof fn law_top_k<'a>(
    scored: Vec<(u32, &'a str, &'a str)>,
    top: usize,
    r: Vec<SearchResult>,
) -> (picks: Seq<int>)
    requires
        call_ensures(top_k_results, (scored, top), r),
    ensures
        r@.len() == (if top < scored@.len() {
            top as int
        } else {
            scored@.len() as int
        }),
        forall|i: int, j: int|
            0 <= i < j < r@.len() ==> score_order((#[trigger] r@[i]).score) >= score_order(
                (#[trigger] r@[j]).score,
            ),
        picks.len() == r@.len(),
        forall|i: int|
            0 <= i < picks.len() ==> 0 <= #[trigger] picks[i] < scored@.len() && r@[i].score
                == scored@[picks[i]].0 && r@[i].blob_sha@ == scored@[picks[i]].1@ && r@[i].path@
                == scored@[picks[i]].2@,
        forall|i: int, j: int|
            0 <= i < j < picks.len() ==> #[trigger] picks[i] != #[trigger] picks[j] && (score_order(
                r@[i].score,
            ) == score_order(r@[j].score) ==> picks[i] < picks[j]),
        forall|i: int, k: int|
            0 <= i < picks.len() && 0 <= k < scored@.len() && !picks.contains(k) ==> score_order(
                (#[trigger] r@[i]).score,
            ) >= score_order((#[trigger] scored@[k]).0) && (score_order(r@[i].score) == score_order(
                scored@[k].0,
            ) ==> picks[i] < k),
{
    let all = candidate_hits(scored@);
    let best = hits(r@);
    let keys = score_keys(all);
    let picks = choose|picks: Seq<int>| #[trigger]
        ranked(keys, picks, top as int) && best == selected(all, picks);
    assert(best.len() == r@.len());
    assert(picks.len() == r@.len());
    law_best_results(all, best, top as int);
    assert forall|i: int, j: int| 0 <= i < j < r@.len() implies score_order(
        (#[trigger] r@[i]).score,
    ) >= score_order((#[trigger] r@[j]).score) by {
        assert(best[i] == r@[i]@ && best[j] == r@[j]@);
    }
    assert forall|i: int| 0 <= i < picks.len() implies 0 <= #[trigger] picks[i] < scored@.len()
        && r@[i].score == scored@[picks[i]].0 && r@[i].blob_sha@ == scored@[picks[i]].1@
        && r@[i].path@ == scored@[picks[i]].2@ by {
        assert(best[i] == r@[i]@);
        assert(best[i] == all[picks[i]]);
    }
    assert forall|i: int, j: int| 0 <= i < j < picks.len() implies #[trigger] picks[i]
        != #[trigger] picks[j] && (score_order(r@[i].score) == score_order(r@[j].score) ==> picks[i]
        < picks[j]) by {
        assert(ranks_before(keys, picks[i], picks[j]));
        assert(best[i] == r@[i]@ && best[j] == r@[j]@);
        assert(best[i] == all[picks[i]] && best[j] == all[picks[j]]);
        assert(keys[picks[i]] == score_key(r@[i].score));
        assert(keys[picks[j]] == score_key(r@[j].score));
    }
    assert forall|i: int, k: int|
        0 <= i < picks.len() && 0 <= k < scored@.len() && !picks.contains(k) implies score_order(
        (#[trigger] r@[i]).score,
    ) >= score_order((#[trigger] scored@[k]).0) && (score_order(r@[i].score) == score_order(
        scored@[k].0,
    ) ==> picks[i] < k) by {
        assert(best[i] == r@[i]@);
        assert(best[i] == all[picks[i]]);
        assert(keys[picks[i]] == score_key(r@[i].score));
        assert(keys[k] == score_key(scored@[k].0));
        assert(ranks_before(keys, picks[i], k));
    }
    picks
}

} // verus!
