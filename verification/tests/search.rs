use git_embed::git::TreeEntry;
use git_embed::index::{empty_index, EmbedIndex};
use git_embed::order::rank;
use git_embed::search::{search, search_scored, similar, top_k_results, SearchOpts};

fn bits(v: &[f32]) -> Vec<u32> {
    v.iter().map(|x| x.to_bits()).collect()
}

fn cosine(a: &Vec<u32>, b: &Vec<u32>, dims: usize) -> u32 {
    let n = dims.min(a.len()).min(b.len());
    let (mut dot, mut na, mut nb) = (0.0f32, 0.0f32, 0.0f32);
    for i in 0..n {
        let (x, y) = (f32::from_bits(a[i]), f32::from_bits(b[i]));
        dot += x * y;
        na += x * x;
        nb += y * y;
    }
    let denom = na.sqrt() * nb.sqrt();
    (if denom == 0.0 { 0.0 } else { dot / denom }).to_bits()
}

fn tree_with_index(
    files: &[(&str, &str)],
    embeddings: &[(&str, Vec<f32>)],
) -> (Vec<TreeEntry>, EmbedIndex) {
    let entries: Vec<TreeEntry> = files
        .iter()
        .map(|(path, content)| TreeEntry {
            path: path.to_string(),
            blob_sha: git2::Oid::hash_object(git2::ObjectType::Blob, content.as_bytes())
                .unwrap()
                .to_string(),
        })
        .collect();
    let mut idx = empty_index();
    idx.dims = 3;
    for (path, vec) in embeddings {
        let sha = entries.iter().find(|e| e.path == *path).unwrap().blob_sha.clone();
        idx.embeddings.insert(sha, bits(vec));
    }
    (entries, idx)
}

#[test]
fn test_search_returns_sorted_results() {
    let (entries, idx) = tree_with_index(
        &[("a.txt", "alpha"), ("b.txt", "beta"), ("c.txt", "gamma")],
        &[
            ("a.txt", vec![1.0, 0.0, 0.0]),
            ("b.txt", vec![0.9, 0.1, 0.0]),
            ("c.txt", vec![0.0, 1.0, 0.0]),
        ],
    );
    let query = bits(&[1.0, 0.0, 0.0]);
    let opts = SearchOpts { dims: 3, top: 10, path: None };
    let results = search(&entries, &idx, &query, &opts, cosine);

    assert_eq!(results.len(), 3);
    assert_eq!(results[0].path, "a.txt");
    let scores: Vec<f32> = results.iter().map(|r| f32::from_bits(r.score)).collect();
    assert!((scores[0] - 1.0).abs() < 1e-6);
    assert!(scores[0] >= scores[1]);
    assert!(scores[1] >= scores[2]);
}

#[test]
fn test_search_respects_top() {
    let (entries, idx) = tree_with_index(
        &[("a.txt", "alpha"), ("b.txt", "beta"), ("c.txt", "gamma")],
        &[
            ("a.txt", vec![1.0, 0.0, 0.0]),
            ("b.txt", vec![0.9, 0.1, 0.0]),
            ("c.txt", vec![0.0, 1.0, 0.0]),
        ],
    );
    let query = bits(&[1.0, 0.0, 0.0]);
    let opts = SearchOpts { dims: 3, top: 1, path: None };
    let results = search(&entries, &idx, &query, &opts, cosine);
    assert_eq!(results.len(), 1);
    assert_eq!(results[0].path, "a.txt");

    let none = SearchOpts { dims: 3, top: 0, path: None };
    assert!(search(&entries, &idx, &query, &none, cosine).is_empty());
}

#[test]
fn test_search_path_filter() {
    let (entries, idx) = tree_with_index(
        &[("a.txt", "alpha"), ("b.txt", "beta")],
        &[("a.txt", vec![1.0, 0.0, 0.0]), ("b.txt", vec![1.0, 0.0, 0.0])],
    );
    let query = bits(&[1.0, 0.0, 0.0]);
    let opts = SearchOpts { dims: 3, top: 10, path: Some("a".to_string()) };
    let results = search(&entries, &idx, &query, &opts, cosine);
    assert_eq!(results.len(), 1);
    assert_eq!(results[0].path, "a.txt");
}

#[test]
fn test_search_empty_index() {
    let idx = empty_index();
    let query = bits(&[1.0, 0.0, 0.0]);
    let opts = SearchOpts::default();
    let results = search(&vec![], &idx, &query, &opts, cosine);
    assert!(results.is_empty());
}

#[test]
fn test_search_stale_embedding_excluded() {
    let (entries, mut idx) =
        tree_with_index(&[("a.txt", "alpha")], &[("a.txt", vec![1.0, 0.0, 0.0])]);
    idx.embeddings.insert(
        "deadbeef00000000000000000000000000000000".to_string(),
        bits(&[1.0, 0.0, 0.0]),
    );
    let query = bits(&[1.0, 0.0, 0.0]);
    let opts = SearchOpts { dims: 3, top: 10, path: None };
    let results = search(&entries, &idx, &query, &opts, cosine);
    assert_eq!(results.len(), 1);
    assert_eq!(results[0].path, "a.txt");
}

#[test]
fn search_lists_every_path_of_a_blob() {
    let (entries, idx) = tree_with_index(
        &[("x/a.txt", "same"), ("b.txt", "beta"), ("y/c.txt", "same")],
        &[("b.txt", vec![0.5, 0.5, 0.0]), ("x/a.txt", vec![1.0, 0.0, 0.0])],
    );
    let opts = SearchOpts { dims: 3, top: 10, path: None };
    let results = search(&entries, &idx, &bits(&[1.0, 0.0, 0.0]), &opts, cosine);
    let paths: Vec<&str> = results.iter().map(|r| r.path.as_str()).collect();
    assert_eq!(paths, vec!["x/a.txt", "y/c.txt", "b.txt"]);
    assert_eq!(results[0].blob_sha, entries[0].blob_sha);
}

#[test]
fn search_hands_the_dimensions_on() {
    let (entries, idx) =
        tree_with_index(&[("a.txt", "alpha")], &[("a.txt", vec![1.0, 0.0, 9.0])]);
    let opts = SearchOpts { dims: 2, top: 1, path: None };
    let results = search(&entries, &idx, &bits(&[1.0, 0.0, -9.0]), &opts, cosine);
    assert_eq!(f32::from_bits(results[0].score), 1.0);
}

#[test]
fn test_similar_excludes_self() {
    let (entries, idx) = tree_with_index(
        &[("a.txt", "alpha"), ("b.txt", "beta")],
        &[("a.txt", vec![1.0, 0.0, 0.0]), ("b.txt", vec![0.9, 0.1, 0.0])],
    );
    let opts = SearchOpts { dims: 3, top: 10, path: None };
    let results = similar(&entries, &idx, "a.txt", &opts, cosine).ok().unwrap();
    assert!(results.iter().all(|r| r.path != "a.txt"));
    assert_eq!(results.len(), 1);
    assert_eq!(results[0].path, "b.txt");
}

#[test]
fn test_similar_file_not_found() {
    let (entries, idx) =
        tree_with_index(&[("a.txt", "alpha")], &[("a.txt", vec![1.0, 0.0, 0.0])]);
    let opts = SearchOpts::default();
    let result = similar(&entries, &idx, "nonexistent.txt", &opts, cosine);
    assert!(result.is_err());
    let message = result.err().unwrap().message();
    assert!(message.contains("not found"));
    assert_eq!(message, "File not found in tree: nonexistent.txt");
}

#[test]
fn test_similar_file_not_indexed() {
    let (entries, idx) = tree_with_index(
        &[("a.txt", "alpha"), ("b.txt", "beta")],
        &[("a.txt", vec![1.0, 0.0, 0.0])],
    );
    let opts = SearchOpts::default();
    let result = similar(&entries, &idx, "b.txt", &opts, cosine);
    assert!(result.is_err());
    let message = result.err().unwrap().message();
    assert!(message.contains("not indexed"));
    assert_eq!(message, "File not indexed: b.txt");
}

#[test]
fn similar_is_a_search_without_the_same_content() {
    let files = [
        ("a.txt", "alpha"),
        ("b.txt", "beta"),
        ("copy.txt", "alpha"),
        ("c.txt", "gamma"),
        ("b2.txt", "beta"),
    ];
    let (entries, idx) = tree_with_index(
        &files,
        &[
            ("a.txt", vec![1.0, 0.0, 0.0]),
            ("b.txt", vec![0.5, 0.5, 0.0]),
            ("c.txt", vec![0.9, 0.1, 0.0]),
        ],
    );
    let all = SearchOpts { dims: 3, top: 10, path: None };
    let own = idx.embeddings.get(&entries[0].blob_sha).unwrap().clone();
    let found = search(&entries, &idx, &own, &all, cosine);
    assert_eq!(found.len(), 5);
    let rest: Vec<(u32, String)> = found
        .iter()
        .filter(|r| r.blob_sha != entries[0].blob_sha)
        .map(|r| (r.score, r.path.clone()))
        .collect();
    assert_eq!(rest.len(), 3);
    for top in 0..5 {
        let opts = SearchOpts { dims: 3, top, path: None };
        let results: Vec<(u32, String)> = similar(&entries, &idx, "a.txt", &opts, cosine)
            .ok()
            .unwrap()
            .into_iter()
            .map(|r| (r.score, r.path))
            .collect();
        assert_eq!(results, rest[..top.min(3)].to_vec());
    }
}

#[test]
fn default_options() {
    let opts = SearchOpts::default();
    assert_eq!(opts.dims, 768);
    assert_eq!(opts.top, 10);
    assert!(opts.path.is_none());
}

#[test]
fn top_k_orders_scores_like_floats() {
    let scores = [
        -0.0f32,
        0.5,
        f32::INFINITY,
        -1.0,
        f32::NEG_INFINITY,
        0.0,
        f32::MIN_POSITIVE / 2.0,
        -2.0,
        0.25,
        f32::NAN,
    ];
    let names: Vec<String> = (0..scores.len()).map(|i| format!("p{}", i)).collect();
    let scored: Vec<(u32, &str, &str)> = scores
        .iter()
        .zip(&names)
        .map(|(s, n)| (s.to_bits(), "sha", n.as_str()))
        .collect();
    let all = top_k_results(scored.clone(), 100);
    let order: Vec<&str> = all.iter().map(|r| r.path.as_str()).collect();
    // The two zeros are equal and stay in order; what is no number comes last.
    assert_eq!(order, vec!["p2", "p1", "p8", "p6", "p0", "p5", "p3", "p7", "p4", "p9"]);
    for k in 0..scores.len() {
        let top: Vec<String> =
            top_k_results(scored.clone(), k).into_iter().map(|r| r.path).collect();
        assert_eq!(top, order[..k]);
    }
}

#[test]
fn top_k_agrees_with_a_full_sort() {
    let mut seed: u32 = 1;
    let mut scored: Vec<(u32, String)> = Vec::new();
    for i in 0..200 {
        seed = seed.wrapping_mul(1664525).wrapping_add(1013904223);
        let score = ((seed >> 24) as f32 - 128.0) / 16.0;
        scored.push((score.to_bits(), format!("{:03}", i)));
    }
    let mut sorted: Vec<(f32, String)> =
        scored.iter().map(|(s, p)| (f32::from_bits(*s), p.clone())).collect();
    sorted.sort_by(|a, b| b.0.partial_cmp(&a.0).unwrap());
    let input: Vec<(u32, &str, &str)> =
        scored.iter().map(|(s, p)| (*s, "x", p.as_str())).collect();
    let top = top_k_results(input, 50);
    assert_eq!(top.len(), 50);
    for i in 0..50 {
        assert_eq!(top[i].path, sorted[i].1);
        assert_eq!(f32::from_bits(top[i].score), sorted[i].0);
        assert_eq!(top[i].blob_sha, "x");
    }
}

#[test]
fn search_scored_takes_the_scores_as_given() {
    let (entries, idx) = tree_with_index(
        &[("a.txt", "alpha"), ("b.txt", "beta")],
        &[("a.txt", vec![]), ("b.txt", vec![])],
    );
    let opts = SearchOpts { dims: 3, top: 10, path: None };
    let scores = bits(&[0.25, 0.75]);
    let all = search_scored(&entries, &idx, &scores, None, &opts);
    assert_eq!(all[0].path, "b.txt");
    assert_eq!(all[1].path, "a.txt");
    let rest = search_scored(&entries, &idx, &scores, Some(&entries[1].blob_sha), &opts);
    assert_eq!(rest.len(), 1);
    assert_eq!(rest[0].path, "a.txt");
}

#[test]
fn rank_is_stable() {
    assert_eq!(rank(&vec![3, 1, 2, 1, 3], 5), vec![1, 3, 2, 0, 4]);
    assert_eq!(rank(&vec![3, 1, 2, 1, 3], 3), vec![1, 3, 2]);
    assert_eq!(rank(&vec![3, 1], 0), Vec::<usize>::new());
    assert_eq!(rank(&vec![], 7), Vec::<usize>::new());
}
