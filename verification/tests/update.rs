use git_embed::git::{GitError, TreeEntry};
use git_embed::index::empty_index;
use git_embed::report::{
    cleared_line, current_line, fmt_bytes, indexing_line, memory_line, pruned_line, saved_line,
    skipping_line, stale_line, status_text, updated_line,
};
use git_embed::text::{join_strings, split_lines, trimmed};
use git_embed::update::{
    auto_batch_size, available_memory, content_accepted, document_batches, index_batch, new_blobs, plan_update,
    prune, query_text, select_documents, update_step, Document, UpdateStep,
};

fn entry(path: &str, sha: &str) -> TreeEntry {
    TreeEntry { path: path.to_string(), blob_sha: sha.to_string() }
}

fn document(sha: &str, content: &str) -> Document {
    Document { sha: sha.to_string(), path: format!("{}.md", sha), content: content.to_string() }
}

// --- pruning and new blobs ---

#[test]
fn pruning_keeps_what_is_in_the_tree() {
    let mut idx = empty_index();
    for sha in ["a", "b", "c", "d"] {
        idx.embeddings.insert(sha.to_string(), vec![sha.len() as u32]);
    }
    let tree = vec![entry("x", "d"), entry("y", "b"), entry("z", "e")];
    assert_eq!(prune(&mut idx, &tree), 2);
    assert_eq!(idx.embeddings.len(), 2);
    assert_eq!(idx.embeddings.key_at(0), "b");
    assert_eq!(idx.embeddings.key_at(1), "d");
    assert_eq!(idx.embeddings.get("d").unwrap(), &vec![1]);
    assert_eq!(prune(&mut idx, &tree), 0);
    assert_eq!(prune(&mut idx, &vec![]), 2);
    assert!(idx.embeddings.is_empty());
}

#[test]
fn only_text_without_an_embedding_is_new() {
    let mut idx = empty_index();
    idx.embeddings.insert("known".to_string(), vec![]);
    let tree = vec![
        entry("renamed.md", "known"),
        entry("new.md", "s1"),
        entry("image.png", "s2"),
        entry("copy.md", "s1"),
        entry("Makefile", "s3"),
    ];
    let new: Vec<String> = new_blobs(&idx, &tree).into_iter().map(|e| e.path).collect();
    assert_eq!(new, vec!["new.md", "Makefile"]);
    // The first text file with a content counts, wherever other files with it stand.
    let tree = vec![entry("a.png", "s1"), entry("b.md", "s1"), entry("a.md", "s1")];
    let new = new_blobs(&idx, &tree);
    assert_eq!(new.len(), 1);
    assert_eq!(new[0].path, "b.md");
}

#[test]
fn available_memory_of_the_system() {
    let info = "MemTotal:       16303296 kB\nMemFree:  1 kB\nMemAvailable:   12 kB\nx: 7 kB\n";
    assert_eq!(available_memory(info), Some(12 * 1024));
    assert_eq!(available_memory("MemAvailable:0kB"), Some(0));
    assert_eq!(available_memory("MemAvailable: 12 MB\nMemAvailable: 1 kB\n"), None);
    assert_eq!(available_memory("MemAvailable: 1 2 kB"), None);
    assert_eq!(available_memory("MemAvailable: -1 kB"), None);
    assert_eq!(available_memory("MemAvailable: kB"), None);
    assert_eq!(available_memory("MemAvailable:"), None);
    assert_eq!(available_memory("MemTotal: 1 kB\n MemAvailable: 1 kB\n"), None);
    assert_eq!(available_memory(""), None);
    let most = u64::MAX / 1024;
    assert_eq!(available_memory(&format!("MemAvailable: {} kB", most)), Some(most * 1024));
    assert_eq!(available_memory(&format!("MemAvailable: {} kB", most + 1)), None);
    assert_eq!(available_memory("MemAvailable: 99999999999999999999999 kB"), None);
}

#[test]
fn steps_of_an_update() {
    assert_eq!(update_step(0, 0), UpdateStep::Current);
    assert_eq!(update_step(0, 3), UpdateStep::SaveOnly);
    assert_eq!(update_step(1, 0), UpdateStep::Index);
    assert_eq!(update_step(1, 3), UpdateStep::Index);
}

#[test]
fn an_update_prunes_before_it_looks_for_new_blobs() {
    let mut idx = empty_index();
    idx.embeddings.insert("gone".to_string(), vec![1]);
    idx.embeddings.insert("kept".to_string(), vec![2]);
    let tree = vec![entry("a.md", "kept"), entry("b.md", "new")];
    let plan = plan_update(&mut idx, &tree);
    assert_eq!(plan.pruned, 1);
    assert_eq!(plan.step, UpdateStep::Index);
    assert_eq!(plan.new_blobs.len(), 1);
    assert_eq!(plan.new_blobs[0].path, "b.md");
    assert_eq!(idx.embeddings.len(), 1);

    let docs = vec![document("new", "x")];
    let many = |_: &Vec<&str>| -> Result<Vec<Vec<u32>>, String> { Ok(vec![vec![3]]) };
    let one = |_: &String| -> Result<Vec<u32>, String> { Err("not asked".to_string()) };
    index_batch(&mut idx, &docs, many, one);
    let again = plan_update(&mut idx, &tree);
    assert_eq!(again.step, UpdateStep::Current);
    assert_eq!(again.pruned, 0);
}

#[test]
fn a_rename_is_free() {
    let mut idx = empty_index();
    idx.embeddings.insert("s".to_string(), vec![1]);
    let tree = vec![entry("new/name.md", "s")];
    assert!(new_blobs(&idx, &tree).is_empty());
    assert_eq!(prune(&mut idx, &tree), 0);
}

// --- documents ---

#[test]
fn content_is_neither_empty_nor_too_long() {
    assert!(!content_accepted(""));
    assert!(content_accepted("x"));
    assert!(content_accepted(&"x".repeat(102_400)));
    assert!(!content_accepted(&"x".repeat(102_401)));
    assert!(!content_accepted(&"\u{e4}".repeat(51_201)));
    assert!(content_accepted(&"\u{e4}".repeat(51_200)));
}

#[test]
fn blobs_are_sorted_out() {
    let read = vec![
        (entry("a.md", "1"), Ok("text".to_string())),
        (entry("b.md", "2"), Ok(String::new())),
        (entry("c.md", "3"), Err(GitError::NotUtf8("3".to_string()))),
        (entry("d.md", "4"), Ok("more".to_string())),
    ];
    let (docs, notes) = select_documents(&read);
    assert_eq!(docs.len(), 2);
    assert_eq!((docs[0].sha.as_str(), docs[0].path.as_str()), ("1", "a.md"));
    assert_eq!(docs[1].content, "more");
    assert_eq!(notes, vec!["  ✗ b.md (skipped: size)", "  ✗ c.md: blob 3 is not valid UTF-8"]);
}

#[test]
fn documents_go_in_batches() {
    let docs = |n: usize| (0..n).map(|i| document(&i.to_string(), "x")).collect::<Vec<_>>();
    let sizes = |n: usize, size: usize| {
        document_batches(docs(n), size).iter().map(|b| b.len()).collect::<Vec<_>>()
    };
    assert_eq!(sizes(0, 32), Vec::<usize>::new());
    assert_eq!(sizes(32, 32), vec![32]);
    assert_eq!(sizes(70, 32), vec![32, 32, 6]);
    assert_eq!(sizes(3, 1), vec![1, 1, 1]);
    let batches = document_batches(docs(5), 2);
    assert_eq!(batches[2][0].sha, "4");
}

#[test]
fn batch_size_follows_the_memory() {
    let mib: u64 = 1 << 20;
    assert_eq!(auto_batch_size(0), 1);
    assert_eq!(auto_batch_size(1024 * mib), 1);
    assert_eq!(auto_batch_size((800 + 256 + 180) * mib), 2);
    assert_eq!(auto_batch_size((800 + 256 + 180) * mib - 1), 1);
    assert_eq!(auto_batch_size((800 + 256 + 360) * mib), 4);
    assert_eq!(auto_batch_size(4096 * mib), 32);
    assert_eq!(auto_batch_size(u64::MAX), 32);
}

#[test]
fn a_batch_is_stored() {
    let mut idx = empty_index();
    idx.embeddings.insert("old".to_string(), vec![9]);
    let docs = vec![document("s1", "one"), document("s2", "three")];
    let many = |texts: &Vec<&str>| -> Result<Vec<Vec<u32>>, String> {
        Ok(texts.iter().map(|t| vec![t.len() as u32]).collect())
    };
    let one = |_: &String| -> Result<Vec<u32>, String> { Err("not asked".to_string()) };
    let outcome = index_batch(&mut idx, &docs, many, one);
    assert!(outcome.batch_error.is_none());
    assert_eq!(outcome.errors, vec![None, None]);
    assert_eq!(idx.embeddings.len(), 3);
    assert_eq!(idx.embeddings.get("s2").unwrap(), &vec![5]);
    assert_eq!(idx.embeddings.get("old").unwrap(), &vec![9]);
}

#[test]
fn a_failed_batch_falls_back_to_single_documents() {
    let mut idx = empty_index();
    let docs = vec![document("s1", "good"), document("s2", "bad"), document("s3", "fine!")];
    let many = |_: &Vec<&str>| -> Result<Vec<Vec<u32>>, String> { Err("batch".to_string()) };
    let one = |text: &String| -> Result<Vec<u32>, String> {
        if text == "bad" {
            Err("single".to_string())
        } else {
            Ok(vec![text.len() as u32])
        }
    };
    let outcome = index_batch(&mut idx, &docs, many, one);
    assert_eq!(outcome.batch_error, Some("batch".to_string()));
    assert_eq!(outcome.errors, vec![None, Some("single".to_string()), None]);
    assert_eq!(idx.embeddings.len(), 2);
    assert_eq!(idx.embeddings.get("s3").unwrap(), &vec![5]);
    assert!(!idx.embeddings.contains_key("s2"));
}

#[test]
fn batches_store_what_all_documents_at_once_store() {
    let docs = || -> Vec<Document> {
        (0..11).map(|i| document(&format!("s{}", i), &"x".repeat(i + 1))).collect()
    };
    // Every batch with a text of five characters fails, and that text on its own too.
    let many = |texts: &Vec<&str>| -> Result<Vec<Vec<u32>>, String> {
        if texts.iter().any(|t| t.len() == 5) {
            Err("batch".to_string())
        } else {
            Ok(texts.iter().map(|t| vec![t.len() as u32]).collect())
        }
    };
    let one = |text: &String| -> Result<Vec<u32>, String> {
        if text.len() == 5 {
            Err("single".to_string())
        } else {
            Ok(vec![text.len() as u32])
        }
    };
    let start = || {
        let mut idx = empty_index();
        for sha in ["kept", "gone", "s3"] {
            idx.embeddings.insert(sha.to_string(), vec![77]);
        }
        let mut tree: Vec<TreeEntry> = vec![entry("kept.md", "kept")];
        tree.extend((0..11).map(|i| entry(&format!("{}.md", i), &format!("s{}", i))));
        prune(&mut idx, &tree);
        idx
    };
    let mut whole = start();
    index_batch(&mut whole, &docs(), many, one);
    for size in 1..14 {
        let mut idx = start();
        for batch in document_batches(docs(), size) {
            index_batch(&mut idx, &batch, many, one);
        }
        assert_eq!(idx.embeddings.len(), 11);
        for i in 0..idx.embeddings.len() {
            assert_eq!(idx.embeddings.key_at(i), whole.embeddings.key_at(i));
            let sha = idx.embeddings.key_at(i).to_string();
            assert_eq!(idx.embeddings.get(&sha), whole.embeddings.get(&sha));
        }
        assert_eq!(idx.embeddings.get("kept").unwrap(), &vec![77]);
        assert_eq!(idx.embeddings.get("s3").unwrap(), &vec![4]);
        assert!(!idx.embeddings.contains_key("gone"));
        assert!(!idx.embeddings.contains_key("s4"));
    }
}

#[test]
fn no_content_is_embedded_twice() {
    let tree = vec![entry("a.md", "s1"), entry("b.md", "s2"), entry("c.md", "s1"), entry("d.md", "s3")];
    let idx = empty_index();
    let read: Vec<(TreeEntry, Result<String, GitError>)> = new_blobs(&idx, &tree)
        .into_iter()
        .map(|e| {
            let content = if e.blob_sha == "s2" { String::new() } else { "x".to_string() };
            (e, Ok(content))
        })
        .collect();
    let (docs, notes) = select_documents(&read);
    let shas: Vec<&str> = docs.iter().map(|d| d.sha.as_str()).collect();
    assert_eq!(shas, vec!["s1", "s3"]);
    assert_eq!(notes.len(), 1);
}

#[test]
fn words_make_a_query() {
    assert_eq!(query_text(&vec![]), None);
    assert_eq!(query_text(&vec!["one".to_string()]), Some("one".to_string()));
    assert_eq!(
        query_text(&vec!["market".to_string(), "regime".to_string(), String::new()]),
        Some("market regime ".to_string())
    );
}

// --- reports ---

#[test]
fn bytes_are_formatted_like_floats() {
    let expected = |bytes: u64| {
        if bytes >= 1_073_741_824 {
            format!("{:.2} GiB", bytes as f64 / 1_073_741_824.0)
        } else if bytes >= 1_048_576 {
            format!("{:.2} MiB", bytes as f64 / 1_048_576.0)
        } else if bytes >= 1024 {
            format!("{:.1} KiB", bytes as f64 / 1024.0)
        } else {
            format!("{} B", bytes)
        }
    };
    let mut cases: Vec<u64> = vec![
        0,
        999,
        1023,
        1024,
        1536,
        1_048_575,
        1_048_576,
        1_073_741_823,
        1_073_741_824,
        (1 << 53) - 1,
        1 << 53,
        (1 << 53) + 1,
        (1 << 53) + 3,
        u64::MAX,
        u64::MAX - 1023,
        u64::MAX - 1024,
        u64::MAX - 1025,
    ];
    // Ties between two decimals.
    for k in 0..64 {
        cases.push(1024 + k * 128 + 51);
        cases.push(1024 + 256 * k);
        cases.push(1_048_576 + 131_072 * k);
        cases.push(1_073_741_824 + 134_217_728 * k);
        cases.push((1 << 40) + 671_088_640 * k + 5_368_709 * (k % 2));
    }
    let mut seed: u64 = 7;
    for i in 0..2000 {
        seed = seed.wrapping_mul(6364136223846793005).wrapping_add(1442695040888963407);
        cases.push(seed >> (i % 60));
    }
    for bytes in cases {
        assert_eq!(fmt_bytes(bytes), expected(bytes), "{} bytes", bytes);
    }
}

#[test]
fn bytes_in_each_unit() {
    assert_eq!(fmt_bytes(1023), "1023 B");
    assert_eq!(fmt_bytes(1536), "1.5 KiB");
    assert_eq!(fmt_bytes(1280), "1.2 KiB");
    assert_eq!(fmt_bytes(1_048_575), "1024.0 KiB");
    assert_eq!(fmt_bytes(13_631_488), "13.00 MiB");
    assert_eq!(fmt_bytes(3_758_096_384), "3.50 GiB");
    assert_eq!(
        memory_line(1536, 1_073_741_824, 42),
        "Memory: 1.5 KiB peak, 1.00 GiB total across 42 allocations"
    );
}

#[test]
fn lines_of_the_commands() {
    assert_eq!(current_line(), "Index is current, nothing to update.");
    assert_eq!(stale_line(3), "Pruned 3 stale embeddings");
    assert_eq!(indexing_line(10), "Indexing 10 new blobs");
    assert_eq!(skipping_line(2), "Skipping 2 blobs (empty or >100KB)");
    assert_eq!(saved_line(7), "Index updated: 7 embeddings");
    assert_eq!(updated_line(12, 5, 0), "Index updated: 12 embeddings (+5, -0)");
    assert_eq!(pruned_line(0), "Pruned 0 unreferenced embeddings");
    assert_eq!(cleared_line(true), "Index cleared.");
    assert_eq!(cleared_line(false), "No index found.");
    let mut idx = empty_index();
    idx.embeddings.insert("x".to_string(), vec![]);
    assert_eq!(
        status_text(&idx, 20),
        "Model:   nomic-embed-text-v1.5\nIndexed: 1 / 20 blobs\nDims:    768\nRef:     refs/embed/v1/index"
    );
}

// --- text ---

#[test]
fn text_helpers_agree_with_std() {
    let samples = [
        "",
        "\n",
        "\r\n",
        "a",
        "a\n",
        "a\r",
        "a\r\r\nb\n\nc",
        " \u{a0}x\u{2003}y \t\u{85}",
        "\u{200b} z",
        "\u{3000}\u{2028}\u{1680}",
    ];
    for s in samples {
        assert_eq!(split_lines(s), s.lines().collect::<Vec<_>>(), "{:?}", s);
        assert_eq!(trimmed(s), s.trim(), "{:?}", s);
    }
    let mut spaces = String::new();
    for n in 0..0x11_0000u32 {
        if let Some(c) = char::from_u32(n) {
            if c.is_whitespace() {
                spaces.push(c);
            } else {
                assert!(!git_embed::text::is_white_space(c));
            }
        }
    }
    assert_eq!(trimmed(&spaces), "");
    let parts = vec!["a".to_string(), String::new(), "b".to_string()];
    assert_eq!(join_strings(&parts, ", "), parts.join(", "));
}
