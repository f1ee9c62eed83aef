use git_embed::git::{
    blob_id, blob_sha_to_paths, read_blob, repo_start, text_blob, walk_tree, GitError, HeadLookup,
    TreeEntry, WalkItem, EMBED_REF,
};

fn blob(dir: &str, name: &str, content: &str) -> WalkItem {
    let oid = git2::Oid::hash_object(git2::ObjectType::Blob, content.as_bytes()).unwrap();
    WalkItem {
        is_blob: true,
        dir: dir.to_string(),
        name: Some(name.to_string()),
        sha: oid.to_string(),
    }
}

fn tree(dir: &str, name: &str) -> WalkItem {
    WalkItem {
        is_blob: false,
        dir: dir.to_string(),
        name: Some(name.to_string()),
        sha: "4b825dc642cb6eb9a060e54bf8d69288fbee4904".to_string(),
    }
}

fn entries(items: Vec<WalkItem>) -> Vec<TreeEntry> {
    walk_tree(HeadLookup::Found, &items).ok().unwrap()
}

// --- text_blob ---

#[test]
fn text_blob_recognizes_extensions() {
    assert!(text_blob("src/main.rs"));
    assert!(text_blob("README.md"));
    assert!(text_blob("config.yaml"));
    assert!(text_blob("Dockerfile.dockerfile"));
    assert!(text_blob(".gitignore"));
}

#[test]
fn text_blob_case_insensitive() {
    assert!(text_blob("FILE.RS"));
    assert!(text_blob("notes.TXT"));
    assert!(text_blob("App.Jsx"));
}

#[test]
fn text_blob_no_extension_is_text() {
    assert!(text_blob("Makefile"));
    assert!(text_blob("LICENSE"));
}

#[test]
fn text_blob_rejects_binary() {
    assert!(!text_blob("image.png"));
    assert!(!text_blob("archive.zip"));
    assert!(!text_blob("model.onnx"));
}

#[test]
fn text_blob_multi_dot_uses_last_extension() {
    assert!(!text_blob("archive.tar.gz"));
    assert!(text_blob("src.bak/main.rs"));
}

#[test]
fn text_blob_edge_cases() {
    assert!(text_blob(""));
    assert!(!text_blob("file."));
    assert!(text_blob("src.bak/Makefile"));
    assert!(text_blob("v1.0/LICENSE"));
    assert!(!text_blob("docs.md/logo.png"));
    assert!(text_blob("a.png/"));
    assert!(!text_blob("image.md "));
    assert!(text_blob("x.editorconfig"));
    // The Kelvin sign is a capital k.
    assert!(text_blob("App.\u{212a}t"));
    assert!(text_blob("App.rKT.kt"));
    assert!(!text_blob("x.r\u{e4}"));
}

#[test]
fn text_blob_lower_case_agrees_with_std() {
    let known = [".kt", ".rkt", ".md", ".c", ".org"];
    for c in ['A', 'K', 'Z', 'a', '\u{212a}', '\u{130}', '\u{c4}', '\u{3a3}', '1'] {
        for e in known {
            let path = format!("f{}", e.replace('k', &c.to_string()));
            let dot = path.rfind('.').unwrap();
            let expected = known.contains(&path[dot..].to_lowercase().as_str());
            assert_eq!(text_blob(&path), expected, "{}", path);
        }
    }
}

// --- find_repo ---

/// The repository is searched from the path that is given.
#[test]
fn test_find_repo_with_explicit_path() {
    let dir = "/home/user/project";
    assert_eq!(repo_start(None, Some(dir), "/home/user"), dir);
}

#[test]
fn repo_start_prefers_the_environment() {
    assert_eq!(repo_start(Some("/env"), Some("/path"), "/cwd"), "/env");
    assert_eq!(repo_start(Some("/env"), None, "/cwd"), "/env");
    assert_eq!(repo_start(None, Some("/path"), "/cwd"), "/path");
    assert_eq!(repo_start(None, None, "/cwd"), "/cwd");
}

#[test]
fn the_index_has_its_ref() {
    assert_eq!(EMBED_REF, "refs/embed/v1/index");
}

// --- walk_tree ---

#[test]
fn test_walk_tree_empty_repo() {
    assert!(walk_tree(HeadLookup::UnbornBranch, &vec![]).ok().unwrap().is_empty());
    assert!(walk_tree(HeadLookup::NotFound, &vec![]).ok().unwrap().is_empty());
}

#[test]
fn test_walk_tree_returns_blobs() {
    let entries = entries(vec![
        blob("", "README.md", "hello world"),
        blob("", "main.rs", "fn main() {}"),
    ]);
    assert_eq!(entries.len(), 2);
    let paths: Vec<&str> = entries.iter().map(|e| e.path.as_str()).collect();
    assert!(paths.contains(&"README.md"));
    assert!(paths.contains(&"main.rs"));
}

#[test]
fn test_walk_tree_includes_nested_files() {
    let entries = entries(vec![
        tree("", "src"),
        blob("src/", "lib.rs", "pub fn x() {}"),
        blob("", "top.txt", "top level"),
    ]);
    let paths: Vec<&str> = entries.iter().map(|e| e.path.as_str()).collect();
    assert_eq!(paths, vec!["src/lib.rs", "top.txt"]);
}

#[test]
fn test_walk_tree_sha_is_hex() {
    let entries = entries(vec![blob("", "a.txt", "content")]);
    assert_eq!(entries.len(), 1);
    assert_eq!(entries[0].blob_sha.len(), 40);
    assert!(entries[0].blob_sha.chars().all(|c| c.is_ascii_hexdigit()));
}

#[test]
fn walk_tree_fails_without_head() {
    let e = walk_tree(HeadLookup::Failed, &vec![]).err().unwrap();
    assert_eq!(e.message(), "failed to resolve HEAD");
}

#[test]
fn walk_tree_takes_an_unreadable_name_as_empty() {
    let mut item = blob("dir/", "x", "content");
    item.name = None;
    assert_eq!(entries(vec![item])[0].path, "dir/");
}

// --- read_blob ---

#[test]
fn test_read_blob_returns_content() {
    let entries = entries(vec![blob("", "hello.txt", "hello world")]);
    let content = read_blob(&entries[0].blob_sha, Some("hello world".as_bytes())).ok().unwrap();
    assert_eq!(content, "hello world");
}

#[test]
fn test_read_blob_invalid_sha() {
    let result = read_blob("not-a-sha", Some(&[]));
    assert!(result.is_err());
    assert_eq!(result.err().unwrap().message(), "invalid SHA: 'not-a-sha'");
}

#[test]
fn test_read_blob_nonexistent_sha() {
    let result = read_blob("0000000000000000000000000000000000000000", None);
    assert!(result.is_err());
    assert_eq!(
        result.err().unwrap().message(),
        "blob not found: 0000000000000000000000000000000000000000"
    );
}

#[test]
fn read_blob_rejects_bytes_that_are_not_text() {
    let result = read_blob("abc", Some(&[0xff, 0xfe]));
    assert!(matches!(result, Err(GitError::NotUtf8(_))));
    assert_eq!(result.err().unwrap().message(), "blob abc is not valid UTF-8");
}

#[test]
fn blob_id_parses_hexadecimal_digits() {
    let full = blob_id("00ff10ABcdef0123456789abcdef0123456789aB").ok().unwrap();
    assert_eq!(
        full,
        vec![
            0x00, 0xff, 0x10, 0xab, 0xcd, 0xef, 0x01, 0x23, 0x45, 0x67, 0x89, 0xab, 0xcd, 0xef,
            0x01, 0x23, 0x45, 0x67, 0x89, 0xab
        ]
    );
    let mut odd = vec![0u8; 20];
    odd[0] = 0xab;
    odd[1] = 0xc0;
    assert_eq!(blob_id("abc").ok().unwrap(), odd);
    assert!(blob_id("").is_err());
    assert!(blob_id("00ff10ABcdef0123456789abcdef0123456789aB0").is_err());
    assert!(blob_id("xyz").is_err());
    assert!(blob_id("ab\u{e4}").is_err());
}

// --- blob_sha_to_paths ---

#[test]
fn test_blob_sha_to_paths_maps_correctly() {
    let entries = entries(vec![
        blob("", "a.txt", "content A"),
        blob("", "b.txt", "content B"),
    ]);
    let map = blob_sha_to_paths(&entries);
    assert_eq!(map.len(), 2);
    for i in 0..map.len() {
        assert_eq!(map.value_at(i).len(), 1);
    }
}

#[test]
fn test_blob_sha_to_paths_duplicate_content() {
    let entries = entries(vec![
        blob("", "a.txt", "same content"),
        blob("", "b.txt", "same content"),
    ]);
    let map = blob_sha_to_paths(&entries);
    assert_eq!(map.len(), 1);
    assert_eq!(map.value_at(0).len(), 2);
    assert_eq!(map.get(&entries[0].blob_sha).unwrap(), &vec!["a.txt", "b.txt"]);
    assert!(map.get("none").is_none());
}
