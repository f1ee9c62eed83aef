//! The repository as the index sees it: tree entries, text files, object names.

use crate::lists::lemma_filter_picks;
use crate::sha_map::{has_key, listed, place_of, put, unique_keys, ShaMap};
use crate::text::{chars_of, concat, same_text};
use crate::wire::{bytes_of, text_of};
use vstd::prelude::*;
use vstd::utf8::{decode_utf8, decode_utf8_encode_utf8, encode_utf8, valid_utf8};

verus! {

/// The ref path where the embedding index is stored.
pub const EMBED_REF: &'static str = "refs/embed/v1/index";

// ---------------------------------------------------------------------------
// Where to look for the repository
// ---------------------------------------------------------------------------

/// The directory from which the repository is searched: the one that the environment
/// names, or else the given path, or else the current directory.
pub fn repo_start(env_cwd: Option<&str>, path: Option<&str>, current_dir: &str) -> (r: String)
    ensures
        r@ == (match (env_cwd, path) {
            (Some(e), _) => e@,
            (None, Some(p)) => p@,
            (None, None) => current_dir@,
        }),
{
    match env_cwd {
        Some(e) => e.to_string(),
        None => match path {
            Some(p) => p.to_string(),
            None => current_dir.to_string(),
        },
    }
}

// ---------------------------------------------------------------------------
// Tree entries
// ---------------------------------------------------------------------------

/// A blob entry from the repository tree.
pub struct TreeEntry {
    pub path: String,
    pub blob_sha: String,
}

/// The path and the object name of a blob.
pub struct Blob {
    pub path: Seq<char>,
    pub sha: Seq<char>,
}

impl View for TreeEntry {
    type V = Blob;

    open spec fn view(&self) -> Blob {
        Blob { path: self.path@, sha: self.blob_sha@ }
    }
}

/// The blobs of a list of tree entries.
pub open spec fn blobs(entries: Seq<TreeEntry>) -> Seq<Blob> {
    Seq::new(entries.len(), |i: int| entries[i]@)
}

impl Clone for TreeEntry {
    fn clone(&self) -> (r: Self)
        ensures
            r@ == self@,
    {
        TreeEntry { path: self.path.clone(), blob_sha: self.blob_sha.clone() }
    }
}

/// One step of a walk over the tree of `HEAD`.
pub struct WalkItem {
    /// Is the object a blob?
    pub is_blob: bool,
    /// The directory of the object, empty at the top, else with a trailing slash.
    pub dir: String,
    /// The name of the object in its directory, if it is text.
    pub name: Option<String>,
    /// The object name.
    pub sha: String,
}

/// What became of the attempt to resolve `HEAD`.
#[derive(Clone, Copy, PartialEq, Eq, Structural, Debug)]
pub enum HeadLookup {
    Found,
    UnbornBranch,
    NotFound,
    Failed,
}

/// The blob that a step of the walk meets.
pub open spec fn item_blob(item: WalkItem) -> Blob {
    Blob {
        path: item.dir@ + (match item.name {
            Some(n) => n@,
            None => seq![],
        }),
        sha: item.sha@,
    }
}

/// The blobs that a walk meets, in order.
pub open spec fn walked_blobs(items: Seq<WalkItem>) -> Seq<Blob> {
    items.filter(|item: WalkItem| item.is_blob).map_values(|item: WalkItem| item_blob(item))
}

/// The blob entries of the `HEAD` tree, given how `HEAD` resolved and what the walk over
/// its tree met.
///
/// There are none if `HEAD` does not exist (empty repository).
pub fn walk_tree(head: HeadLookup, items: &Vec<WalkItem>) -> (r: Result<Vec<TreeEntry>, GitError>)
    ensures
        match head {
            HeadLookup::Found => r matches Ok(es) && blobs(es@) == walked_blobs(items@),
            HeadLookup::UnbornBranch => r matches Ok(es) && es@.len() == 0,
            HeadLookup::NotFound => r matches Ok(es) && es@.len() == 0,
            HeadLookup::Failed => r matches Err(e) && e is Head,
        },
{
    match head {
        HeadLookup::Found => (),
        HeadLookup::UnbornBranch => return Ok(Vec::new()),
        HeadLookup::NotFound => return Ok(Vec::new()),
        HeadLookup::Failed => return Err(GitError::Head),
    }
    let mut entries: Vec<TreeEntry> = Vec::new();
    let mut i: usize = 0;
    proof {
        reveal(Seq::filter);
        assert(blobs(entries@) =~= walked_blobs(items@.take(0)));
    }
    while i < items.len()
        invariant
            i <= items@.len(),
            blobs(entries@) == walked_blobs(items@.take(i as int)),
        decreases items@.len() - i,
    {
        let ghost before = entries@;
        let ghost pred = |item: WalkItem| item.is_blob;
        proof {
            reveal(Seq::filter);
            assert(items@.take(i + 1).drop_last() =~= items@.take(i as int));
        }
        if items[i].is_blob {
            let path: String = match &items[i].name {
                Some(n) => concat(items[i].dir.as_str(), n.as_str()),
                None => items[i].dir.clone(),
            };
            assert(path@ =~= item_blob(items@[i as int]).path);
            entries.push(TreeEntry { path: path, blob_sha: items[i].sha.clone() });
            assert(blobs(entries@) =~= blobs(before).push(item_blob(items@[i as int])));
        }
        assert(blobs(entries@) =~= walked_blobs(items@.take(i + 1)));
        i = i + 1;
    }
    assert(items@.take(i as int) =~= items@);
    Ok(entries)
}

/// The paths of the blobs with object name `sha`, in order.
pub open spec fn paths_of(bs: Seq<Blob>, sha: Seq<char>) -> Seq<Seq<char>> {
    bs.filter(|b: Blob| b.sha == sha).map_values(|b: Blob| b.path)
}

/// Does a blob with object name `sha` occur?
pub open spec fn is_live(bs: Seq<Blob>, sha: Seq<char>) -> bool {
    exists|i: int| 0 <= i < bs.len() && (#[trigger] bs[i]).sha == sha
}

/// Does the map hold, under each object name that occurs, the paths of its blobs?
pub open spec fn groups(m: Seq<(Seq<char>, Seq<Seq<char>>)>, bs: Seq<Blob>) -> bool {
    &&& unique_keys(m)
    &&& forall|sha: Seq<char>| #[trigger] has_key(m, sha) <==> is_live(bs, sha)
    &&& forall|sha: Seq<char>| #[trigger] listed(m, sha) == paths_of(bs, sha)
}

proof fn lemma_groups_push(
    m: Seq<(Seq<char>, Seq<Seq<char>>)>,
    bs: Seq<Blob>,
    b: Blob,
)
    requires
        groups(m, bs),
        unique_keys(put(m, b.sha, listed(m, b.sha).push(b.path))),
    ensures
        groups(put(m, b.sha, listed(m, b.sha).push(b.path)), bs.push(b)),
{
    reveal(Seq::filter);
    let n = put(m, b.sha, listed(m, b.sha).push(b.path));
    let cs = bs.push(b);
    assert(cs.drop_last() =~= bs);
    let at = if has_key(m, b.sha) {
        place_of(m, b.sha)
    } else {
        m.len() as int
    };
    assert(n[at].0 == b.sha);
    assert forall|sha: Seq<char>| #[trigger] has_key(n, sha) <==> is_live(cs, sha) by {
        if has_key(n, sha) && sha != b.sha {
            let i = choose|i: int| 0 <= i < n.len() && (#[trigger] n[i]).0 == sha;
            assert(m[i].0 == sha);
            assert(has_key(m, sha));
            let j = choose|j: int| 0 <= j < bs.len() && (#[trigger] bs[j]).sha == sha;
            assert(cs[j].sha == sha);
        }
        if is_live(cs, sha) && sha != b.sha {
            let j = choose|j: int| 0 <= j < cs.len() && (#[trigger] cs[j]).sha == sha;
            assert(bs[j].sha == sha);
            assert(has_key(m, sha));
            let i = choose|i: int| 0 <= i < m.len() && (#[trigger] m[i]).0 == sha;
            assert(n[i].0 == sha);
        }
        if sha == b.sha {
            assert(cs[cs.len() - 1].sha == sha);
        }
    }
    assert forall|sha: Seq<char>| #[trigger] listed(n, sha) == paths_of(cs, sha) by {
        assert(listed(m, sha) == paths_of(bs, sha));
        if sha == b.sha {
            let i = place_of(n, sha);
            assert(has_key(n, sha));
            assert(n[i].1 == listed(m, sha).push(b.path));
            assert(paths_of(cs, sha) =~= paths_of(bs, sha).push(b.path));
        } else {
            assert(paths_of(cs, sha) =~= paths_of(bs, sha));
            if has_key(m, sha) {
                let i = place_of(m, sha);
                assert(n[i] == m[i]);
                assert(has_key(n, sha));
                let j = place_of(n, sha);
                assert(n[j].0 == n[i].0);
            } else {
                assert(!is_live(cs, sha));
            }
        }
    }
}

/// Build a map of blob SHA to list of file paths from the entries of a tree.
pub fn blob_sha_to_paths(entries: &Vec<TreeEntry>) -> (r: ShaMap<Vec<String>>)
    ensures
        groups(r@, blobs(entries@)),
{
    let mut map: ShaMap<Vec<String>> = ShaMap::new();
    let mut i: usize = 0;
    proof {
        reveal(Seq::filter);
        let none = blobs(entries@).take(0);
        assert forall|sha: Seq<char>| #[trigger] listed(map@, sha) == paths_of(none, sha) by {
            assert(!has_key(map@, sha));
            assert(listed(map@, sha) =~= paths_of(none, sha));
        }
    }
    while i < entries.len()
        invariant
            i <= entries@.len(),
            groups(map@, blobs(entries@).take(i as int)),
        decreases entries@.len() - i,
    {
        let ghost before = map@;
        let ghost done = blobs(entries@).take(i as int);
        map.push_under(entries[i].blob_sha.clone(), entries[i].path.clone());
        proof {
            lemma_groups_push(before, done, entries@[i as int]@);
            assert(blobs(entries@).take(i + 1) =~= done.push(entries@[i as int]@));
        }
        i = i + 1;
    }
    assert(blobs(entries@).take(i as int) =~= blobs(entries@));
    map
}

// ---------------------------------------------------------------------------
// Text files
// ---------------------------------------------------------------------------

/// The name of a file: what stands behind the last slash of its path.
pub open spec fn base_name(path: Seq<char>) -> Seq<char>
    decreases path.len(),
{
    if path.len() == 0 || path.last() == '/' {
        seq![]
    } else {
        base_name(path.drop_last()).push(path.last())
    }
}

/// The place of the last dot.
pub open spec fn last_dot(name: Seq<char>) -> Option<int>
    decreases name.len(),
{
    if name.len() == 0 {
        None
    } else if name.last() == '.' {
        Some(name.len() - 1)
    } else {
        last_dot(name.drop_last())
    }
}

/// The lower-case form of a character, as far as it is an ASCII letter: that of an ASCII
/// capital, and that of the Kelvin sign. Every other character stands for itself.
pub open spec fn lower(c: char) -> char {
    if 'A' <= c <= 'Z' {
        ((c as u8) + 32) as char
    } else if c == '\u{212a}' {
        'k'
    } else {
        c
    }
}

/// Each character in lower case.
pub open spec fn lowered(s: Seq<char>) -> Seq<char> {
    s.map_values(|c: char| lower(c))
}

/// Known text file extensions (lowercase, with leading dot).
pub open spec fn text_extension(e: Seq<char>) -> bool {
    ||| e == ".md"@
    ||| e == ".txt"@
    ||| e == ".clj"@
    ||| e == ".cljs"@
    ||| e == ".cljc"@
    ||| e == ".edn"@
    ||| e == ".bb"@
    ||| e == ".py"@
    ||| e == ".rb"@
    ||| e == ".rs"@
    ||| e == ".go"@
    ||| e == ".java"@
    ||| e == ".kt"@
    ||| e == ".scala"@
    ||| e == ".js"@
    ||| e == ".ts"@
    ||| e == ".jsx"@
    ||| e == ".tsx"@
    ||| e == ".css"@
    ||| e == ".html"@
    ||| e == ".xml"@
    ||| e == ".json"@
    ||| e == ".yaml"@
    ||| e == ".yml"@
    ||| e == ".toml"@
    ||| e == ".ini"@
    ||| e == ".cfg"@
    ||| e == ".sh"@
    ||| e == ".bash"@
    ||| e == ".zsh"@
    ||| e == ".fish"@
    ||| e == ".sql"@
    ||| e == ".graphql"@
    ||| e == ".proto"@
    ||| e == ".org"@
    ||| e == ".rst"@
    ||| e == ".adoc"@
    ||| e == ".tex"@
    ||| e == ".el"@
    ||| e == ".lisp"@
    ||| e == ".scm"@
    ||| e == ".rkt"@
    ||| e == ".hs"@
    ||| e == ".ml"@
    ||| e == ".ex"@
    ||| e == ".exs"@
    ||| e == ".c"@
    ||| e == ".h"@
    ||| e == ".cpp"@
    ||| e == ".hpp"@
    ||| e == ".cs"@
    ||| e == ".swift"@
    ||| e == ".r"@
    ||| e == ".lua"@
    ||| e == ".vim"@
    ||| e == ".nix"@
    ||| e == ".dhall"@
    ||| e == ".dockerfile"@
    ||| e == ".tf"@
    ||| e == ".hcl"@
    ||| e == ".gitignore"@
    ||| e == ".gitattributes"@
    ||| e == ".editorconfig"@
}

/// Is a file with this path likely a text file? Its extension is what starts at the last
/// dot of its name; a dot in the name of a directory is none of its extension.
pub open spec fn text_path(path: Seq<char>) -> bool {
    let name = base_name(path);
    match last_dot(name) {
        Some(i) => text_extension(lowered(name.skip(i))),
        None => true,
    }
}

fn to_lower(c: char) -> (r: char)
    ensures
        r == lower(c),
{
    if 'A' <= c && c <= 'Z' {
        ((c as u8) + 32) as char
    } else if c == '\u{212a}' {
        'k'
    } else {
        c
    }
}

fn is_text_extension(e: &str) -> (r: bool)
    ensures
        r == text_extension(e@),
{
    same_text(e, ".md")
        || same_text(e, ".txt")
        || same_text(e, ".clj")
        || same_text(e, ".cljs")
        || same_text(e, ".cljc")
        || same_text(e, ".edn")
        || same_text(e, ".bb")
        || same_text(e, ".py")
        || same_text(e, ".rb")
        || same_text(e, ".rs")
        || same_text(e, ".go")
        || same_text(e, ".java")
        || same_text(e, ".kt")
        || same_text(e, ".scala")
        || same_text(e, ".js")
        || same_text(e, ".ts")
        || same_text(e, ".jsx")
        || same_text(e, ".tsx")
        || same_text(e, ".css")
        || same_text(e, ".html")
        || same_text(e, ".xml")
        || same_text(e, ".json")
        || same_text(e, ".yaml")
        || same_text(e, ".yml")
        || same_text(e, ".toml")
        || same_text(e, ".ini")
        || same_text(e, ".cfg")
        || same_text(e, ".sh")
        || same_text(e, ".bash")
        || same_text(e, ".zsh")
        || same_text(e, ".fish")
        || same_text(e, ".sql")
        || same_text(e, ".graphql")
        || same_text(e, ".proto")
        || same_text(e, ".org")
        || same_text(e, ".rst")
        || same_text(e, ".adoc")
        || same_text(e, ".tex")
        || same_text(e, ".el")
        || same_text(e, ".lisp")
        || same_text(e, ".scm")
        || same_text(e, ".rkt")
        || same_text(e, ".hs")
        || same_text(e, ".ml")
        || same_text(e, ".ex")
        || same_text(e, ".exs")
        || same_text(e, ".c")
        || same_text(e, ".h")
        || same_text(e, ".cpp")
        || same_text(e, ".hpp")
        || same_text(e, ".cs")
        || same_text(e, ".swift")
        || same_text(e, ".r")
        || same_text(e, ".lua")
        || same_text(e, ".vim")
        || same_text(e, ".nix")
        || same_text(e, ".dhall")
        || same_text(e, ".dockerfile")
        || same_text(e, ".tf")
        || same_text(e, ".hcl")
        || same_text(e, ".gitignore")
        || same_text(e, ".gitattributes")
        || same_text(e, ".editorconfig")
}

/// Heuristic: is this file path likely a text file?
///
/// Checks the file extension against a known set of text extensions. Files with no
/// extension are assumed to be text. Comparison is case-insensitive.
pub fn text_blob(path: &str) -> (r: bool)
    ensures
        r == text_path(path@),
{
    let mut all: Vec<char> = chars_of(path);
    let ghost whole = all@;
    let mut from: usize = all.len();
    assert(whole.take(from as int) =~= whole);
    assert(whole =~= whole + whole.skip(from as int));
    while from > 0 && all[from - 1] != '/'
        invariant
            from <= all@.len(),
            all@ == whole,
            base_name(whole) == base_name(whole.take(from as int)) + whole.skip(from as int),
        decreases from,
    {
        assert(whole.take(from as int).drop_last() =~= whole.take(from - 1));
        assert(base_name(whole.take(from - 1)).push(whole[from - 1]) + whole.skip(from as int)
            =~= base_name(whole.take(from - 1)) + whole.skip(from - 1));
        from = from - 1;
    }
    let cs: Vec<char> = all.split_off(from);
    assert(cs@ =~= whole.skip(from as int));
    assert(base_name(whole.take(from as int)) =~= seq![]);
    assert(base_name(whole) =~= cs@);
    let mut n: usize = cs.len();
    assert(cs@.take(n as int) =~= cs@);
    while n > 0 && cs[n - 1] != '.'
        invariant
            n <= cs@.len(),
            last_dot(cs@) == last_dot(cs@.take(n as int)),
        decreases n,
    {
        assert(cs@.take(n as int).drop_last() =~= cs@.take(n - 1));
        n = n - 1;
    }
    if n == 0 {
        return true;
    }
    let start: usize = n - 1;
    assert(last_dot(cs@) == Some(start as int));
    let mut ext: String = String::new();
    let mut i: usize = start;
    while i < cs.len()
        invariant
            start <= i <= cs@.len(),
            ext@ == lowered(cs@.subrange(start as int, i as int)),
        decreases cs@.len() - i,
    {
        ext.push(to_lower(cs[i]));
        i = i + 1;
        assert(ext@ =~= lowered(cs@.subrange(start as int, i as int)));
    }
    assert(cs@.subrange(start as int, i as int) =~= cs@.skip(start as int));
    is_text_extension(ext.as_str())
}

/// A slash stays where it is when capitals become small.
proof fn lemma_lowered_name(path: Seq<char>)
    ensures
        base_name(lowered(path)) == lowered(base_name(path)),
    decreases path.len(),
{
    if path.len() > 0 {
        lemma_lowered_name(path.drop_last());
        assert(lowered(path).drop_last() =~= lowered(path.drop_last()));
    }
    assert(base_name(lowered(path)) =~= lowered(base_name(path)));
}

/// A dot stays where it is when capitals become small.
proof fn lemma_lowered_dot(name: Seq<char>)
    ensures
        last_dot(lowered(name)) == last_dot(name),
        last_dot(name) matches Some(i) ==> 0 <= i < name.len(),
    decreases name.len(),
{
    if name.len() > 0 {
        lemma_lowered_dot(name.drop_last());
        assert(lowered(name).drop_last() =~= lowered(name.drop_last()));
    }
}

/// Whether a path is that of a text file does not depend on capitals.
pub proof fn law_text_files_ignore_case(a: Seq<char>, b: Seq<char>)
    requires
        lowered(a) == lowered(b),
    ensures
        text_path(a) == text_path(b),
{
    let m = base_name(a);
    let n = base_name(b);
    lemma_lowered_name(a);
    lemma_lowered_name(b);
    lemma_lowered_dot(m);
    lemma_lowered_dot(n);
    match last_dot(m) {
        Some(i) => {
            assert(lowered(m).len() == lowered(n).len());
            assert(lowered(m.skip(i)) =~= lowered(m).skip(i));
            assert(lowered(n.skip(i)) =~= lowered(n).skip(i));
        },
        None => {},
    }
}

// ---------------------------------------------------------------------------
// Blobs
// ---------------------------------------------------------------------------

/// Why the repository gives no answer.
#[derive(Debug)]
pub enum GitError {
    /// `HEAD` cannot be resolved.
    Head,
    /// The text is not an object name.
    InvalidSha(String),
    /// There is no such blob.
    BlobNotFound(String),
    /// The blob does not hold text.
    NotUtf8(String),
}

impl GitError {
    /// The error as a sentence.
    pub open spec fn sentence(&self) -> Seq<char> {
        match self {
            GitError::Head => "failed to resolve HEAD"@,
            GitError::InvalidSha(s) => "invalid SHA: '"@ + s@ + "'"@,
            GitError::BlobNotFound(s) => "blob not found: "@ + s@,
            GitError::NotUtf8(s) => "blob "@ + s@ + " is not valid UTF-8"@,
        }
    }

    /// The error as a sentence.
    pub fn message(&self) -> (r: String)
        ensures
            r@ == self.sentence(),
    {
        match self {
            GitError::Head => "failed to resolve HEAD".to_string(),
            GitError::InvalidSha(s) => {
                let mut r: String = concat("invalid SHA: '", s.as_str());
                r.push_str("'");
                r
            },
            GitError::BlobNotFound(s) => concat("blob not found: ", s.as_str()),
            GitError::NotUtf8(s) => {
                let mut r: String = concat("blob ", s.as_str());
                r.push_str(" is not valid UTF-8");
                r
            },
        }
    }
}

/// The value of a hexadecimal digit.
pub open spec fn hex_value(c: char) -> Option<int> {
    if '0' <= c <= '9' {
        Some(c as int - 48)
    } else if 'a' <= c <= 'f' {
        Some(c as int - 87)
    } else if 'A' <= c <= 'F' {
        Some(c as int - 55)
    } else {
        None
    }
}

/// Is the text an object name: one to forty hexadecimal digits?
pub open spec fn is_sha(s: Seq<char>) -> bool {
    &&& 1 <= s.len() <= 40
    &&& forall|i: int| 0 <= i < s.len() ==> hex_value(#[trigger] s[i]) is Some
}

/// The value of digit `i`, zero beyond the end.
pub open spec fn nibble(s: Seq<char>, i: int) -> int {
    if i < s.len() {
        hex_value(s[i])->0
    } else {
        0
    }
}

/// The twenty bytes of an object name, which is filled up with zeros on the right.
pub open spec fn sha_bytes(s: Seq<char>) -> Seq<u8> {
    Seq::new(20, |i: int| (nibble(s, 2 * i) * 16 + nibble(s, 2 * i + 1)) as u8)
}

/// The error type of `git2`.
#[verifier::external_type_specification]
#[verifier::external_body]
pub struct ExGitError(git2::Error);

/// `git2::Oid::from_str`: parses one to forty hexadecimal digits into the twenty bytes of
/// an object name, filled up with zeros on the right; anything else is an error.
#[verifier::external_body]
fn parse_oid(sha: &str) -> (r: Result<Vec<u8>, git2::Error>)
    ensures
        match r {
            Ok(id) => is_sha(sha@) && id@ == sha_bytes(sha@),
            Err(_) => !is_sha(sha@),
        },
{
    git2::Oid::from_str(sha).map(|oid| oid.as_bytes().to_vec())
}

/// The bytes of the object name written as `sha`.
pub fn blob_id(sha: &str) -> (r: Result<Vec<u8>, GitError>)
    ensures
        if is_sha(sha@) {
            r matches Ok(id) && id@ == sha_bytes(sha@)
        } else {
            r matches Err(GitError::InvalidSha(s)) && s@ == sha@
        },
{
    match parse_oid(sha) {
        Ok(id) => Ok(id),
        Err(_) => Err(GitError::InvalidSha(sha.to_string())),
    }
}

/// Read a blob by its SHA hex string as a UTF-8 string, given the contents found under
/// that object name.
pub fn read_blob(sha: &str, found: Option<&[u8]>) -> (r: Result<String, GitError>)
    ensures
        if !is_sha(sha@) {
            r matches Err(GitError::InvalidSha(s)) && s@ == sha@
        } else {
            match found {
                None => r matches Err(GitError::BlobNotFound(s)) && s@ == sha@,
                Some(content) => if valid_utf8(content@) {
                    r matches Ok(t) && t@ == decode_utf8(content@)
                } else {
                    r matches Err(GitError::NotUtf8(s)) && s@ == sha@
                },
            }
        },
{
    match blob_id(sha) {
        Ok(_) => (),
        Err(e) => return Err(e),
    }
    match found {
        None => Err(GitError::BlobNotFound(sha.to_string())),
        Some(content) => {
            let bytes: Vec<u8> = bytes_of(content, 0, content.len());
            assert(content@.subrange(0, content@.len() as int) =~= content@);
            match text_of(bytes) {
                Some(t) => Ok(t),
                None => Err(GitError::NotUtf8(sha.to_string())),
            }
        },
    }
}

// ---------------------------------------------------------------------------
// Laws
// ---------------------------------------------------------------------------

/// The repository is searched from where the environment says, whatever else is given; or else
/// from the path that is given, wherever the current directory is; or else from there.
pub proof fn law_repo_start(
    env_cwd: Option<&str>,
    path: Option<&str>,
    current_dir: &str,
    other_dir: &str,
    r: String,
    s: String,
)
    requires
        call_ensures(repo_start, (env_cwd, path, current_dir), r),
        call_ensures(repo_start, (env_cwd, None, other_dir), s),
    ensures
        env_cwd is Some ==> r@ == s@ && r@ == env_cwd->0@,
        env_cwd is None && path is Some ==> r@ == path->0@,
        env_cwd is None && path is None ==> r@ == current_dir@,
        env_cwd is None ==> s@ == other_dir@,
{
}

/// The steps of the walk over the tree that meet a blob give an entry each, in their order:
/// its path is the directory and the name, and its object name is that of the blob. Where
/// `HEAD` does not exist there are none, and any other failure to resolve it is an error.
pub proof fn law_walk_tree(
    head: HeadLookup,
    items: &Vec<WalkItem>,
    r: Result<Vec<TreeEntry>, GitError>,
) -> (picks: Seq<int>)
    requires
        call_ensures(walk_tree, (head, items), r),
    ensures
        r is Err <==> head is Failed,
        r is Err ==> r->Err_0 is Head,
        head is UnbornBranch || head is NotFound ==> r->Ok_0@.len() == 0,
        head is Found ==> {
            let es = r->Ok_0@;
            &&& picks.len() == es.len()
            &&& forall|i: int, j: int|
                0 <= i < j < picks.len() ==> #[trigger] picks[i] < #[trigger] picks[j]
            &&& forall|k: int|
                0 <= k < items@.len() ==> (#[trigger] picks.contains(k) <==> items@[k].is_blob)
            &&& forall|i: int|
                0 <= i < picks.len() ==> {
                    let item = items@[#[trigger] picks[i]];
                    &&& 0 <= picks[i] < items@.len()
                    &&& es[i].blob_sha@ == item.sha@
                    &&& item.name is Some ==> es[i].path@ == item.dir@ + item.name->0@
                    &&& item.name is None ==> es[i].path@ == item.dir@
                }
        },
{
    let pred = |item: WalkItem| item.is_blob;
    let picks = lemma_filter_picks(items@, pred);
    if head is Found {
        let es = r->Ok_0@;
        let met = items@.filter(pred);
        assert(blobs(es).len() == es.len());
        assert(walked_blobs(items@).len() == met.len());
        assert forall|i: int| 0 <= i < picks.len() implies {
            let item = items@[#[trigger] picks[i]];
            &&& 0 <= picks[i] < items@.len()
            &&& es[i].blob_sha@ == item.sha@
            &&& item.name is Some ==> es[i].path@ == item.dir@ + item.name->0@
            &&& item.name is None ==> es[i].path@ == item.dir@
        } by {
            let item = items@[picks[i]];
            assert(blobs(es)[i] == es[i]@);
            assert(walked_blobs(items@)[i] == item_blob(met[i]));
            assert(met[i] == item);
            if item.name is None {
                assert(item.dir@ + Seq::<char>::empty() =~= item.dir@);
            }
        }
    }
    picks
}

/// The paths under an object name are those of the entries with that object name, all of them
/// and in their order. No object name stands twice.
pub proof fn law_blob_sha_to_paths(
    entries: &Vec<TreeEntry>,
    r: ShaMap<Vec<String>>,
    i: int,
) -> (picks: Seq<int>)
    requires
        call_ensures(blob_sha_to_paths, (entries,), r),
        0 <= i < r@.len(),
    ensures
        picks.len() == r@[i].1.len(),
        picks.len() > 0,
        forall|a: int, b: int|
            0 <= a < b < picks.len() ==> #[trigger] picks[a] < #[trigger] picks[b],
        forall|k: int|
            0 <= k < entries@.len() ==> (#[trigger] picks.contains(k) <==> entries@[k].blob_sha@
                == r@[i].0),
        forall|a: int|
            0 <= a < picks.len() ==> 0 <= #[trigger] picks[a] < entries@.len() && r@[i].1[a]
                == entries@[picks[a]].path@,
        forall|j: int| 0 <= j < r@.len() && j != i ==> (#[trigger] r@[j]).0 != r@[i].0,
{
    let tree = blobs(entries@);
    let sha = r@[i].0;
    let pred = |b: Blob| b.sha == sha;
    let picks = lemma_filter_picks(tree, pred);
    let met = tree.filter(pred);
    assert(has_key(r@, sha));
    assert(place_of(r@, sha) == i) by {
        let j = place_of(r@, sha);
        assert(r@[j].0 == sha);
        if j < i {
            assert(r@[j].0 != r@[i].0);
        } else if i < j {
            assert(r@[i].0 != r@[j].0);
        }
    }
    assert(listed(r@, sha) == r@[i].1);
    assert(paths_of(tree, sha) == met.map_values(|b: Blob| b.path));
    assert(is_live(tree, sha));
    let k = choose|k: int| 0 <= k < tree.len() && (#[trigger] tree[k]).sha == sha;
    assert(picks.contains(k));
    assert forall|a: int| 0 <= a < picks.len() implies 0 <= #[trigger] picks[a] < entries@.len()
        && r@[i].1[a] == entries@[picks[a]].path@ by {
        assert(met[a] == tree[picks[a]]);
        assert(tree[picks[a]] == entries@[picks[a]]@);
    }
    assert forall|k: int| 0 <= k < entries@.len() implies (#[trigger] picks.contains(k)
        <==> entries@[k].blob_sha@ == sha) by {
        assert(tree[k] == entries@[k]@);
    }
    assert forall|j: int| 0 <= j < r@.len() && j != i implies (#[trigger] r@[j]).0 != sha by {
        if j < i {
            assert(r@[j].0 != r@[i].0);
        } else {
            assert(r@[i].0 != r@[j].0);
        }
    }
    picks
}

/// Every object name of the tree stands in the map of paths.
pub proof fn law_every_blob_has_paths(
    entries: &Vec<TreeEntry>,
    r: ShaMap<Vec<String>>,
    k: int,
) -> (i: int)
    requires
        call_ensures(blob_sha_to_paths, (entries,), r),
        0 <= k < entries@.len(),
    ensures
        0 <= i < r@.len(),
        r@[i].0 == entries@[k].blob_sha@,
{
    let tree = blobs(entries@);
    let sha = entries@[k].blob_sha@;
    assert(tree[k].sha == sha);
    assert(is_live(tree, sha));
    assert(has_key(r@, sha));
    place_of(r@, sha)
}

/// The name of a file stands behind the last slash of its path.
proof fn lemma_base_name(dir: Seq<char>, name: Seq<char>)
    requires
        dir.len() == 0 || dir[dir.len() - 1] == '/',
        forall|i: int| 0 <= i < name.len() ==> name[i] != '/',
    ensures
        base_name(dir + name) == name,
    decreases name.len(),
{
    let path = dir + name;
    if name.len() == 0 {
        assert(path =~= dir);
        assert(base_name(path) =~= name);
    } else {
        lemma_base_name(dir, name.drop_last());
        assert(path.drop_last() =~= dir + name.drop_last());
        assert(path.last() == name.last());
        assert(name.last() == name[name.len() - 1]);
        assert(base_name(path) =~= name);
    }
}

/// The last dot of a name.
proof fn lemma_last_dot(stem: Seq<char>, ext: Seq<char>)
    requires
        ext.len() > 0 ==> ext[0] == '.',
        ext.len() == 0 ==> forall|i: int| 0 <= i < stem.len() ==> stem[i] != '.',
        forall|i: int| 1 <= i < ext.len() ==> ext[i] != '.',
    ensures
        last_dot(stem + ext) == (if ext.len() > 0 {
            Some(stem.len() as int)
        } else {
            None
        }),
    decreases stem.len() + ext.len(),
{
    let name = stem + ext;
    if ext.len() > 1 {
        assert(name.last() == ext[ext.len() - 1]);
        assert(name.drop_last() =~= stem + ext.drop_last());
        lemma_last_dot(stem, ext.drop_last());
    } else if ext.len() == 0 && stem.len() > 0 {
        assert(name.last() == stem[stem.len() - 1]);
        assert(name.drop_last() =~= stem.drop_last() + ext);
        lemma_last_dot(stem.drop_last(), ext);
    }
}

/// A file whose name, behind the last slash of its path, holds no dot is a text file.
pub proof fn law_name_without_dot_is_text(path: &str, dir: Seq<char>, name: Seq<char>, r: bool)
    requires
        call_ensures(text_blob, (path,), r),
        path@ == dir + name,
        dir.len() == 0 || dir[dir.len() - 1] == '/',
        forall|i: int| 0 <= i < name.len() ==> name[i] != '/' && name[i] != '.',
    ensures
        r,
        text_path(path@),
{
    lemma_base_name(dir, name);
    lemma_last_dot(name, Seq::empty());
    assert(name + Seq::<char>::empty() =~= name);
}

/// Is this one of the extensions of text files?
pub open spec fn known_extension(e: Seq<char>) -> bool {
    ||| e == ".md"@ || e == ".txt"@ || e == ".org"@ || e == ".rst"@ || e == ".adoc"@ || e == ".tex"@
    ||| e == ".clj"@ || e == ".cljs"@ || e == ".cljc"@ || e == ".edn"@ || e == ".bb"@
    ||| e == ".py"@ || e == ".rb"@ || e == ".rs"@ || e == ".go"@ || e == ".java"@ || e == ".kt"@
    ||| e == ".scala"@ || e == ".js"@ || e == ".ts"@ || e == ".jsx"@ || e == ".tsx"@
    ||| e == ".css"@ || e == ".html"@ || e == ".xml"@ || e == ".json"@ || e == ".yaml"@
    ||| e == ".yml"@ || e == ".toml"@ || e == ".ini"@ || e == ".cfg"@
    ||| e == ".sh"@ || e == ".bash"@ || e == ".zsh"@ || e == ".fish"@ || e == ".sql"@
    ||| e == ".graphql"@ || e == ".proto"@ || e == ".el"@ || e == ".lisp"@ || e == ".scm"@
    ||| e == ".rkt"@ || e == ".hs"@ || e == ".ml"@ || e == ".ex"@ || e == ".exs"@
    ||| e == ".c"@ || e == ".h"@ || e == ".cpp"@ || e == ".hpp"@ || e == ".cs"@ || e == ".swift"@
    ||| e == ".r"@ || e == ".lua"@ || e == ".vim"@ || e == ".nix"@ || e == ".dhall"@
    ||| e == ".dockerfile"@ || e == ".tf"@ || e == ".hcl"@
    ||| e == ".gitignore"@ || e == ".gitattributes"@ || e == ".editorconfig"@
}

/// A file with a dot in its name, behind the last slash of its path, is a text file just where
/// what starts at the last dot is one of the extensions of text files, capitals taken as small
/// letters.
pub proof fn law_extension_decides(
    path: &str,
    dir: Seq<char>,
    stem: Seq<char>,
    ext: Seq<char>,
    small: Seq<char>,
    r: bool,
)
    requires
        call_ensures(text_blob, (path,), r),
        path@ == dir + (stem + ext),
        dir.len() == 0 || dir[dir.len() - 1] == '/',
        forall|i: int| 0 <= i < stem.len() ==> stem[i] != '/',
        ext.len() > 0,
        ext[0] == '.',
        forall|i: int| 1 <= i < ext.len() ==> ext[i] != '/' && ext[i] != '.',
        small.len() == ext.len(),
        forall|i: int|
            0 <= i < ext.len() ==> {
                &&& !('A' <= #[trigger] small[i] <= 'Z')
                &&& small[i] != '\u{212a}'
                &&& small[i] == ext[i] || ('A' <= ext[i] <= 'Z' && small[i] as int == ext[i] as int
                    + 32) || (ext[i] == '\u{212a}' && small[i] == 'k')
            },
    ensures
        r <==> known_extension(small),
        text_path(path@) <==> known_extension(small),
{
    let name = stem + ext;
    assert forall|i: int| 0 <= i < name.len() implies name[i] != '/' by {
        if i >= stem.len() {
            assert(name[i] == ext[i - stem.len()]);
        }
    }
    lemma_base_name(dir, name);
    lemma_last_dot(stem, ext);
    assert(name.skip(stem.len() as int) =~= ext);
    assert forall|i: int| 0 <= i < ext.len() implies lower(ext[i]) == small[i] by {
        assert(!('A' <= small[i] <= 'Z'));
        if 'A' <= ext[i] <= 'Z' {
            assert(lower(ext[i]) as int == ext[i] as int + 32);
        }
    }
    assert(lowered(ext) =~= small);
}

/// The bytes of an object name: a text is one just where it is one to forty hexadecimal digits.
/// The twenty bytes hold two digits each, and zeros behind the last digit.
pub proof fn law_blob_id(sha: &str, r: Result<Vec<u8>, GitError>)
    requires
        call_ensures(blob_id, (sha,), r),
    ensures
        r is Ok <==> 1 <= sha@.len() <= 40 && forall|i: int|
            0 <= i < sha@.len() ==> '0' <= #[trigger] sha@[i] <= '9' || 'a' <= sha@[i] <= 'f'
                || 'A' <= sha@[i] <= 'F',
        r is Ok ==> r->Ok_0@.len() == 20,
        r is Ok ==> forall|i: int|
            0 <= i < 20 ==> {
                let b = #[trigger] r->Ok_0@[i] as int;
                &&& stands_for(sha@, 2 * i, b / 16)
                &&& stands_for(sha@, 2 * i + 1, b % 16)
            },
        r is Err ==> r->Err_0 is InvalidSha && r->Err_0->InvalidSha_0@ == sha@,
{
    if 1 <= sha@.len() <= 40 && forall|i: int|
        0 <= i < sha@.len() ==> '0' <= #[trigger] sha@[i] <= '9' || 'a' <= sha@[i] <= 'f' || 'A'
            <= sha@[i] <= 'F' {
        assert forall|i: int| 0 <= i < sha@.len() implies hex_value(#[trigger] sha@[i]) is Some by {
            assert('0' <= sha@[i] <= '9' || 'a' <= sha@[i] <= 'f' || 'A' <= sha@[i] <= 'F');
        }
        assert(is_sha(sha@));
    }
    if is_sha(sha@) {
        assert forall|i: int| 0 <= i < sha@.len() implies '0' <= #[trigger] sha@[i] <= '9' || 'a'
            <= sha@[i] <= 'f' || 'A' <= sha@[i] <= 'F' by {
            assert(hex_value(sha@[i]) is Some);
        }
        let id = r->Ok_0@;
        assert forall|i: int| 0 <= i < 20 implies {
            let b = #[trigger] id[i] as int;
            &&& stands_for(sha@, 2 * i, b / 16)
            &&& stands_for(sha@, 2 * i + 1, b % 16)
        } by {
            if 2 * i < sha@.len() {
                assert(hex_value(sha@[2 * i]) is Some);
            }
            if 2 * i + 1 < sha@.len() {
                assert(hex_value(sha@[2 * i + 1]) is Some);
            }
        }
    }
}

/// Is `v` the value of the hexadecimal digit at place `i`, or zero behind the last digit?
pub open spec fn stands_for(s: Seq<char>, i: int, v: int) -> bool {
    if i >= s.len() {
        v == 0
    } else if s[i] <= '9' {
        0 <= v <= 9 && s[i] as int == '0' as int + v
    } else if s[i] <= 'F' {
        10 <= v <= 15 && s[i] as int == 'A' as int + (v - 10)
    } else {
        10 <= v <= 15 && s[i] as int == 'a' as int + (v - 10)
    }
}

/// Reading a blob gives the text whose UTF-8 bytes the contents are. It fails on what is not an
/// object name, where nothing was found, and where the contents are not UTF-8.
pub proof fn law_read_blob(
    sha: &str,
    found: Option<&[u8]>,
    id: Result<Vec<u8>, GitError>,
    r: Result<String, GitError>,
)
    requires
        call_ensures(blob_id, (sha,), id),
        call_ensures(read_blob, (sha, found), r),
    ensures
        r is Ok ==> found is Some && encode_utf8(r->Ok_0@) == found->0@,
        r is Ok <==> id is Ok && found is Some && valid_utf8(found->0@),
        id is Err ==> r->Err_0 is InvalidSha && r->Err_0->InvalidSha_0@ == sha@,
        id is Ok && found is None ==> r->Err_0 is BlobNotFound && r->Err_0->BlobNotFound_0@ == sha@,
        id is Ok && found is Some && !valid_utf8(found->0@) ==> r->Err_0 is NotUtf8
            && r->Err_0->NotUtf8_0@ == sha@,
{
    if r is Ok {
        decode_utf8_encode_utf8(found->0@);
    }
}

} // verus!
