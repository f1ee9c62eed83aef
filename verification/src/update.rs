//! Bringing the index up to date: what goes, what is new, and what is embedded.

use crate::git::{
    blob_sha_to_paths, blobs, is_live, text_blob, text_path, Blob, GitError, TreeEntry,
};
use crate::index::{copy_vector, EmbedIndex, IndexModel};
use crate::lists::{
    flattened, lemma_filter_picks, lemma_flattened_concat, lemma_flattened_one,
};
use crate::sha_map::{
    has_key, keep_keys, law_lookup, lemma_filter_contains, lemma_lookup_put, lookup, place_of, put,
    put_all, unique_keys, ShaMap,
};
use crate::text::{
    chars_of, concat, digits_value, has_prefix, join, join_strings, law_join, law_trim, lines,
    slices, split_lines, string_of, texts, trim, trimmed, white_space,
};
use vstd::prelude::*;
use vstd::utf8::encode_utf8;

verus! {

// ---------------------------------------------------------------------------
// Pruning
// ---------------------------------------------------------------------------

/// The embeddings whose blob stands in the tree.
pub open spec fn live_entries(entries: Seq<(Seq<char>, Seq<u32>)>, tree: Seq<Blob>) -> Seq<
    (Seq<char>, Seq<u32>),
> {
    entries.filter(|e: (Seq<char>, Seq<u32>)| is_live(tree, e.0))
}

/// Drops the embeddings whose blob has left the tree; gives their number.
pub fn prune(index: &mut EmbedIndex, entries: &Vec<TreeEntry>) -> (r: usize)
    ensures
        final(index)@ == (IndexModel {
            entries: live_entries(old(index)@.entries, blobs(entries@)),
            ..old(index)@
        }),
        r == old(index)@.entries.len() - final(index)@.entries.len(),
{
    let ghost tree = blobs(entries@);
    let ghost all = index@.entries;
    let live: ShaMap<Vec<String>> = blob_sha_to_paths(entries);
    let before: usize = index.embeddings.len();
    index.embeddings.retain_keys(&live);
    let after: usize = index.embeddings.len();
    proof {
        let f = |e: (Seq<char>, Seq<u32>)| has_key(live@, e.0);
        let g = |e: (Seq<char>, Seq<u32>)| is_live(tree, e.0);
        assert(f =~= g);
        assert(keep_keys(all, live@) == live_entries(all, tree));
        lemma_filter_len(all, g);
    }
    before - after
}

/// A filter does not add anything.
proof fn lemma_filter_len<A>(s: Seq<A>, pred: spec_fn(A) -> bool)
    ensures
        s.filter(pred).len() <= s.len(),
    decreases s.len(),
{
    reveal(Seq::filter);
    if s.len() > 0 {
        lemma_filter_len(s.drop_last(), pred);
    }
}

// ---------------------------------------------------------------------------
// New blobs
// ---------------------------------------------------------------------------

/// Is the blob a text file without an embedding?
pub open spec fn is_new(entries: Seq<(Seq<char>, Seq<u32>)>, b: Blob) -> bool {
    text_path(b.path) && !has_key(entries, b.sha)
}

/// The blobs to embed, in order: each object name without an embedding that a text file
/// has, once, with the first such file.
pub open spec fn new_of(entries: Seq<(Seq<char>, Seq<u32>)>, tree: Seq<Blob>) -> Seq<Blob>
    decreases tree.len(),
{
    if tree.len() == 0 {
        seq![]
    } else {
        let found = new_of(entries, tree.drop_last());
        if is_new(entries, tree.last()) && !is_live(found, tree.last().sha) {
            found.push(tree.last())
        } else {
            found
        }
    }
}

/// The blobs to embed, in order: each object name without an embedding that a text file
/// has, once, with the first such file.
pub fn new_blobs(index: &EmbedIndex, entries: &Vec<TreeEntry>) -> (r: Vec<TreeEntry>)
    ensures
        blobs(r@) == new_of(index@.entries, blobs(entries@)),
{
    let ghost tree = blobs(entries@);
    let mut r: Vec<TreeEntry> = Vec::new();
    let mut seen: ShaMap<usize> = ShaMap::new();
    let mut i: usize = 0;
    assert(blobs(r@) =~= new_of(index@.entries, tree.take(0)));
    while i < entries.len()
        invariant
            i <= entries@.len(),
            tree == blobs(entries@),
            blobs(r@) == new_of(index@.entries, tree.take(i as int)),
            unique_keys(seen@),
            forall|sha: Seq<char>| #[trigger] has_key(seen@, sha) <==> is_live(blobs(r@), sha),
        decreases entries@.len() - i,
    {
        let ghost before = r@;
        let ghost known = seen@;
        assert(tree.take(i + 1).drop_last() =~= tree.take(i as int));
        assert(tree[i as int] == entries@[i as int]@);
        let entry: &TreeEntry = &entries[i];
        if text_blob(entry.path.as_str()) && !index.embeddings.contains_key(
            entry.blob_sha.as_str(),
        ) && !seen.contains_key(entry.blob_sha.as_str()) {
            r.push(entry.clone());
            seen.insert(entry.blob_sha.clone(), i);
            assert(blobs(r@) =~= blobs(before).push(tree[i as int]));
            proof {
                lemma_seen(known, blobs(before), tree[i as int], i);
                assert(seen@ == put(known, tree[i as int].sha, i));
                assert(blobs(r@) == blobs(before).push(tree[i as int]));
            }
        }
        i = i + 1;
    }
    assert(tree.take(i as int) =~= tree);
    r
}

/// One more object name that was seen.
proof fn lemma_seen(m: Seq<(Seq<char>, usize)>, found: Seq<Blob>, b: Blob, v: usize)
    requires
        unique_keys(m),
        forall|sha: Seq<char>| #[trigger] has_key(m, sha) <==> is_live(found, sha),
    ensures
        forall|sha: Seq<char>| #[trigger]
            has_key(put(m, b.sha, v), sha) <==> is_live(found.push(b), sha),
{
    let more = found.push(b);
    assert forall|sha: Seq<char>| #[trigger] has_key(put(m, b.sha, v), sha) <==> is_live(
        more,
        sha,
    ) by {
        lemma_lookup_put(m, b.sha, v, sha);
        assert(lookup(put(m, b.sha, v), sha) is Some == has_key(put(m, b.sha, v), sha));
        assert(lookup(m, sha) is Some == has_key(m, sha));
        if is_live(found, sha) {
            let k = choose|k: int| 0 <= k < found.len() && (#[trigger] found[k]).sha == sha;
            assert(more[k].sha == sha);
        }
        if sha == b.sha {
            assert(more[found.len() as int].sha == sha);
        }
        if is_live(more, sha) && sha != b.sha {
            let k = choose|k: int| 0 <= k < more.len() && (#[trigger] more[k]).sha == sha;
            assert(found[k].sha == sha);
        }
    }
}

/// What an update has to do.
#[derive(Clone, Copy, PartialEq, Eq, Structural, Debug)]
pub enum UpdateStep {
    /// Nothing.
    Current,
    /// Save the pruned index.
    SaveOnly,
    /// Embed the new blobs and save the index.
    Index,
}

/// What an update has to do, given the numbers of new blobs and of pruned embeddings.
pub fn update_step(total: usize, pruned: usize) -> (r: UpdateStep)
    ensures
        r == (if total > 0 {
            UpdateStep::Index
        } else if pruned > 0 {
            UpdateStep::SaveOnly
        } else {
            UpdateStep::Current
        }),
{
    if total > 0 {
        UpdateStep::Index
    } else if pruned > 0 {
        UpdateStep::SaveOnly
    } else {
        UpdateStep::Current
    }
}

/// What an update finds.
pub struct UpdatePlan {
    /// The number of embeddings that were dropped.
    pub pruned: usize,
    /// The blobs to embed: text files without an embedding, each content once.
    pub new_blobs: Vec<TreeEntry>,
    /// What is to be done.
    pub step: UpdateStep,
}

/// Starts an update: prunes the index, and finds out what is to be embedded.
pub fn plan_update(index: &mut EmbedIndex, entries: &Vec<TreeEntry>) -> (r: UpdatePlan)
    ensures
        final(index)@ == (IndexModel {
            entries: live_entries(old(index)@.entries, blobs(entries@)),
            ..old(index)@
        }),
        r.pruned == old(index)@.entries.len() - final(index)@.entries.len(),
        blobs(r.new_blobs@) == new_of(final(index)@.entries, blobs(entries@)),
        r.step == (if r.new_blobs@.len() > 0 {
            UpdateStep::Index
        } else if r.pruned > 0 {
            UpdateStep::SaveOnly
        } else {
            UpdateStep::Current
        }),
{
    let pruned: usize = prune(index, entries);
    let found: Vec<TreeEntry> = new_blobs(index, entries);
    let step: UpdateStep = update_step(found.len(), pruned);
    UpdatePlan { pruned: pruned, new_blobs: found, step: step }
}

// ---------------------------------------------------------------------------
// Documents
// ---------------------------------------------------------------------------

/// The most bytes that a document may have.
pub const MAX_CONTENT_BYTES: usize = 102_400;

/// A blob that is embedded.
pub struct Document {
    pub sha: String,
    pub path: String,
    pub content: String,
}

/// The contents of a [`Document`].
pub struct DocumentModel {
    pub sha: Seq<char>,
    pub path: Seq<char>,
    pub content: Seq<char>,
}

impl View for Document {
    type V = DocumentModel;

    open spec fn view(&self) -> DocumentModel {
        DocumentModel { sha: self.sha@, path: self.path@, content: self.content@ }
    }
}

/// The contents of a list of documents.
pub open spec fn document_models(v: Seq<Document>) -> Seq<DocumentModel> {
    Seq::new(v.len(), |i: int| v[i]@)
}

/// Is the content neither empty nor too long?
pub open spec fn acceptable(content: Seq<char>) -> bool {
    0 < encode_utf8(content).len() <= MAX_CONTENT_BYTES
}

/// Is the content neither empty nor too long?
pub fn content_accepted(content: &str) -> (r: bool)
    ensures
        r == acceptable(content@),
{
    let n: usize = content.as_bytes().len();
    0 < n && n <= MAX_CONTENT_BYTES
}

/// The documents among blobs that were read, in order: those that are text of an
/// acceptable size.
pub open spec fn documents_of(
    read: Seq<(TreeEntry, Result<String, GitError>)>,
) -> Seq<DocumentModel>
    decreases read.len(),
{
    if read.len() == 0 {
        seq![]
    } else {
        let rest = documents_of(read.drop_last());
        let entry = read.last().0;
        match read.last().1 {
            Ok(content) => if acceptable(content@) {
                rest.push(
                    DocumentModel {
                        sha: entry.blob_sha@,
                        path: entry.path@,
                        content: content@,
                    },
                )
            } else {
                rest
            },
            Err(_) => rest,
        }
    }
}

/// The notes about the blobs that are left out, in order.
pub open spec fn notes_of(read: Seq<(TreeEntry, Result<String, GitError>)>) -> Seq<Seq<char>>
    decreases read.len(),
{
    if read.len() == 0 {
        seq![]
    } else {
        let rest = notes_of(read.drop_last());
        let entry = read.last().0;
        match read.last().1 {
            Ok(content) => if acceptable(content@) {
                rest
            } else {
                rest.push("  ✗ "@ + entry.path@ + " (skipped: size)"@)
            },
            Err(e) => rest.push("  ✗ "@ + entry.path@ + ": "@ + e.sentence()),
        }
    }
}

/// Sorts out blobs that were read: the documents to embed, and a note about each blob that
/// is left out because it cannot be read, is empty or is too long.
pub fn select_documents(read: &Vec<(TreeEntry, Result<String, GitError>)>) -> (r: (
    Vec<Document>,
    Vec<String>,
))
    ensures
        document_models(r.0@) == documents_of(read@),
        texts(r.1@) == notes_of(read@),
        r.0@.len() + r.1@.len() == read@.len(),
{
    let mut docs: Vec<Document> = Vec::new();
    let mut notes: Vec<String> = Vec::new();
    let mut i: usize = 0;
    assert(document_models(docs@) =~= documents_of(read@.take(0)));
    assert(texts(notes@) =~= notes_of(read@.take(0)));
    while i < read.len()
        invariant
            i <= read@.len(),
            document_models(docs@) == documents_of(read@.take(i as int)),
            texts(notes@) == notes_of(read@.take(i as int)),
            docs@.len() + notes@.len() == i,
        decreases read@.len() - i,
    {
        let ghost old_docs = docs@;
        let ghost old_notes = notes@;
        assert(read@.take(i + 1).drop_last() =~= read@.take(i as int));
        let entry: &TreeEntry = &read[i].0;
        match &read[i].1 {
            Ok(content) => if content_accepted(content.as_str()) {
                docs.push(
                    Document {
                        sha: entry.blob_sha.clone(),
                        path: entry.path.clone(),
                        content: content.clone(),
                    },
                );
                assert(document_models(docs@) =~= documents_of(read@.take(i + 1)));
            } else {
                let mut note: String = concat("  ✗ ", entry.path.as_str());
                note.push_str(" (skipped: size)");
                notes.push(note);
                assert(texts(notes@) =~= texts(old_notes).push(note@));
            },
            Err(e) => {
                let mut note: String = concat("  ✗ ", entry.path.as_str());
                note.push_str(": ");
                note.push_str(e.message().as_str());
                notes.push(note);
                assert(texts(notes@) =~= texts(old_notes).push(note@));
            },
        }
        i = i + 1;
    }
    assert(read@.take(i as int) =~= read@);
    (docs, notes)
}

// ---------------------------------------------------------------------------
// Embedding
// ---------------------------------------------------------------------------

/// The documents in batches of `size`, the last of which may be smaller.
pub open spec fn chunked<A>(docs: Seq<A>, size: int) -> Seq<Seq<A>>
    decreases docs.len(),
{
    if docs.len() == 0 || size <= 0 {
        seq![]
    } else if docs.len() <= size {
        seq![docs]
    } else {
        seq![docs.take(size)] + chunked(docs.skip(size), size)
    }
}

/// The contents of a list of batches of documents.
pub open spec fn batch_lists(v: Seq<Vec<Document>>) -> Seq<Seq<Document>> {
    Seq::new(v.len(), |i: int| v[i]@)
}

/// The documents in batches of `size`, the last of which may be smaller.
pub fn document_batches(docs: Vec<Document>, size: usize) -> (r: Vec<Vec<Document>>)
    requires
        size > 0,
    ensures
        batch_lists(r@) == chunked(docs@, size as int),
{
    let ghost all = docs@;
    let mut rest: Vec<Document> = docs;
    let mut r: Vec<Vec<Document>> = Vec::new();
    assert(batch_lists(r@) + chunked(all, size as int) =~= chunked(all, size as int));
    while rest.len() > size
        invariant
            size > 0,
            chunked(all, size as int) == batch_lists(r@) + chunked(rest@, size as int),
        decreases rest@.len(),
    {
        let ghost before = r@;
        let ghost whole = rest@;
        let tail: Vec<Document> = rest.split_off(size);
        assert(rest@ =~= whole.take(size as int));
        assert(tail@ =~= whole.skip(size as int));
        r.push(rest);
        assert(batch_lists(r@) =~= batch_lists(before).push(whole.take(size as int)));
        rest = tail;
        assert(batch_lists(r@) + chunked(rest@, size as int) =~= batch_lists(before) + chunked(
            whole,
            size as int,
        ));
    }
    let ghost before = r@;
    if rest.len() > 0 {
        let ghost last = rest@;
        r.push(rest);
        assert(batch_lists(r@) =~= batch_lists(before) + seq![last]);
    } else {
        assert(batch_lists(r@) + Seq::<Seq<Document>>::empty() =~= batch_lists(r@));
    }
    r
}

/// The memory that the model takes.
pub const MODEL_BYTES: u64 = 838_860_800;

/// The memory that is left alone.
pub const HEADROOM_BYTES: u64 = 268_435_456;

/// The memory that each document of a batch takes.
pub const DOCUMENT_BYTES: u64 = 94_371_840;

/// The number of documents of a batch, given the memory that is available: as many as have
/// room beside the model and the headroom, but one at least and 32 at most.
pub fn auto_batch_size(available: u64) -> (r: usize)
    ensures
        ({
            let fitting = (available - MODEL_BYTES - HEADROOM_BYTES) / (DOCUMENT_BYTES as int);
            r == (if fitting < 1 {
                1
            } else if fitting > 32 {
                32
            } else {
                fitting
            })
        }),
{
    if available <= MODEL_BYTES + HEADROOM_BYTES {
        return 1;
    }
    let fitting: u64 = (available - MODEL_BYTES - HEADROOM_BYTES) / DOCUMENT_BYTES;
    if fitting < 1 {
        1
    } else if fitting > 32 {
        32
    } else {
        fitting as usize
    }
}

/// The number that the digits denote, if the text consists of digits.
pub open spec fn number_in(s: Seq<char>) -> Option<nat>
    decreases s.len(),
{
    if s.len() == 0 || !('0' <= s.last() <= '9') {
        None
    } else if s.len() == 1 {
        Some((s.last() as u32 - '0' as u32) as nat)
    } else {
        match number_in(s.drop_last()) {
            Some(n) => Some((10 * n + (s.last() as u32 - '0' as u32)) as nat),
            None => None,
        }
    }
}

/// What follows the colon of the first line that tells the available memory.
pub open spec fn memory_entry(ls: Seq<Seq<char>>) -> Option<Seq<char>>
    decreases ls.len(),
{
    if ls.len() == 0 {
        None
    } else if "MemAvailable:"@.is_prefix_of(ls[0]) {
        Some(ls[0].skip("MemAvailable:"@.len() as int))
    } else {
        memory_entry(ls.skip(1))
    }
}

/// The number of bytes that an amount of memory in kibibytes denotes, such as ` 12 kB`, if it
/// is one and the number fits.
pub open spec fn bytes_in(entry: Seq<char>) -> Option<nat> {
    let t = trim(entry);
    let n = t.len() - "kB"@.len();
    if !"kB"@.is_suffix_of(t) {
        None
    } else {
        match number_in(trim(t.take(n))) {
            Some(kib) if kib * 1024 <= u64::MAX => Some(kib * 1024),
            _ => None,
        }
    }
}

/// The digits of a number denote no more than the number.
proof fn lemma_number_prefix(s: Seq<char>, k: int)
    requires
        number_in(s) is Some,
        0 < k <= s.len(),
    ensures
        number_in(s.take(k)) matches Some(m) && m <= number_in(s)->0,
    decreases s.len(),
{
    if k == s.len() {
        assert(s.take(k) =~= s);
    } else {
        lemma_number_prefix(s.drop_last(), k);
        assert(s.drop_last().take(k) =~= s.take(k));
    }
}

/// The number that the digits denote, if the text consists of digits and the number fits.
fn parse_number(digits: &str) -> (r: Option<u64>)
    ensures
        match r {
            Some(n) => number_in(digits@) == Some(n as nat),
            None => number_in(digits@) is None || number_in(digits@)->0 > u64::MAX,
        },
{
    let cs: Vec<char> = chars_of(digits);
    if cs.len() == 0 {
        return None;
    }
    let mut n: u64 = 0;
    let mut i: usize = 0;
    while i < cs.len()
        invariant
            i <= cs@.len(),
            cs@ == digits@,
            i == 0 ==> n == 0,
            i > 0 ==> number_in(cs@.take(i as int)) == Some(n as nat),
        decreases cs@.len() - i,
    {
        let c: char = cs[i];
        let ghost upto = cs@.take(i + 1);
        assert(upto.drop_last() =~= cs@.take(i as int));
        assert(upto.last() == c);
        if !('0' <= c && c <= '9') {
            proof {
                if number_in(cs@) is Some {
                    lemma_number_prefix(cs@, i + 1);
                }
            }
            return None;
        }
        let d: u64 = (c as u32 - '0' as u32) as u64;
        if n > (u64::MAX - d) / 10 {
            proof {
                assert(number_in(upto) == Some((10 * n + d) as nat));
                if number_in(cs@) is Some {
                    lemma_number_prefix(cs@, i + 1);
                }
            }
            return None;
        }
        n = 10 * n + d;
        i = i + 1;
    }
    assert(cs@.take(i as int) =~= cs@);
    Some(n)
}

/// The memory that the system has available, in bytes, as the contents of `/proc/meminfo`
/// tell it.
pub fn available_memory(info: &str) -> (r: Option<u64>)
    ensures
        match memory_entry(lines(info@)) {
            None => r is None,
            Some(entry) => match bytes_in(entry) {
                None => r is None,
                Some(n) => r matches Some(v) && v == n,
            },
        },
{
    let all: Vec<String> = split_lines(info);
    let ghost ls = lines(info@);
    let mut i: usize = 0;
    assert(ls.skip(0) =~= ls);
    while i < all.len()
        invariant
            i <= all@.len(),
            texts(all@) == ls,
            ls == lines(info@),
            memory_entry(ls) == memory_entry(ls.skip(i as int)),
        decreases all@.len() - i,
    {
        assert(all@[i as int]@ == ls[i as int]);
        assert(ls.skip(i as int).skip(1) =~= ls.skip(i + 1));
        let line: &str = all[i].as_str();
        if has_prefix(line, "MemAvailable:") {
            let cs: Vec<char> = chars_of(line);
            let head: usize = chars_of("MemAvailable:").len();
            let entry: String = string_of(&cs, head, cs.len());
            assert(entry@ =~= line@.skip(head as int));
            return amount(entry.as_str());
        }
        i = i + 1;
    }
    None
}

/// The number of bytes that an amount of memory in kibibytes denotes.
fn amount(entry: &str) -> (r: Option<u64>)
    ensures
        match bytes_in(entry@) {
            None => r is None,
            Some(n) => r matches Some(v) && v == n,
        },
{
    let text: String = trimmed(entry);
    let cs: Vec<char> = chars_of(text.as_str());
    let unit: Vec<char> = chars_of("kB");
    proof {
        reveal_strlit("kB");
    }
    if cs.len() < unit.len() {
        return None;
    }
    let n: usize = cs.len() - unit.len();
    if cs[n] != 'k' || cs[n + 1] != 'B' {
        assert(!"kB"@.is_suffix_of(text@)) by {
            if "kB"@.is_suffix_of(text@) {
                let tail = text@.subrange(n as int, text@.len() as int);
                assert(tail =~= "kB"@);
                assert(tail[0] == cs@[n as int] && tail[1] == cs@[n + 1]);
            }
        }
        return None;
    }
    assert("kB"@.is_suffix_of(text@)) by {
        assert(text@.subrange(n as int, text@.len() as int) =~= "kB"@);
    }
    let digits: String = trimmed(string_of(&cs, 0, n).as_str());
    assert(cs@.subrange(0, n as int) =~= text@.take(n as int));
    match parse_number(digits.as_str()) {
        Some(kib) => if kib <= u64::MAX / 1024 {
            Some(kib * 1024)
        } else {
            None
        },
        None => None,
    }
}

/// The query text: the words of the command line, with blanks between them. Without words
/// there is none.
pub fn query_text(words: &Vec<String>) -> (r: Option<String>)
    ensures
        match r {
            None => words@.len() == 0,
            Some(q) => words@.len() > 0 && q@ == join(texts(words@), " "@),
        },
{
    if words.len() == 0 {
        None
    } else {
        Some(join_strings(words, " "))
    }
}

/// The documents that got a vector, each as the object name and the vector.
pub open spec fn answered(docs: Seq<Document>, answers: Seq<Option<Seq<u32>>>) -> Seq<
    (Seq<char>, Seq<u32>),
>
    decreases docs.len(),
{
    if docs.len() == 0 {
        seq![]
    } else {
        let rest = answered(docs.drop_last(), answers);
        match answers[docs.len() - 1] {
            Some(v) => rest.push((docs.last().sha@, v)),
            None => rest,
        }
    }
}

/// What became of a batch of documents.
pub struct BatchOutcome<E> {
    /// Why the batch could not be embedded in one go.
    pub batch_error: Option<E>,
    /// For each document, why it could not be embedded.
    pub errors: Vec<Option<E>>,
}

/// The contents of the documents.
pub open spec fn contents_of(docs: Seq<Document>) -> Seq<Seq<char>> {
    Seq::new(docs.len(), |i: int| docs[i].content@)
}

/// Can embedding the documents in one go give this?
pub open spec fn batch_result<E, M: Fn(&Vec<&str>) -> Result<Vec<Vec<u32>>, E>>(
    many: M,
    docs: Seq<Document>,
    r: Result<Vec<Vec<u32>>, E>,
) -> bool {
    exists|batch: Vec<&str>| #[trigger]
        call_ensures(many, (&batch,), r) && slices(batch@) == contents_of(docs)
}

/// Are these the vectors of a batch, and the errors?
pub open spec fn batch_answers<
    E,
    M: Fn(&Vec<&str>) -> Result<Vec<Vec<u32>>, E>,
    O: Fn(&String) -> Result<Vec<u32>, E>,
>(
    many: M,
    one: O,
    docs: Seq<Document>,
    answers: Seq<Option<Seq<u32>>>,
    r: BatchOutcome<E>,
) -> bool {
    &&& answers.len() == docs.len()
    &&& r.errors@.len() == docs.len()
    &&& match r.batch_error {
        None => exists|out: Vec<Vec<u32>>| #[trigger]
            batch_result(many, docs, Ok::<Vec<Vec<u32>>, E>(out)) && forall|i: int|
                0 <= i < docs.len() ==> (#[trigger] answers[i]) == Some(out@[i]@)
                    && r.errors@[i] is None,
        Some(e) => batch_result(many, docs, Err::<Vec<Vec<u32>>, E>(e)) && forall|i: int|
            0 <= i < docs.len() ==> one_answer(one, docs[i], #[trigger] answers[i], r.errors@[i]),
    }
}

/// Is this the vector of a document that is embedded on its own, or the error?
pub open spec fn one_answer<E, O: Fn(&String) -> Result<Vec<u32>, E>>(
    one: O,
    doc: Document,
    answer: Option<Seq<u32>>,
    error: Option<E>,
) -> bool {
    match error {
        None => exists|v: Vec<u32>| #[trigger]
            call_ensures(one, (&doc.content,), Ok::<Vec<u32>, E>(v)) && answer == Some(v@),
        Some(e) => call_ensures(one, (&doc.content,), Err::<Vec<u32>, E>(e)) && answer is None,
    }
}

/// Embeds a batch of documents and stores their vectors in the index.
///
/// `many` embeds all of them in one go. If that fails, `one` embeds them one after the
/// other, and those that fail again are left out.
pub fn index_batch<
    E,
    M: Fn(&Vec<&str>) -> Result<Vec<Vec<u32>>, E>,
    O: Fn(&String) -> Result<Vec<u32>, E>,
>(index: &mut EmbedIndex, docs: &Vec<Document>, many: M, one: O) -> (r: BatchOutcome<E>)
    requires
        forall|batch: Vec<&str>| #[trigger] call_requires(many, (&batch,)),
        forall|batch: Vec<&str>, out: Vec<Vec<u32>>| #[trigger]
            call_ensures(many, (&batch,), Ok::<Vec<Vec<u32>>, E>(out)) ==> out@.len()
                == batch@.len(),
        forall|content: String| #[trigger] call_requires(one, (&content,)),
    ensures
        exists|answers: Seq<Option<Seq<u32>>>| #[trigger]
            batch_answers(many, one, docs@, answers, r) && final(index)@ == (IndexModel {
                entries: put_all(old(index)@.entries, answered(docs@, answers)),
                ..old(index)@
            }),
{
    let ghost start = index@;
    let mut batch: Vec<&str> = Vec::new();
    let mut i: usize = 0;
    while i < docs.len()
        invariant
            i <= docs@.len(),
            slices(batch@) == contents_of(docs@).take(i as int),
        decreases docs@.len() - i,
    {
        let ghost before = batch@;
        batch.push(docs[i].content.as_str());
        i = i + 1;
        assert(slices(batch@) =~= slices(before).push(docs@[i - 1].content@));
        assert(slices(batch@) =~= contents_of(docs@).take(i as int));
    }
    assert(slices(batch@) =~= contents_of(docs@));
    assert(slices(batch@).len() == batch@.len());
    let mut errors: Vec<Option<E>> = Vec::new();
    let ghost mut answers: Seq<Option<Seq<u32>>> = seq![];
    let result: Result<Vec<Vec<u32>>, E> = many(&batch);
    assert(batch_result(many, docs@, result));
    match result {
        Ok(embs) => {
            let mut k: usize = 0;
            assert(docs@.take(0) =~= seq![]);
            while k < docs.len()
                invariant
                    k <= docs@.len() == embs@.len(),
                    answers.len() == k,
                    errors@.len() == k,
                    forall|j: int| 0 <= j < k ==> #[trigger] answers[j] == Some(embs@[j]@),
                    forall|j: int| 0 <= j < k ==> #[trigger] errors@[j] is None,
                    index@ == (IndexModel {
                        entries: put_all(start.entries, answered(docs@.take(k as int), answers)),
                        ..start
                    }),
                decreases docs@.len() - k,
            {
                let ghost earlier = answers;
                index.embeddings.insert(docs[k].sha.clone(), copy_vector(&embs[k]));
                errors.push(None);
                proof {
                    answers = answers.push(Some(embs@[k as int]@));
                    lemma_answered_push(docs@, earlier, answers, k as int);
                    let pairs = answered(docs@.take(k + 1), answers);
                    assert(pairs.drop_last() =~= answered(docs@.take(k as int), earlier));
                }
                k = k + 1;
            }
            assert(docs@.take(k as int) =~= docs@);
            let r: BatchOutcome<E> = BatchOutcome { batch_error: None, errors: errors };
            assert(batch_answers(many, one, docs@, answers, r));
            r
        },
        Err(e) => {
            let mut k: usize = 0;
            assert(docs@.take(0) =~= seq![]);
            while k < docs.len()
                invariant
                    k <= docs@.len(),
                    answers.len() == k,
                    errors@.len() == k,
                    forall|content: String| #[trigger] call_requires(one, (&content,)),
                    forall|j: int|
                        0 <= j < k ==> one_answer(
                            one,
                            docs@[j],
                            #[trigger] answers[j],
                            errors@[j],
                        ),
                    index@ == (IndexModel {
                        entries: put_all(start.entries, answered(docs@.take(k as int), answers)),
                        ..start
                    }),
                decreases docs@.len() - k,
            {
                let ghost earlier = answers;
                match one(&docs[k].content) {
                    Ok(v) => {
                        proof {
                            answers = answers.push(Some(v@));
                            lemma_answered_push(docs@, earlier, answers, k as int);
                            let pairs = answered(docs@.take(k + 1), answers);
                            assert(pairs.drop_last() =~= answered(docs@.take(k as int), earlier));
                            assert(call_ensures(
                                one,
                                (&docs@[k as int].content,),
                                Ok::<Vec<u32>, E>(v),
                            ));
                            assert(v.deep_view() =~= v@);
                        }
                        index.embeddings.insert(docs[k].sha.clone(), v);
                        errors.push(None);
                    },
                    Err(x) => {
                        proof {
                            answers = answers.push(None);
                            lemma_answered_push(docs@, earlier, answers, k as int);
                        }
                        errors.push(Some(x));
                    },
                }
                assert(one_answer(one, docs@[k as int], answers[k as int], errors@[k as int]));
                k = k + 1;
            }
            assert(docs@.take(k as int) =~= docs@);
            let r: BatchOutcome<E> = BatchOutcome { batch_error: Some(e), errors: errors };
            assert(batch_answers(many, one, docs@, answers, r));
            r
        },
    }
}

/// One more document with or without a vector.
proof fn lemma_answered_push(
    docs: Seq<Document>,
    before: Seq<Option<Seq<u32>>>,
    after: Seq<Option<Seq<u32>>>,
    k: int,
)
    requires
        0 <= k < docs.len(),
        before.len() == k,
        after.len() == k + 1,
        after.drop_last() =~= before,
    ensures
        answered(docs.take(k + 1), after) == match after[k] {
            Some(v) => answered(docs.take(k), before).push((docs[k].sha@, v)),
            None => answered(docs.take(k), before),
        },
{
    assert(docs.take(k + 1).drop_last() =~= docs.take(k));
    lemma_answered_prefix(docs.take(k), before, after);
}

/// Answers to later documents are of no account.
proof fn lemma_answered_prefix(
    docs: Seq<Document>,
    before: Seq<Option<Seq<u32>>>,
    after: Seq<Option<Seq<u32>>>,
)
    requires
        docs.len() <= before.len() <= after.len(),
        forall|i: int| 0 <= i < before.len() ==> #[trigger] before[i] == after[i],
    ensures
        answered(docs, before) == answered(docs, after),
    decreases docs.len(),
{
    if docs.len() > 0 {
        lemma_answered_prefix(docs.drop_last(), before, after);
        assert(before[docs.len() - 1] == after[docs.len() - 1]);
    }
}

// ---------------------------------------------------------------------------
// Laws
// ---------------------------------------------------------------------------

/// Pruning keeps exactly the embeddings whose blob stands in the tree, each with its
/// vector.
pub proof fn law_prune_keeps_the_living(
    entries: Seq<(Seq<char>, Seq<u32>)>,
    tree: Seq<Blob>,
    sha: Seq<char>,
)
    requires
        unique_keys(entries),
    ensures
        lookup(live_entries(entries, tree), sha) == (if is_live(tree, sha) {
            lookup(entries, sha)
        } else {
            None
        }),
{
    let pred = |e: (Seq<char>, Seq<u32>)| is_live(tree, e.0);
    let kept = entries.filter(pred);
    if has_key(kept, sha) {
        let e = kept[place_of(kept, sha)];
        assert(kept.contains(e));
        lemma_filter_contains(entries, pred, e);
        let i = choose|i: int| 0 <= i < entries.len() && entries[i] == e;
        assert(has_key(entries, sha));
        assert(entries[place_of(entries, sha)].0 == entries[i].0);
    }
    if has_key(entries, sha) && is_live(tree, sha) {
        let e = entries[place_of(entries, sha)];
        assert(entries.contains(e));
        lemma_filter_contains(entries, pred, e);
        let i = choose|i: int| 0 <= i < kept.len() && kept[i] == e;
        assert(kept[i].0 == sha);
    }
}

/// Pruning twice is the same as pruning once.
pub proof fn law_prune_twice(entries: Seq<(Seq<char>, Seq<u32>)>, tree: Seq<Blob>)
    ensures
        live_entries(live_entries(entries, tree), tree) == live_entries(entries, tree),
{
    let once = live_entries(entries, tree);
    let pred = |e: (Seq<char>, Seq<u32>)| is_live(tree, e.0);
    assert forall|i: int| 0 <= i < once.len() implies pred(#[trigger] once[i]) by {
        assert(once.contains(once[i]));
        lemma_filter_contains(entries, pred, once[i]);
    }
    lemma_filter_all(once, pred);
}

/// A filter whose condition everything meets keeps everything.
proof fn lemma_filter_all<A>(s: Seq<A>, pred: spec_fn(A) -> bool)
    requires
        forall|i: int| 0 <= i < s.len() ==> pred(#[trigger] s[i]),
    ensures
        s.filter(pred) == s,
    decreases s.len(),
{
    reveal(Seq::filter);
    if s.len() > 0 {
        let front = s.drop_last();
        assert forall|i: int| 0 <= i < front.len() implies pred(#[trigger] front[i]) by {
            assert(front[i] == s[i]);
        }
        lemma_filter_all(front, pred);
        assert(pred(s[s.len() - 1]));
        assert(front.push(s.last()) =~= s);
    } else {
        assert(s.filter(pred) =~= s);
    }
}

/// Where every text file of the tree has an embedding and every embedding has its blob in
/// the tree, an update has nothing to do.
pub proof fn law_complete_index_is_current(
    entries: Seq<(Seq<char>, Seq<u32>)>,
    tree: Seq<Blob>,
)
    requires
        forall|i: int|
            0 <= i < tree.len() && text_path((#[trigger] tree[i]).path) ==> has_key(
                entries,
                tree[i].sha,
            ),
        forall|i: int| 0 <= i < entries.len() ==> is_live(tree, (#[trigger] entries[i]).0),
    ensures
        new_of(entries, tree).len() == 0,
        live_entries(entries, tree) == entries,
{
    let new = new_of(entries, tree);
    law_new_content_once(entries, tree);
    if new.len() > 0 {
        assert(tree.contains(new[0]));
        let i = choose|i: int| 0 <= i < tree.len() && tree[i] == new[0];
        assert(text_path(tree[i].path));
    }
    lemma_filter_all(entries, |e: (Seq<char>, Seq<u32>)| is_live(tree, e.0));
}

/// The same content is never embedded again: a blob that is to be embedded is a text file
/// of the tree whose object name has no embedding, no object name is to be embedded twice,
/// and every object name without an embedding that a text file has is to be embedded, with
/// the first such file.
pub proof fn law_new_content_once(entries: Seq<(Seq<char>, Seq<u32>)>, tree: Seq<Blob>)
    ensures
        ({
            let new = new_of(entries, tree);
            &&& forall|i: int, j: int|
                0 <= i < j < new.len() ==> (#[trigger] new[i]).sha != (#[trigger] new[j]).sha
            &&& forall|i: int|
                0 <= i < new.len() ==> tree.contains(#[trigger] new[i]) && is_new(entries, new[i])
            &&& forall|k: int|
                0 <= k < tree.len() && is_new(entries, #[trigger] tree[k]) ==> is_live(
                    new,
                    tree[k].sha,
                )
            &&& forall|k: int|
                0 <= k < tree.len() && is_new(entries, #[trigger] tree[k]) && (forall|j: int|
                    0 <= j < k && is_new(entries, #[trigger] tree[j]) ==> tree[j].sha
                        != tree[k].sha) ==> new.contains(tree[k])
        }),
    decreases tree.len(),
{
    let new = new_of(entries, tree);
    if tree.len() > 0 {
        let front = tree.drop_last();
        let found = new_of(entries, front);
        let last = tree.len() - 1;
        law_new_content_once(entries, front);
        let added = is_new(entries, tree.last()) && !is_live(found, tree.last().sha);
        assert forall|i: int, j: int| 0 <= i < j < new.len() implies (#[trigger] new[i]).sha != (
        #[trigger] new[j]).sha by {
            assert(new[i] == found[i]);
            if j < found.len() {
                assert(new[j] == found[j]);
            }
        }
        assert forall|i: int| 0 <= i < new.len() implies tree.contains(#[trigger] new[i])
            && is_new(entries, new[i]) by {
            if i < found.len() {
                assert(new[i] == found[i]);
                let k = choose|k: int| 0 <= k < front.len() && front[k] == found[i];
                assert(tree[k] == new[i]);
            } else {
                assert(tree[last] == new[i]);
            }
        }
        assert forall|sha: Seq<char>| is_live(found, sha) implies #[trigger] is_live(new, sha) by {
            let k = choose|k: int| 0 <= k < found.len() && (#[trigger] found[k]).sha == sha;
            assert(new[k].sha == sha);
        }
        assert forall|k: int| 0 <= k < tree.len() && is_new(entries, #[trigger] tree[k]) implies
            is_live(new, tree[k].sha) by {
            if k < last {
                assert(front[k] == tree[k]);
            } else if added {
                assert(new[found.len() as int].sha == tree[k].sha);
            }
        }
        assert forall|k: int|
            0 <= k < tree.len() && is_new(entries, #[trigger] tree[k]) && (forall|j: int|
                0 <= j < k && is_new(entries, #[trigger] tree[j]) ==> tree[j].sha
                    != tree[k].sha) implies new.contains(tree[k]) by {
            if k < last {
                assert(front[k] == tree[k]);
                assert forall|j: int| 0 <= j < k && is_new(entries, #[trigger] front[j]) implies
                    front[j].sha != front[k].sha by {
                    assert(front[j] == tree[j]);
                }
                assert(found.contains(front[k]));
                let i = choose|i: int| 0 <= i < found.len() && found[i] == front[k];
                assert(new[i] == tree[k]);
            } else {
                if is_live(found, tree[k].sha) {
                    let i = choose|i: int|
                        0 <= i < found.len() && (#[trigger] found[i]).sha == tree[k].sha;
                    assert(front.contains(found[i]));
                    let j = choose|j: int| 0 <= j < front.len() && front[j] == found[i];
                    assert(tree[j] == front[j]);
                }
                assert(new[found.len() as int] == tree[k]);
            }
        }
    }
}

/// Where no object name was read twice, no object name is embedded twice.
pub proof fn law_documents_are_distinct(read: Seq<(TreeEntry, Result<String, GitError>)>)
    requires
        forall|i: int, j: int|
            0 <= i < j < read.len() ==> (#[trigger] read[i]).0.blob_sha@ != (
            #[trigger] read[j]).0.blob_sha@,
    ensures
        forall|i: int, j: int|
            0 <= i < j < documents_of(read).len() ==> (#[trigger] documents_of(read)[i]).sha != (
            #[trigger] documents_of(read)[j]).sha,
        forall|i: int|
            0 <= i < documents_of(read).len() ==> exists|k: int|
                0 <= k < read.len() && (#[trigger] read[k]).0.blob_sha@ == (
                #[trigger] documents_of(read)[i]).sha,
    decreases read.len(),
{
    if read.len() > 0 {
        let front = read.drop_last();
        let docs = documents_of(read);
        let rest = documents_of(front);
        let last = read.len() - 1;
        assert forall|i: int, j: int| 0 <= i < j < front.len() implies (
        #[trigger] front[i]).0.blob_sha@ != (#[trigger] front[j]).0.blob_sha@ by {
            assert(front[i] == read[i] && front[j] == read[j]);
        }
        law_documents_are_distinct(front);
        assert forall|i: int| 0 <= i < docs.len() implies exists|k: int|
            0 <= k < read.len() && (#[trigger] read[k]).0.blob_sha@ == (#[trigger] docs[i]).sha by {
            if i < rest.len() {
                assert(docs[i] == rest[i]);
                let k = choose|k: int|
                    0 <= k < front.len() && (#[trigger] front[k]).0.blob_sha@ == rest[i].sha;
                assert(read[k] == front[k]);
            } else {
                assert(read[last].0.blob_sha@ == docs[i].sha);
            }
        }
        assert forall|i: int, j: int| 0 <= i < j < docs.len() implies (#[trigger] docs[i]).sha != (
        #[trigger] docs[j]).sha by {
            assert(docs[i] == rest[i]);
            if j < rest.len() {
                assert(docs[j] == rest[j]);
            } else {
                let k = choose|k: int|
                    0 <= k < front.len() && (#[trigger] front[k]).0.blob_sha@ == rest[i].sha;
                assert(read[k] == front[k]);
                assert(docs[j].sha == read[last].0.blob_sha@);
                assert(read[k].0.blob_sha@ != read[last].0.blob_sha@);
            }
        }
    }
}

/// Renames are free: if a tree needs nothing embedded, then neither does a tree with the
/// same blobs under other names, as long as no blob without an embedding turns into a text
/// file; and the same embeddings are kept.
pub proof fn law_renames_are_free(
    entries: Seq<(Seq<char>, Seq<u32>)>,
    before: Seq<Blob>,
    after: Seq<Blob>,
)
    requires
        before.len() == after.len(),
        forall|i: int| 0 <= i < before.len() ==> (#[trigger] before[i]).sha == after[i].sha,
        forall|i: int|
            0 <= i < before.len() && text_path((#[trigger] after[i]).path) ==> text_path(
                before[i].path,
            ) || has_key(entries, after[i].sha),
        new_of(entries, before).len() == 0,
    ensures
        new_of(entries, after).len() == 0,
        live_entries(entries, after) == live_entries(entries, before),
{
    let late = new_of(entries, after);
    law_new_content_once(entries, before);
    law_new_content_once(entries, after);
    if late.len() > 0 {
        assert(after.contains(late[0]));
        let i = choose|i: int| 0 <= i < after.len() && after[i] == late[0];
        assert(before[i].sha == after[i].sha);
        assert(is_new(entries, before[i]));
        assert(is_live(new_of(entries, before), before[i].sha));
    }
    assert forall|sha: Seq<char>| is_live(after, sha) == is_live(before, sha) by {
        if is_live(after, sha) {
            let i = choose|i: int| 0 <= i < after.len() && (#[trigger] after[i]).sha == sha;
            assert(before[i].sha == sha);
        }
        if is_live(before, sha) {
            let i = choose|i: int| 0 <= i < before.len() && (#[trigger] before[i]).sha == sha;
            assert(after[i].sha == sha);
        }
    }
    let f = |e: (Seq<char>, Seq<u32>)| is_live(after, e.0);
    let g = |e: (Seq<char>, Seq<u32>)| is_live(before, e.0);
    assert(f =~= g);
}

/// After a batch the embedding of a document that got a vector is that vector, unless a
/// later document of the batch has the same object name and got one too.
pub proof fn law_batch_stores_vectors(
    entries: Seq<(Seq<char>, Seq<u32>)>,
    docs: Seq<Document>,
    answers: Seq<Option<Seq<u32>>>,
    i: int,
)
    requires
        unique_keys(entries),
        docs.len() <= answers.len(),
        0 <= i < docs.len(),
        answers[i] is Some,
        forall|j: int|
            i < j < docs.len() && (#[trigger] docs[j]).sha@ == docs[i].sha@ ==> answers[j] is None,
    ensures
        lookup(put_all(entries, answered(docs, answers)), docs[i].sha@) == answers[i],
    decreases docs.len(),
{
    let front = docs.drop_last();
    let n = docs.len() - 1;
    let before = put_all(entries, answered(front, answers));
    let sha = docs[i].sha@;
    lemma_batch_unique(entries, front, answers);
    if i < n {
        assert forall|j: int| i < j < front.len() && (#[trigger] front[j]).sha@
            == front[i].sha@ implies answers[j] is None by {
            assert(docs[j].sha@ == docs[i].sha@);
        }
        law_batch_stores_vectors(entries, front, answers, i);
    }
    match answers[n] {
        Some(v) => {
            assert(docs[n].sha@ == sha ==> i == n);
            lemma_lookup_put(before, docs[n].sha@, v, sha);
            let all = answered(front, answers).push((docs[n].sha@, v));
            assert(all.drop_last() =~= answered(front, answers));
        },
        None => {},
    }
}

/// A batch leaves the embeddings alone whose object name is not that of a document that
/// got a vector.
pub proof fn law_batch_keeps_other_embeddings(
    entries: Seq<(Seq<char>, Seq<u32>)>,
    docs: Seq<Document>,
    answers: Seq<Option<Seq<u32>>>,
    sha: Seq<char>,
)
    requires
        unique_keys(entries),
        docs.len() <= answers.len(),
        forall|i: int|
            0 <= i < docs.len() && (#[trigger] docs[i]).sha@ == sha ==> answers[i] is None,
    ensures
        lookup(put_all(entries, answered(docs, answers)), sha) == lookup(entries, sha),
    decreases docs.len(),
{
    if docs.len() > 0 {
        let front = docs.drop_last();
        let n = docs.len() - 1;
        let before = put_all(entries, answered(front, answers));
        assert forall|i: int| 0 <= i < front.len() && (#[trigger] front[i]).sha@
            == sha implies answers[i] is None by {
            assert(docs[i].sha@ == sha);
        }
        lemma_batch_unique(entries, front, answers);
        law_batch_keeps_other_embeddings(entries, front, answers, sha);
        match answers[n] {
            Some(v) => {
                assert(docs[n].sha@ != sha);
                lemma_lookup_put(before, docs[n].sha@, v, sha);
                let all = answered(front, answers).push((docs[n].sha@, v));
                assert(all.drop_last() =~= answered(front, answers));
            },
            None => {},
        }
    }
}

/// Storing the vectors of a batch leaves each object name unique.
proof fn lemma_batch_unique(
    entries: Seq<(Seq<char>, Seq<u32>)>,
    docs: Seq<Document>,
    answers: Seq<Option<Seq<u32>>>,
)
    requires
        unique_keys(entries),
    ensures
        unique_keys(put_all(entries, answered(docs, answers))),
    decreases docs.len(),
{
    if docs.len() > 0 {
        let front = docs.drop_last();
        let n = docs.len() - 1;
        lemma_batch_unique(entries, front, answers);
        match answers[n] {
            Some(v) => {
                let before = put_all(entries, answered(front, answers));
                lemma_lookup_put(before, docs[n].sha@, v, docs[n].sha@);
                let all = answered(front, answers).push((docs[n].sha@, v));
                assert(all.drop_last() =~= answered(front, answers));
            },
            None => {},
        }
    }
}

/// The embeddings after batches of documents are stored one after the other, where
/// `replies` holds the answers to each batch.
pub open spec fn stored(
    entries: Seq<(Seq<char>, Seq<u32>)>,
    batches: Seq<Seq<Document>>,
    replies: Seq<Seq<Option<Seq<u32>>>>,
) -> Seq<(Seq<char>, Seq<u32>)>
    decreases batches.len(),
{
    if batches.len() == 0 {
        entries
    } else {
        put_all(
            stored(entries, batches.drop_last(), replies.drop_last()),
            answered(batches.last(), replies.last()),
        )
    }
}

/// Is there an answer to each document of each batch?
pub open spec fn all_answered(
    batches: Seq<Seq<Document>>,
    replies: Seq<Seq<Option<Seq<u32>>>>,
) -> bool {
    &&& replies.len() == batches.len()
    &&& forall|b: int| 0 <= b < batches.len() ==> (#[trigger] replies[b]).len() == batches[b].len()
}

/// Storing pairs in two goes.
proof fn lemma_put_all_concat(
    m: Seq<(Seq<char>, Seq<u32>)>,
    p: Seq<(Seq<char>, Seq<u32>)>,
    q: Seq<(Seq<char>, Seq<u32>)>,
)
    ensures
        put_all(m, p + q) == put_all(put_all(m, p), q),
    decreases q.len(),
{
    if q.len() == 0 {
        assert(p + q =~= p);
    } else {
        lemma_put_all_concat(m, p, q.drop_last());
        assert((p + q).drop_last() =~= p + q.drop_last());
    }
}

/// The answers to two lists of documents.
proof fn lemma_answered_concat(
    a: Seq<Document>,
    b: Seq<Document>,
    x: Seq<Option<Seq<u32>>>,
    y: Seq<Option<Seq<u32>>>,
)
    requires
        x.len() == a.len(),
        y.len() >= b.len(),
    ensures
        answered(a + b, x + y) == answered(a, x) + answered(b, y),
    decreases b.len(),
{
    if b.len() == 0 {
        assert(a + b =~= a);
        lemma_answered_prefix(a, x, x + y);
        assert(answered(a, x) + answered(b, y) =~= answered(a, x));
    } else {
        lemma_answered_concat(a, b.drop_last(), x, y);
        assert((a + b).drop_last() =~= a + b.drop_last());
        assert((x + y)[a.len() + b.len() - 1] == y[b.len() - 1]);
        assert(answered(a + b, x + y) =~= answered(a, x) + answered(b, y));
    }
}

/// Batches hold every document once, in order.
pub proof fn law_document_batches_keep_all(docs: Seq<Document>, size: int)
    requires
        size > 0,
    ensures
        flattened(chunked(docs, size)) == docs,
    decreases docs.len(),
{
    if docs.len() == 0 {
        assert(flattened(chunked(docs, size)) =~= docs);
    } else if docs.len() <= size {
        lemma_flattened_one(docs);
    } else {
        let head = docs.take(size);
        law_document_batches_keep_all(docs.skip(size), size);
        lemma_flattened_one(head);
        lemma_flattened_concat(seq![head], chunked(docs.skip(size), size));
        assert(docs =~= head + docs.skip(size));
    }
}

/// Storing batches one after the other is storing all their documents at once.
pub proof fn law_batches_store_as_one(
    entries: Seq<(Seq<char>, Seq<u32>)>,
    batches: Seq<Seq<Document>>,
    replies: Seq<Seq<Option<Seq<u32>>>>,
)
    requires
        all_answered(batches, replies),
    ensures
        flattened(replies).len() == flattened(batches).len(),
        stored(entries, batches, replies) == put_all(
            entries,
            answered(flattened(batches), flattened(replies)),
        ),
    decreases batches.len(),
{
    if batches.len() > 0 {
        let front = batches.drop_last();
        let early = replies.drop_last();
        assert(replies[batches.len() - 1].len() == batches[batches.len() - 1].len());
        assert forall|b: int| 0 <= b < front.len() implies (#[trigger] early[b]).len()
            == front[b].len() by {
            assert(replies[b].len() == batches[b].len());
        }
        law_batches_store_as_one(entries, front, early);
        lemma_answered_concat(
            flattened(front),
            batches.last(),
            flattened(early),
            replies.last(),
        );
        lemma_put_all_concat(
            entries,
            answered(flattened(front), flattened(early)),
            answered(batches.last(), replies.last()),
        );
    }
}

/// The vector that the document with the object name got, if it got one.
pub open spec fn vector_for(
    docs: Seq<Document>,
    answers: Seq<Option<Seq<u32>>>,
    sha: Seq<char>,
) -> Option<Seq<u32>> {
    if exists|i: int| 0 <= i < docs.len() && (#[trigger] docs[i]).sha@ == sha {
        answers[choose|i: int| 0 <= i < docs.len() && (#[trigger] docs[i]).sha@ == sha]
    } else {
        None
    }
}

/// What a whole update leaves in the index, where no two documents share an object name:
/// under the object name of a document that got a vector, that vector; under every other
/// object name of the tree, the embedding from before; and nothing else.
pub proof fn law_update_result(
    entries: Seq<(Seq<char>, Seq<u32>)>,
    tree: Seq<Blob>,
    docs: Seq<Document>,
    size: int,
    replies: Seq<Seq<Option<Seq<u32>>>>,
    sha: Seq<char>,
)
    requires
        unique_keys(entries),
        forall|i: int, j: int|
            0 <= i < j < docs.len() ==> (#[trigger] docs[i]).sha@ != (#[trigger] docs[j]).sha@,
        size > 0,
        all_answered(chunked(docs, size), replies),
    ensures
        lookup(stored(live_entries(entries, tree), chunked(docs, size), replies), sha) == (
        match vector_for(docs, flattened(replies), sha) {
            Some(v) => Some(v),
            None => if is_live(tree, sha) {
                lookup(entries, sha)
            } else {
                None
            },
        }),
{
    let live = live_entries(entries, tree);
    let answers = flattened(replies);
    law_document_batches_keep_all(docs, size);
    law_batches_store_as_one(live, chunked(docs, size), replies);
    law_prune_keeps_the_living(entries, tree, sha);
    lemma_live_unique(entries, tree);
    match vector_for(docs, answers, sha) {
        Some(v) => {
            let i = choose|i: int| 0 <= i < docs.len() && (#[trigger] docs[i]).sha@ == sha;
            law_batch_stores_vectors(live, docs, answers, i);
        },
        None => {
            assert forall|i: int| 0 <= i < docs.len() && (#[trigger] docs[i]).sha@
                == sha implies answers[i] is None by {
                let j = choose|j: int| 0 <= j < docs.len() && (#[trigger] docs[j]).sha@ == sha;
                assert(i == j) by {
                    if i < j {
                        assert(docs[i].sha@ != docs[j].sha@);
                    } else if j < i {
                        assert(docs[j].sha@ != docs[i].sha@);
                    }
                }
            }
            law_batch_keeps_other_embeddings(live, docs, answers, sha);
        },
    }
}

/// A whole update keeps the vectors of contents that were embedded before and are still in
/// the tree: the documents are among the blobs that are to be embedded, so none of them has
/// an embedding yet.
pub proof fn law_update_keeps_vectors(
    entries: Seq<(Seq<char>, Seq<u32>)>,
    tree: Seq<Blob>,
    docs: Seq<Document>,
    size: int,
    replies: Seq<Seq<Option<Seq<u32>>>>,
    sha: Seq<char>,
)
    requires
        unique_keys(entries),
        forall|i: int, j: int|
            0 <= i < j < docs.len() ==> (#[trigger] docs[i]).sha@ != (#[trigger] docs[j]).sha@,
        forall|i: int|
            0 <= i < docs.len() ==> is_live(
                new_of(live_entries(entries, tree), tree),
                (#[trigger] docs[i]).sha@,
            ),
        size > 0,
        all_answered(chunked(docs, size), replies),
        has_key(entries, sha),
        is_live(tree, sha),
    ensures
        lookup(stored(live_entries(entries, tree), chunked(docs, size), replies), sha) == lookup(
            entries,
            sha,
        ),
{
    let live = live_entries(entries, tree);
    let new = new_of(live, tree);
    law_update_result(entries, tree, docs, size, replies, sha);
    law_prune_keeps_the_living(entries, tree, sha);
    law_new_content_once(live, tree);
    assert(has_key(live, sha));
    assert forall|i: int| 0 <= i < docs.len() implies (#[trigger] docs[i]).sha@ != sha by {
        assert(is_live(new, docs[i].sha@));
        let k = choose|k: int| 0 <= k < new.len() && (#[trigger] new[k]).sha == docs[i].sha@;
        assert(is_new(live, new[k]));
    }
}

/// Pruning leaves each object name unique.
proof fn lemma_live_unique(entries: Seq<(Seq<char>, Seq<u32>)>, tree: Seq<Blob>)
    requires
        unique_keys(entries),
    ensures
        unique_keys(live_entries(entries, tree)),
    decreases entries.len(),
{
    reveal(Seq::filter);
    let pred = |e: (Seq<char>, Seq<u32>)| is_live(tree, e.0);
    let kept = live_entries(entries, tree);
    if entries.len() > 0 {
        let front = entries.drop_last();
        let early = live_entries(front, tree);
        assert forall|i: int, j: int| 0 <= i < j < front.len() implies (#[trigger] front[i]).0 != (
        #[trigger] front[j]).0 by {
            assert(front[i] == entries[i] && front[j] == entries[j]);
        }
        lemma_live_unique(front, tree);
        assert forall|i: int, j: int| 0 <= i < j < kept.len() implies (#[trigger] kept[i]).0 != (
        #[trigger] kept[j]).0 by {
            assert(kept[i] == early[i]);
            if j < early.len() {
                assert(kept[j] == early[j]);
            } else {
                assert(early.contains(early[i]));
                lemma_filter_contains(front, pred, early[i]);
                let k = choose|k: int| 0 <= k < front.len() && front[k] == early[i];
                assert(entries[k].0 != entries[entries.len() - 1].0);
            }
        }
    }
}

// ---------------------------------------------------------------------------
// Laws on the steps of an update
// ---------------------------------------------------------------------------

/// Can a blob that was read be embedded: is it text of 1 to 102400 bytes?
pub open spec fn embeddable(x: (TreeEntry, Result<String, GitError>)) -> bool {
    match x.1 {
        Ok(content) => 1 <= encode_utf8(content@).len() <= 102400,
        Err(_) => false,
    }
}

/// Which of the blobs that were read the documents and the notes are about.
proof fn lemma_selection(read: Seq<(TreeEntry, Result<String, GitError>)>) -> (w: (
    Seq<int>,
    Seq<int>,
))
    ensures
        ({
            let (d, s) = w;
            &&& d.len() == documents_of(read).len()
            &&& s.len() == notes_of(read).len()
            &&& forall|i: int| 0 <= i < d.len() ==> 0 <= #[trigger] d[i] < read.len()
            &&& forall|i: int| 0 <= i < s.len() ==> 0 <= #[trigger] s[i] < read.len()
            &&& forall|i: int, j: int| 0 <= i < j < d.len() ==> #[trigger] d[i] < #[trigger] d[j]
            &&& forall|i: int, j: int| 0 <= i < j < s.len() ==> #[trigger] s[i] < #[trigger] s[j]
            &&& forall|k: int|
                0 <= k < read.len() ==> (#[trigger] d.contains(k) <==> embeddable(read[k]))
            &&& forall|k: int|
                0 <= k < read.len() ==> (#[trigger] s.contains(k) <==> !embeddable(read[k]))
            &&& forall|i: int|
                0 <= i < d.len() ==> {
                    &&& documents_of(read)[i].sha == read[#[trigger] d[i]].0.blob_sha@
                    &&& documents_of(read)[i].path == read[d[i]].0.path@
                    &&& documents_of(read)[i].content == read[d[i]].1->Ok_0@
                }
            &&& forall|i: int|
                0 <= i < s.len() ==> notes_of(read)[i] == "  ✗ "@ + read[#[trigger] s[i]].0.path@
                    + (match read[s[i]].1 {
                    Ok(_) => " (skipped: size)"@,
                    Err(e) => ": "@ + e.sentence(),
                })
        }),
    decreases read.len(),
{
    if read.len() == 0 {
        (seq![], seq![])
    } else {
        let front = read.drop_last();
        let n = read.len() - 1;
        let (d, s) = lemma_selection(front);
        assert(forall|k: int| 0 <= k < n ==> #[trigger] front[k] == read[k]);
        if embeddable(read[n]) {
            let e = d.push(n);
            assert forall|k: int| 0 <= k < read.len() implies (#[trigger] e.contains(k)
                <==> embeddable(read[k])) by {
                if k == n {
                    assert(e[d.len() as int] == k);
                } else {
                    if d.contains(k) {
                        let i = choose|i: int| 0 <= i < d.len() && d[i] == k;
                        assert(e[i] == k);
                    }
                    if e.contains(k) {
                        let i = choose|i: int| 0 <= i < e.len() && e[i] == k;
                        assert(d[i] == k);
                    }
                    assert(d.contains(k) <==> embeddable(front[k]));
                }
            }
            assert forall|k: int| 0 <= k < read.len() implies (#[trigger] s.contains(k)
                <==> !embeddable(read[k])) by {
                if k < n {
                    assert(s.contains(k) <==> !embeddable(front[k]));
                }
            }
            (e, s)
        } else {
            let t = s.push(n);
            assert forall|k: int| 0 <= k < read.len() implies (#[trigger] t.contains(k)
                <==> !embeddable(read[k])) by {
                if k == n {
                    assert(t[s.len() as int] == k);
                } else {
                    if s.contains(k) {
                        let i = choose|i: int| 0 <= i < s.len() && s[i] == k;
                        assert(t[i] == k);
                    }
                    if t.contains(k) {
                        let i = choose|i: int| 0 <= i < t.len() && t[i] == k;
                        assert(s[i] == k);
                    }
                    assert(s.contains(k) <==> !embeddable(front[k]));
                }
            }
            assert forall|k: int| 0 <= k < read.len() implies (#[trigger] d.contains(k)
                <==> embeddable(read[k])) by {
                if k < n {
                    assert(d.contains(k) <==> embeddable(front[k]));
                }
            }
            let notes = notes_of(read);
            assert(notes[s.len() as int] =~= "  ✗ "@ + read[n].0.path@ + (match read[n].1 {
                Ok(_) => " (skipped: size)"@,
                Err(e) => ": "@ + e.sentence(),
            }));
            (d, t)
        }
    }
}

/// The documents that [`select_documents`] gives are the blobs that are text of 1 to 102400
/// bytes, all of them and in their order, each with its object name, its path and its whole
/// content: document `i` is blob `d[i]`. Each of the other blobs, in their order, has a note
/// with its path and why it is left out: note `i` is about blob `s[i]`.
pub proof fn law_select_documents(
    read: &Vec<(TreeEntry, Result<String, GitError>)>,
    r: (Vec<Document>, Vec<String>),
) -> (w: (Seq<int>, Seq<int>))
    requires
        call_ensures(select_documents, (read,), r),
    ensures
        ({
            let (d, s) = w;
            &&& d.len() == r.0@.len()
            &&& s.len() == r.1@.len()
            &&& forall|i: int, j: int| 0 <= i < j < d.len() ==> #[trigger] d[i] < #[trigger] d[j]
            &&& forall|i: int, j: int| 0 <= i < j < s.len() ==> #[trigger] s[i] < #[trigger] s[j]
            &&& forall|k: int|
                0 <= k < read@.len() ==> (#[trigger] d.contains(k) <==> embeddable(read@[k]))
            &&& forall|k: int|
                0 <= k < read@.len() ==> (#[trigger] s.contains(k) <==> !embeddable(read@[k]))
            &&& forall|i: int|
                0 <= i < d.len() ==> {
                    &&& 0 <= #[trigger] d[i] < read@.len()
                    &&& read@[d[i]].1 is Ok
                    &&& r.0@[i].content@ == read@[d[i]].1->Ok_0@
                    &&& r.0@[i].sha@ == read@[d[i]].0.blob_sha@
                    &&& r.0@[i].path@ == read@[d[i]].0.path@
                }
            &&& forall|i: int|
                0 <= i < s.len() ==> {
                    &&& 0 <= #[trigger] s[i] < read@.len()
                    &&& r.1@[i]@ == "  ✗ "@ + read@[s[i]].0.path@ + (match read@[s[i]].1 {
                        Ok(_) => " (skipped: size)"@,
                        Err(e) => ": "@ + e.sentence(),
                    })
                }
        }),
{
    let (d, s) = lemma_selection(read@);
    let docs = document_models(r.0@);
    assert(docs.len() == r.0@.len());
    assert(texts(r.1@).len() == r.1@.len());
    assert(forall|i: int| 0 <= i < r.0@.len() ==> #[trigger] docs[i] == r.0@[i]@);
    assert(forall|i: int| 0 <= i < r.1@.len() ==> #[trigger] texts(r.1@)[i] == r.1@[i]@);
    assert forall|i: int| 0 <= i < d.len() implies {
        &&& 0 <= #[trigger] d[i] < read@.len()
        &&& read@[d[i]].1 is Ok
        &&& r.0@[i].content@ == read@[d[i]].1->Ok_0@
        &&& r.0@[i].sha@ == read@[d[i]].0.blob_sha@
        &&& r.0@[i].path@ == read@[d[i]].0.path@
    } by {
        assert(docs[i] == r.0@[i]@);
        assert(d.contains(d[i]));
    }
    assert forall|i: int| 0 <= i < s.len() implies {
        &&& 0 <= #[trigger] s[i] < read@.len()
        &&& r.1@[i]@ == "  ✗ "@ + read@[s[i]].0.path@ + (match read@[s[i]].1 {
            Ok(_) => " (skipped: size)"@,
            Err(e) => ": "@ + e.sentence(),
        })
    } by {
        assert(texts(r.1@)[i] == r.1@[i]@);
    }
    (d, s)
}

/// The documents among blobs that were read have the whole contents that were read, and every
/// text of 1 to 102400 bytes is among them.
pub proof fn law_documents_have_their_contents(
    read: Seq<(TreeEntry, Result<String, GitError>)>,
    i: int,
    k: int,
)
    ensures
        0 <= i < documents_of(read).len() ==> exists|j: int|
            0 <= j < read.len() && (#[trigger] read[j]).1 is Ok && read[j].1->Ok_0@
                == documents_of(read)[i].content && read[j].0.blob_sha@ == documents_of(read)[i].sha
                && read[j].0.path@ == documents_of(read)[i].path && 1 <= encode_utf8(
                documents_of(read)[i].content,
            ).len() <= 102400,
        0 <= k < read.len() && read[k].1 is Ok && 1 <= encode_utf8(read[k].1->Ok_0@).len()
            <= 102400 ==> documents_of(read).contains(
            (DocumentModel {
                sha: read[k].0.blob_sha@,
                path: read[k].0.path@,
                content: read[k].1->Ok_0@,
            }),
        ),
{
    let (d, s) = lemma_selection(read);
    if 0 <= i < d.len() {
        assert(d.contains(d[i]));
        assert(embeddable(read[d[i]]));
    }
    if 0 <= k < read.len() && embeddable(read[k]) {
        assert(d.contains(k));
        let j = choose|j: int| 0 <= j < d.len() && d[j] == k;
        assert(documents_of(read)[j].sha == read[d[j]].0.blob_sha@);
        assert(documents_of(read)[j] == (DocumentModel {
            sha: read[k].0.blob_sha@,
            path: read[k].0.path@,
            content: read[k].1->Ok_0@,
        }));
    }
}

/// A content is accepted just where it has 1 to 102400 bytes.
pub proof fn law_content_accepted(content: &str, r: bool)
    requires
        call_ensures(content_accepted, (content,), r),
    ensures
        r <==> 1 <= encode_utf8(content@).len() <= 102400,
{
}

/// Where document `at` stands among the batches.
proof fn lemma_chunked<A>(docs: Seq<A>, size: int, b: int)
    requires
        size > 0,
    ensures
        docs.len() <= chunked(docs, size).len() * size < docs.len() + size,
        0 <= b < chunked(docs, size).len() ==> {
            &&& b * size < docs.len()
            &&& chunked(docs, size)[b] == docs.subrange(
                b * size,
                if (b + 1) * size <= docs.len() {
                    (b + 1) * size
                } else {
                    docs.len() as int
                },
            )
        },
    decreases docs.len(),
{
    let all = chunked(docs, size);
    if docs.len() == 0 {
        assert(all.len() * size == 0) by (nonlinear_arith)
            requires
                all.len() == 0,
        ;
    } else if docs.len() <= size {
        assert(all.len() * size == size) by (nonlinear_arith)
            requires
                all.len() == 1,
        ;
        if b == 0 {
            assert(0 * size == 0 && (0 + 1) * size == size) by (nonlinear_arith);
            assert(docs.subrange(0, docs.len() as int) =~= docs);
        }
    } else {
        let rest = docs.skip(size);
        let tail = chunked(rest, size);
        lemma_chunked(rest, size, b - 1);
        assert(all.len() * size == tail.len() * size + size) by (nonlinear_arith)
            requires
                all.len() == tail.len() + 1,
        ;
        if b == 0 {
            assert(0 * size == 0 && (0 + 1) * size == size) by (nonlinear_arith);
            assert(docs.subrange(0, size) =~= docs.take(size));
        } else if 0 < b < all.len() {
            assert(all[b] == tail[b - 1]);
            assert((b - 1) * size == b * size - size && (b - 1 + 1) * size == (b + 1) * size - size)
                by (nonlinear_arith);
            let to = if (b + 1) * size <= docs.len() {
                (b + 1) * size
            } else {
                docs.len() as int
            };
            assert(0 <= (b - 1) * size) by (nonlinear_arith)
                requires
                    b >= 1,
                    size > 0,
            ;
            assert((b - 1) * size <= (b + 1) * size - size) by (nonlinear_arith)
                requires
                    size > 0,
            ;
            assert(rest.subrange((b - 1) * size, to - size) =~= docs.subrange(b * size, to));
        }
    }
}

/// The batches of documents: as many as are needed, each full but for the last, and batch `b`
/// holds the documents from place `b * size` on, in their order.
pub proof fn law_document_batches(
    docs: Vec<Document>,
    size: usize,
    r: Vec<Vec<Document>>,
    b: int,
)
    requires
        size > 0,
        call_ensures(document_batches, (docs, size), r),
    ensures
        docs@.len() <= r@.len() * size < docs@.len() + size,
        0 <= b < r@.len() ==> {
            &&& b * size < docs@.len()
            &&& r@[b]@ == docs@.subrange(
                b * size,
                if (b + 1) * size <= docs@.len() {
                    (b + 1) * size
                } else {
                    docs@.len() as int
                },
            )
        },
{
    lemma_chunked(docs@, size as int, b);
    assert(batch_lists(r@).len() == r@.len());
    if 0 <= b < r@.len() {
        assert(batch_lists(r@)[b] == r@[b]@);
    }
}

/// The size of a batch is between 1 and 32. A batch of more than one document has room beside
/// the 800 MiB of the model and 256 MiB of headroom, at 90 MiB for each document; and one more
/// document would not, unless there are 32 already.
pub proof fn law_auto_batch_size(available: u64, r: usize)
    requires
        call_ensures(auto_batch_size, (available,), r),
    ensures
        1 <= r <= 32,
        r > 1 ==> 838_860_800 + 268_435_456 + r * 94_371_840 <= available,
        r < 32 ==> 838_860_800 + 268_435_456 + (r + 1) * 94_371_840 > available,
{
    let spare = available - 838_860_800 - 268_435_456;
    assert((available - MODEL_BYTES - HEADROOM_BYTES) / (DOCUMENT_BYTES as int) == spare
        / 94_371_840);
}

/// Without words there is no query. One word is the query, and one more word stands behind a
/// blank.
pub proof fn law_query_text(
    words: &Vec<String>,
    more: &Vec<String>,
    r: Option<String>,
    s: Option<String>,
)
    requires
        call_ensures(query_text, (words,), r),
        call_ensures(query_text, (more,), s),
        more@.len() == words@.len() + 1,
        forall|i: int| 0 <= i < words@.len() ==> (#[trigger] more@[i])@ == words@[i]@,
    ensures
        s is Some,
        words@.len() == 0 ==> r is None && s->0@ == more@[0]@,
        words@.len() > 0 ==> r is Some && s->0@ == r->0@ + " "@ + more@[words@.len() as int]@,
{
    let a = texts(words@);
    let last = more@[words@.len() as int]@;
    assert(texts(more@) =~= a + seq![last]);
    law_join(a, seq![last], " "@);
    law_join(seq![last], a, " "@);
    if words@.len() == 0 {
        assert(a + seq![last] =~= seq![last]);
    }
}

/// A text is a number just where it consists of digits, and then denotes their value.
pub proof fn law_number_in(s: Seq<char>)
    ensures
        number_in(s) is Some <==> s.len() > 0 && forall|i: int|
            0 <= i < s.len() ==> '0' <= #[trigger] s[i] <= '9',
        number_in(s) is Some ==> number_in(s)->0 == digits_value(s),
    decreases s.len(),
{
    if s.len() > 0 {
        let front = s.drop_last();
        law_number_in(front);
        assert(s.last() == s[s.len() - 1]);
        assert(forall|i: int| 0 <= i < front.len() ==> #[trigger] front[i] == s[i]);
        if s.len() == 1 {
            assert(front =~= seq![]);
            assert(digits_value(front) == 0);
        }
        if forall|i: int| 0 <= i < s.len() ==> '0' <= #[trigger] s[i] <= '9' {
            assert forall|i: int| 0 <= i < front.len() implies '0' <= #[trigger] front[i]
                <= '9' by {
                assert(front[i] == s[i]);
            }
        }
        if number_in(s) is Some && s.len() > 1 {
            assert forall|i: int| 0 <= i < s.len() implies '0' <= #[trigger] s[i] <= '9' by {
                if i < front.len() {
                    assert(front[i] == s[i]);
                }
            }
        }
    }
}

/// What trimming leaves of a text between white space.
proof fn lemma_trim_between(a: Seq<char>, t: Seq<char>, b: Seq<char>)
    requires
        t.len() > 0,
        !white_space(t[0]),
        !white_space(t[t.len() - 1]),
        forall|i: int| 0 <= i < a.len() ==> white_space(#[trigger] a[i]),
        forall|i: int| 0 <= i < b.len() ==> white_space(#[trigger] b[i]),
    ensures
        trim(a + t + b) == t,
{
    let s = a + t + b;
    let at = law_trim(s);
    let u = trim(s);
    let first = a.len() as int;
    let last = a.len() + t.len() - 1;
    assert(s[first] == t[0]);
    assert(s[last] == t[t.len() - 1]);
    assert(at <= first < at + u.len());
    assert(at <= last < at + u.len());
    assert(u[0] == s[at]);
    assert(u[u.len() - 1] == s[at + u.len() - 1]);
    if at < first {
        assert(s[at] == a[at]);
    }
    if at + u.len() - 1 > last {
        assert(s[at + u.len() - 1] == b[at + u.len() - 1 - last - 1]);
    }
    assert(u =~= t);
}

/// The memory that is available is told by the first line that starts with `MemAvailable:`: the
/// digits behind that are a number of kibibytes, with the unit `kB` behind it and white space
/// around both. A number of bytes that does not fit is not given.
pub proof fn law_available_memory(
    info: &str,
    i: int,
    a: Seq<char>,
    digits: Seq<char>,
    b: Seq<char>,
    c: Seq<char>,
    r: Option<u64>,
)
    requires
        call_ensures(available_memory, (info,), r),
        0 <= i < lines(info@).len(),
        lines(info@)[i] == "MemAvailable:"@ + (a + digits + b + "kB"@ + c),
        forall|j: int|
            0 <= j < i ==> !"MemAvailable:"@.is_prefix_of(#[trigger] lines(info@)[j]),
        digits.len() > 0,
        forall|k: int| 0 <= k < digits.len() ==> '0' <= #[trigger] digits[k] <= '9',
        forall|k: int| 0 <= k < a.len() ==> white_space(#[trigger] a[k]),
        forall|k: int| 0 <= k < b.len() ==> white_space(#[trigger] b[k]),
        forall|k: int| 0 <= k < c.len() ==> white_space(#[trigger] c[k]),
    ensures
        digits_value(digits) * 1024 <= u64::MAX ==> r is Some && r->0 == digits_value(digits)
            * 1024,
        digits_value(digits) * 1024 > u64::MAX ==> r is None,
{
    reveal_strlit("kB");
    let ls = lines(info@);
    let head = "MemAvailable:"@;
    let entry = a + digits + b + "kB"@ + c;
    lemma_memory_entry(ls, i);
    assert(head.is_prefix_of(ls[i])) by {
        assert(ls[i].take(head.len() as int) =~= head);
    }
    assert(ls[i].skip(head.len() as int) =~= entry);
    let t = digits + b + "kB"@;
    assert(entry =~= a + t + c);
    assert(t[0] == digits[0]);
    assert(t[t.len() - 1] == 'B');
    lemma_trim_between(a, t, c);
    let n = t.len() - 2;
    assert("kB"@.is_suffix_of(t)) by {
        assert(t.subrange(n, t.len() as int) =~= "kB"@);
    }
    assert(t.take(n) =~= Seq::<char>::empty() + digits + b);
    lemma_trim_between(Seq::<char>::empty(), digits, b);
    law_number_in(digits);
    assert(number_in(digits) is Some);
}

/// Without a line that starts with `MemAvailable:` the available memory is not known; nor where
/// the first such line does not end in `kB`, white space apart.
pub proof fn law_memory_unknown(info: &str, r: Option<u64>)
    requires
        call_ensures(available_memory, (info,), r),
    ensures
        (forall|j: int|
            0 <= j < lines(info@).len() ==> !"MemAvailable:"@.is_prefix_of(
                #[trigger] lines(info@)[j],
            )) ==> r is None,
        r is Some ==> exists|i: int|
            0 <= i < lines(info@).len() && "MemAvailable:"@.is_prefix_of(
                #[trigger] lines(info@)[i],
            ) && "kB"@.is_suffix_of(trim(lines(info@)[i].skip("MemAvailable:"@.len() as int))),
{
    let ls = lines(info@);
    let head = "MemAvailable:"@;
    if exists|i: int| 0 <= i < ls.len() && head.is_prefix_of(#[trigger] ls[i]) {
        let i = lemma_first_entry(ls);
        lemma_memory_entry(ls, i);
    } else {
        lemma_no_memory_entry(ls);
    }
}

/// The first line that tells the available memory.
proof fn lemma_first_entry(ls: Seq<Seq<char>>) -> (i: int)
    requires
        exists|i: int| 0 <= i < ls.len() && "MemAvailable:"@.is_prefix_of(#[trigger] ls[i]),
    ensures
        0 <= i < ls.len(),
        "MemAvailable:"@.is_prefix_of(ls[i]),
        forall|j: int| 0 <= j < i ==> !"MemAvailable:"@.is_prefix_of(#[trigger] ls[j]),
    decreases ls.len(),
{
    if "MemAvailable:"@.is_prefix_of(ls[0]) {
        0
    } else {
        let k = choose|k: int| 0 <= k < ls.len() && "MemAvailable:"@.is_prefix_of(#[trigger] ls[k]);
        let rest = ls.skip(1);
        assert(rest[k - 1] == ls[k]);
        let i = lemma_first_entry(rest);
        assert forall|j: int| 0 <= j < i + 1 implies !"MemAvailable:"@.is_prefix_of(
            #[trigger] ls[j],
        ) by {
            if j > 0 {
                assert(rest[j - 1] == ls[j]);
            }
        }
        i + 1
    }
}

/// The entry of the first line that tells the available memory.
proof fn lemma_memory_entry(ls: Seq<Seq<char>>, i: int)
    requires
        0 <= i < ls.len(),
        forall|j: int| 0 <= j < i ==> !"MemAvailable:"@.is_prefix_of(#[trigger] ls[j]),
    ensures
        "MemAvailable:"@.is_prefix_of(ls[i]) ==> memory_entry(ls) == Some(
            ls[i].skip("MemAvailable:"@.len() as int),
        ),
    decreases i,
{
    if i > 0 {
        let rest = ls.skip(1);
        assert(rest[i - 1] == ls[i]);
        assert forall|j: int| 0 <= j < i - 1 implies !"MemAvailable:"@.is_prefix_of(
            #[trigger] rest[j],
        ) by {
            assert(rest[j] == ls[j + 1]);
        }
        assert(!"MemAvailable:"@.is_prefix_of(ls[0]));
        lemma_memory_entry(rest, i - 1);
    }
}

/// No line tells the available memory.
proof fn lemma_no_memory_entry(ls: Seq<Seq<char>>)
    requires
        forall|j: int| 0 <= j < ls.len() ==> !"MemAvailable:"@.is_prefix_of(#[trigger] ls[j]),
    ensures
        memory_entry(ls) is None,
    decreases ls.len(),
{
    if ls.len() > 0 {
        let rest = ls.skip(1);
        assert forall|j: int| 0 <= j < rest.len() implies !"MemAvailable:"@.is_prefix_of(
            #[trigger] rest[j],
        ) by {
            assert(rest[j] == ls[j + 1]);
        }
        assert(!"MemAvailable:"@.is_prefix_of(ls[0]));
        lemma_no_memory_entry(rest);
    }
}

/// Is there a file in the tree with this object name?
pub open spec fn in_tree(entries: Seq<TreeEntry>, sha: Seq<char>) -> bool {
    exists|j: int| 0 <= j < entries.len() && (#[trigger] entries[j]).blob_sha@ == sha
}

/// The object names of a tree.
proof fn lemma_in_tree(entries: Seq<TreeEntry>, sha: Seq<char>)
    ensures
        is_live(blobs(entries), sha) <==> in_tree(entries, sha),
{
    let tree = blobs(entries);
    assert(forall|j: int| 0 <= j < entries.len() ==> #[trigger] tree[j] == entries[j]@);
    if is_live(tree, sha) {
        let j = choose|j: int| 0 <= j < tree.len() && (#[trigger] tree[j]).sha == sha;
        assert(entries[j].blob_sha@ == sha);
    }
    if in_tree(entries, sha) {
        let j = choose|j: int| 0 <= j < entries.len() && (#[trigger] entries[j]).blob_sha@ == sha;
        assert(tree[j].sha == sha);
    }
}

/// Is `after` what is left of the index `before` without the embeddings whose object name no
/// file of the tree has? Embedding `i` is embedding `kept[i]` from before.
pub open spec fn left_over(
    before: IndexModel,
    after: IndexModel,
    entries: Seq<TreeEntry>,
    kept: Seq<int>,
) -> bool {
    &&& after.version == before.version
    &&& after.model == before.model
    &&& after.dims == before.dims
    &&& after.entries.len() == kept.len()
    &&& forall|i: int, j: int|
        0 <= i < j < kept.len() ==> #[trigger] kept[i] < #[trigger] kept[j]
    &&& forall|i: int|
        0 <= i < kept.len() ==> 0 <= #[trigger] kept[i] < before.entries.len() && after.entries[i]
            == before.entries[kept[i]]
    &&& forall|k: int|
        0 <= k < before.entries.len() ==> (#[trigger] kept.contains(k) <==> in_tree(
            entries,
            before.entries[k].0,
        ))
}

/// The embeddings that are left.
proof fn lemma_left_over(before: IndexModel, entries: Seq<TreeEntry>) -> (kept: Seq<int>)
    ensures
        left_over(
            before,
            (IndexModel { entries: live_entries(before.entries, blobs(entries)), ..before }),
            entries,
            kept,
        ),
{
    let pred = |e: (Seq<char>, Seq<u32>)| is_live(blobs(entries), e.0);
    let kept = lemma_filter_picks(before.entries, pred);
    assert forall|k: int| 0 <= k < before.entries.len() implies (#[trigger] kept.contains(k)
        <==> in_tree(entries, before.entries[k].0)) by {
        lemma_in_tree(entries, before.entries[k].0);
    }
    kept
}

/// Pruning leaves the embeddings whose object name a file of the tree has, all of them and in
/// their order, and tells how many have gone.
pub proof fn law_prune(index: &mut EmbedIndex, entries: &Vec<TreeEntry>, r: usize) -> (kept: Seq<
    int,
>)
    requires
        call_ensures(prune, (index, entries), r),
    ensures
        left_over(old(index)@, final(index)@, entries@, kept),
        r == old(index)@.entries.len() - final(index)@.entries.len(),
{
    lemma_left_over(old(index)@, entries@)
}

/// Are these the files to embed? File `i` is file `picks[i]` of the tree. Picked are, in their
/// order, the text files without an embedding that are the first with their object name among
/// the text files.
pub open spec fn picked(
    known: Seq<(Seq<char>, Seq<u32>)>,
    entries: Seq<TreeEntry>,
    found: Seq<TreeEntry>,
    picks: Seq<int>,
) -> bool {
    &&& found.len() == picks.len()
    &&& forall|i: int, j: int|
        0 <= i < j < picks.len() ==> #[trigger] picks[i] < #[trigger] picks[j]
    &&& forall|i: int|
        0 <= i < picks.len() ==> {
            &&& 0 <= #[trigger] picks[i] < entries.len()
            &&& found[i].path@ == entries[picks[i]].path@
            &&& found[i].blob_sha@ == entries[picks[i]].blob_sha@
        }
    &&& forall|k: int|
        0 <= k < entries.len() ==> (#[trigger] picks.contains(k) <==> {
            &&& text_path(entries[k].path@)
            &&& forall|e: int|
                0 <= e < known.len() ==> (#[trigger] known[e]).0 != entries[k].blob_sha@
            &&& forall|j: int|
                0 <= j < k && text_path((#[trigger] entries[j]).path@) ==> entries[j].blob_sha@
                    != entries[k].blob_sha@
        })
}

/// Is the blob the first new one with its object name?
spec fn first_new(known: Seq<(Seq<char>, Seq<u32>)>, tree: Seq<Blob>, k: int) -> bool {
    is_new(known, tree[k]) && forall|j: int|
        0 <= j < k && is_new(known, #[trigger] tree[j]) ==> tree[j].sha != tree[k].sha
}

/// Which blobs are to be embedded.
proof fn lemma_new_picks(known: Seq<(Seq<char>, Seq<u32>)>, tree: Seq<Blob>) -> (picks: Seq<int>)
    ensures
        picks.len() == new_of(known, tree).len(),
        forall|i: int, j: int|
            0 <= i < j < picks.len() ==> #[trigger] picks[i] < #[trigger] picks[j],
        forall|i: int|
            0 <= i < picks.len() ==> 0 <= #[trigger] picks[i] < tree.len() && new_of(
                known,
                tree,
            )[i] == tree[picks[i]],
        forall|k: int|
            0 <= k < tree.len() ==> (#[trigger] picks.contains(k) <==> first_new(known, tree, k)),
    decreases tree.len(),
{
    if tree.len() == 0 {
        seq![]
    } else {
        let front = tree.drop_last();
        let n = tree.len() - 1;
        let found = new_of(known, front);
        let before = lemma_new_picks(known, front);
        law_new_content_once(known, front);
        assert(forall|k: int| 0 <= k < n ==> #[trigger] front[k] == tree[k]);
        let added = is_new(known, tree[n]) && !is_live(found, tree[n].sha);
        assert(added <==> first_new(known, tree, n)) by {
            if is_live(found, tree[n].sha) {
                let i = choose|i: int|
                    0 <= i < found.len() && (#[trigger] found[i]).sha == tree[n].sha;
                assert(found[i] == front[before[i]]);
                assert(is_new(known, found[i]));
                assert(tree[before[i]].sha == tree[n].sha);
            } else {
                assert forall|j: int| 0 <= j < n && is_new(known, #[trigger] tree[j]) implies
                    tree[j].sha != tree[n].sha by {
                    assert(is_new(known, front[j]));
                }
            }
        }
        let picks = if added {
            before.push(n)
        } else {
            before
        };
        assert forall|k: int| 0 <= k < tree.len() implies (#[trigger] picks.contains(k)
            <==> first_new(known, tree, k)) by {
            if k == n {
                if added {
                    assert(picks[before.len() as int] == k);
                }
            } else {
                assert(first_new(known, front, k) <==> first_new(known, tree, k)) by {
                    assert forall|j: int| 0 <= j < k implies #[trigger] front[j] == tree[j] by {}
                    if first_new(known, front, k) {
                        assert forall|j: int| 0 <= j < k && is_new(
                            known,
                            #[trigger] tree[j],
                        ) implies tree[j].sha != tree[k].sha by {
                            assert(is_new(known, front[j]));
                        }
                    }
                    if first_new(known, tree, k) {
                        assert forall|j: int| 0 <= j < k && is_new(
                            known,
                            #[trigger] front[j],
                        ) implies front[j].sha != front[k].sha by {
                            assert(is_new(known, tree[j]));
                        }
                    }
                }
                assert(before.contains(k) <==> first_new(known, front, k));
                if before.contains(k) {
                    let i = choose|i: int| 0 <= i < before.len() && before[i] == k;
                    assert(picks[i] == k);
                }
                if picks.contains(k) {
                    let i = choose|i: int| 0 <= i < picks.len() && picks[i] == k;
                    assert(before[i] == k);
                }
            }
        }
        assert forall|i: int| 0 <= i < picks.len() implies 0 <= #[trigger] picks[i] < tree.len()
            && new_of(known, tree)[i] == tree[picks[i]] by {
            if i < before.len() {
                assert(picks[i] == before[i]);
                assert(new_of(known, tree)[i] == found[i]);
            }
        }
        picks
    }
}

/// Which files are to be embedded.
proof fn lemma_picked(
    known: Seq<(Seq<char>, Seq<u32>)>,
    entries: Seq<TreeEntry>,
    found: Seq<TreeEntry>,
) -> (picks: Seq<int>)
    requires
        blobs(found) == new_of(known, blobs(entries)),
    ensures
        picked(known, entries, found, picks),
{
    let tree = blobs(entries);
    let picks = lemma_new_picks(known, tree);
    assert(blobs(found).len() == found.len());
    assert(forall|k: int| 0 <= k < entries.len() ==> #[trigger] tree[k] == entries[k]@);
    assert(forall|i: int| 0 <= i < found.len() ==> #[trigger] blobs(found)[i] == found[i]@);
    assert forall|i: int| 0 <= i < picks.len() implies {
        &&& 0 <= #[trigger] picks[i] < entries.len()
        &&& found[i].path@ == entries[picks[i]].path@
        &&& found[i].blob_sha@ == entries[picks[i]].blob_sha@
    } by {
        assert(blobs(found)[i] == found[i]@);
        assert(tree[picks[i]] == entries[picks[i]]@);
    }
    assert forall|k: int| 0 <= k < entries.len() implies (#[trigger] picks.contains(k) <==> {
        &&& text_path(entries[k].path@)
        &&& forall|e: int| 0 <= e < known.len() ==> (#[trigger] known[e]).0 != entries[k].blob_sha@
        &&& forall|j: int|
            0 <= j < k && text_path((#[trigger] entries[j]).path@) ==> entries[j].blob_sha@
                != entries[k].blob_sha@
    }) by {
        let sha = entries[k].blob_sha@;
        assert(tree[k] == entries[k]@);
        assert(picks.contains(k) <==> first_new(known, tree, k));
        if first_new(known, tree, k) {
            assert forall|e: int| 0 <= e < known.len() implies (#[trigger] known[e]).0 != sha by {
                if known[e].0 == sha {
                    assert(has_key(known, sha));
                }
            }
            assert forall|j: int|
                0 <= j < k && text_path((#[trigger] entries[j]).path@) implies entries[j].blob_sha@
                != sha by {
                assert(tree[j] == entries[j]@);
                if entries[j].blob_sha@ == sha {
                    assert(is_new(known, tree[j]));
                }
            }
        }
        if text_path(entries[k].path@) && (forall|e: int|
            0 <= e < known.len() ==> (#[trigger] known[e]).0 != sha) && (forall|j: int|
            0 <= j < k && text_path((#[trigger] entries[j]).path@) ==> entries[j].blob_sha@
                != sha) {
            assert forall|j: int| 0 <= j < k && is_new(known, #[trigger] tree[j]) implies
                tree[j].sha != tree[k].sha by {
                assert(tree[j] == entries[j]@);
                assert(text_path(entries[j].path@));
            }
            assert(first_new(known, tree, k));
        }
    }
    picks
}

/// The files to embed are the text files whose object name has no embedding, each object name
/// once, with the first of its text files, in the order of the tree.
pub proof fn law_new_blobs(
    index: &EmbedIndex,
    entries: &Vec<TreeEntry>,
    r: Vec<TreeEntry>,
) -> (picks: Seq<int>)
    requires
        call_ensures(new_blobs, (index, entries), r),
    ensures
        picked(index@.entries, entries@, r@, picks),
{
    lemma_picked(index@.entries, entries@, r@)
}

/// The start of an update: the index is pruned, the files to embed are the text files without
/// an embedding in what is left, and there is something to do just where there are such files
/// or embeddings have gone.
pub proof fn law_plan_update(
    index: &mut EmbedIndex,
    entries: &Vec<TreeEntry>,
    r: UpdatePlan,
) -> (w: (Seq<int>, Seq<int>))
    requires
        call_ensures(plan_update, (index, entries), r),
    ensures
        left_over(old(index)@, final(index)@, entries@, w.0),
        picked(final(index)@.entries, entries@, r.new_blobs@, w.1),
        r.pruned == old(index)@.entries.len() - final(index)@.entries.len(),
        r.step is Index <==> r.new_blobs@.len() > 0,
        r.step is SaveOnly <==> r.new_blobs@.len() == 0 && r.pruned > 0,
        r.step is Current <==> r.new_blobs@.len() == 0 && r.pruned == 0,
{
    let live = live_entries(old(index)@.entries, blobs(entries@));
    (lemma_left_over(old(index)@, entries@), lemma_picked(live, entries@, r.new_blobs@))
}

/// An update embeds where there is something new, and only saves where something has gone.
pub proof fn law_update_step(total: usize, pruned: usize, r: UpdateStep)
    requires
        call_ensures(update_step, (total, pruned), r),
    ensures
        r is Index <==> total > 0,
        r is SaveOnly <==> total == 0 && pruned > 0,
        r is Current <==> total == 0 && pruned == 0,
{
}

/// What embedding a batch of documents stores: where all of them are embedded in one go, each
/// gets the vector at its own place among the answers to their contents. Where that fails,
/// each is embedded on its own, and gets the vector of its own content, or is left as it was.
pub proof fn law_index_batch<
    E,
    M: Fn(&Vec<&str>) -> Result<Vec<Vec<u32>>, E>,
    O: Fn(&String) -> Result<Vec<u32>, E>,
>(
    index: &mut EmbedIndex,
    docs: &Vec<Document>,
    many: M,
    one: O,
    r: BatchOutcome<E>,
    i: int,
)
    requires
        call_ensures(index_batch::<E, M, O>, (index, docs, many, one), r),
        unique_keys(old(index)@.entries),
        0 <= i < docs@.len(),
        forall|j: int, k: int|
            0 <= j < k < docs@.len() ==> (#[trigger] docs@[j]).sha@ != (#[trigger] docs@[k]).sha@,
    ensures
        r.errors@.len() == docs@.len(),
        match r.batch_error {
            None => r.errors@[i] is None && exists|batch: Vec<&str>, out: Vec<Vec<u32>>|
                #[trigger]
                call_ensures(many, (&batch,), Ok::<Vec<Vec<u32>>, E>(out)) && batch@.len()
                    == docs@.len() && (forall|j: int|
                    0 <= j < docs@.len() ==> (#[trigger] batch@[j])@ == docs@[j].content@)
                    && final(index)@.entries.contains((docs@[i].sha@, out@[i]@)),
            Some(e) => {
                &&& exists|batch: Vec<&str>| #[trigger]
                    call_ensures(many, (&batch,), Err::<Vec<Vec<u32>>, E>(e)) && batch@.len()
                        == docs@.len() && forall|j: int|
                        0 <= j < docs@.len() ==> (#[trigger] batch@[j])@ == docs@[j].content@
                &&& match r.errors@[i] {
                    None => exists|v: Vec<u32>| #[trigger]
                        call_ensures(one, (&docs@[i].content,), Ok::<Vec<u32>, E>(v))
                            && final(index)@.entries.contains((docs@[i].sha@, v@)),
                    Some(x) => call_ensures(one, (&docs@[i].content,), Err::<Vec<u32>, E>(x))
                        && forall|v: Seq<u32>| #[trigger]
                        final(index)@.entries.contains((docs@[i].sha@, v))
                            <==> old(index)@.entries.contains((docs@[i].sha@, v)),
                }
            },
        },
{
    let before = old(index)@.entries;
    let after = final(index)@.entries;
    let sha = docs@[i].sha@;
    let answers = choose|answers: Seq<Option<Seq<u32>>>| #[trigger]
        batch_answers(many, one, docs@, answers, r) && final(index)@ == (IndexModel {
            entries: put_all(old(index)@.entries, answered(docs@, answers)),
            ..old(index)@
        });
    lemma_batch_unique(before, docs@, answers);
    assert forall|j: int| i < j < docs@.len() && (#[trigger] docs@[j]).sha@ == sha implies
        answers[j] is None by {
        assert(docs@[i].sha@ != docs@[j].sha@);
    }
    match r.batch_error {
        None => {
            let out = choose|out: Vec<Vec<u32>>| #[trigger]
                batch_result(many, docs@, Ok::<Vec<Vec<u32>>, E>(out)) && forall|i: int|
                    0 <= i < docs@.len() ==> (#[trigger] answers[i]) == Some(out@[i]@)
                        && r.errors@[i] is None;
            assert(batch_result(many, docs@, Ok::<Vec<Vec<u32>>, E>(out)));
            let batch = choose|batch: Vec<&str>| #[trigger]
                call_ensures(many, (&batch,), Ok::<Vec<Vec<u32>>, E>(out)) && slices(batch@)
                    == contents_of(docs@);
            lemma_same_contents(batch@, docs@);
            assert(answers[i] == Some(out@[i]@));
            law_batch_stores_vectors(before, docs@, answers, i);
            law_lookup(after, sha, out@[i]@);
            assert(call_ensures(many, (&batch,), Ok::<Vec<Vec<u32>>, E>(out)));
        },
        Some(e) => {
            assert(batch_result(many, docs@, Err::<Vec<Vec<u32>>, E>(e)));
            let batch = choose|batch: Vec<&str>| #[trigger]
                call_ensures(many, (&batch,), Err::<Vec<Vec<u32>>, E>(e)) && slices(batch@)
                    == contents_of(docs@);
            lemma_same_contents(batch@, docs@);
            assert(call_ensures(many, (&batch,), Err::<Vec<Vec<u32>>, E>(e)));
            assert(one_answer(one, docs@[i], answers[i], r.errors@[i]));
            match r.errors@[i] {
                None => {
                    let v = choose|v: Vec<u32>| #[trigger]
                        call_ensures(one, (&docs@[i].content,), Ok::<Vec<u32>, E>(v)) && answers[i]
                            == Some(v@);
                    law_batch_stores_vectors(before, docs@, answers, i);
                    law_lookup(after, sha, v@);
                    assert(call_ensures(one, (&docs@[i].content,), Ok::<Vec<u32>, E>(v)));
                },
                Some(_) => {
                    assert forall|j: int| 0 <= j < docs@.len() && (#[trigger] docs@[j]).sha@
                        == sha implies answers[j] is None by {
                        if j < i {
                            assert(docs@[j].sha@ != docs@[i].sha@);
                        }
                    }
                    law_batch_keeps_other_embeddings(before, docs@, answers, sha);
                    assert forall|v: Seq<u32>| #[trigger] after.contains((sha, v))
                        <==> before.contains((sha, v)) by {
                        law_lookup(after, sha, v);
                        law_lookup(before, sha, v);
                    }
                },
            }
        },
    }
}

/// A batch of the contents of documents.
proof fn lemma_same_contents(batch: Seq<&str>, docs: Seq<Document>)
    requires
        slices(batch) == contents_of(docs),
    ensures
        batch.len() == docs.len(),
        forall|j: int| 0 <= j < docs.len() ==> (#[trigger] batch[j])@ == docs[j].content@,
{
    assert(slices(batch).len() == batch.len());
    assert(contents_of(docs).len() == docs.len());
    assert forall|j: int| 0 <= j < docs.len() implies (#[trigger] batch[j])@
        == docs[j].content@ by {
        assert(slices(batch)[j] == contents_of(docs)[j]);
    }
}

/// Embedding a batch leaves alone what has another object name than the documents, and the
/// header of the index.
pub proof fn law_index_batch_keeps_the_rest<
    E,
    M: Fn(&Vec<&str>) -> Result<Vec<Vec<u32>>, E>,
    O: Fn(&String) -> Result<Vec<u32>, E>,
>(
    index: &mut EmbedIndex,
    docs: &Vec<Document>,
    many: M,
    one: O,
    r: BatchOutcome<E>,
    sha: Seq<char>,
    v: Seq<u32>,
)
    requires
        call_ensures(index_batch::<E, M, O>, (index, docs, many, one), r),
        unique_keys(old(index)@.entries),
        forall|j: int| 0 <= j < docs@.len() ==> (#[trigger] docs@[j]).sha@ != sha,
    ensures
        final(index)@.entries.contains((sha, v)) <==> old(index)@.entries.contains((sha, v)),
        final(index)@.version == old(index)@.version,
        final(index)@.model == old(index)@.model,
        final(index)@.dims == old(index)@.dims,
{
    let answers = choose|answers: Seq<Option<Seq<u32>>>| #[trigger]
        batch_answers(many, one, docs@, answers, r) && final(index)@ == (IndexModel {
            entries: put_all(old(index)@.entries, answered(docs@, answers)),
            ..old(index)@
        });
    lemma_batch_unique(old(index)@.entries, docs@, answers);
    law_batch_keeps_other_embeddings(old(index)@.entries, docs@, answers, sha);
    law_lookup(final(index)@.entries, sha, v);
    law_lookup(old(index)@.entries, sha, v);
}

} // verus!
