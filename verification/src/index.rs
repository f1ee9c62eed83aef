//! Embedding index: its default state and its binary form.
//!
//! The binary form is the one that Java's `DataOutputStream` writes:
//!
//! ```text
//! [version: i32 BE] [model: java-utf] [dims: i32 BE] [count: i32 BE]
//! for each embedding:
//!   [sha: java-utf] [vector: 32-bit IEEE 754 value x dims, each BE]
//! ```
//!
//! A vector component is held as the bit pattern of its IEEE 754 single.

use crate::sha_map::{has_key, place_of, put, put_all, unique_keys, ShaMap};
use crate::text::{decimal, push_decimal, push_signed_decimal, signed_decimal};
use crate::wire::{
    as_signed, as_unsigned, be16, be32, java_utf, lemma_be16, lemma_be32, lemma_java_utf,
    lemma_text_at, lemma_word16, lemma_word32, read_i32, read_java_utf, read_u32, text_at, word32,
    write_i32, write_java_utf, write_u32,
};
use vstd::prelude::*;
use vstd::utf8::{decode_utf8_encode_utf8, encode_utf8, valid_utf8};

verus! {

/// The model that a fresh index is made for.
pub const DEFAULT_MODEL: &'static str = "nomic-embed-text-v1.5";

/// The number of dimensions of a fresh index.
pub const DEFAULT_DIMS: i32 = 768;

/// In-memory representation of the embedding index.
pub struct EmbedIndex {
    pub version: i32,
    pub model: String,
    pub dims: i32,
    pub embeddings: ShaMap<Vec<u32>>,
}

/// What an index holds: its header, and the vector of each object name.
pub struct IndexModel {
    pub version: i32,
    pub model: Seq<char>,
    pub dims: i32,
    pub entries: Seq<(Seq<char>, Seq<u32>)>,
}

impl View for EmbedIndex {
    type V = IndexModel;

    open spec fn view(&self) -> IndexModel {
        IndexModel {
            version: self.version,
            model: self.model@,
            dims: self.dims,
            entries: self.embeddings@,
        }
    }
}

/// The fresh index.
pub open spec fn fresh() -> IndexModel {
    IndexModel {
        version: 1,
        model: DEFAULT_MODEL@,
        dims: DEFAULT_DIMS,
        entries: seq![],
    }
}

/// Create an empty index with default settings.
pub fn empty_index() -> (r: EmbedIndex)
    ensures
        r@ == fresh(),
{
    EmbedIndex {
        version: 1,
        model: DEFAULT_MODEL.to_string(),
        dims: DEFAULT_DIMS,
        embeddings: ShaMap::new(),
    }
}

/// A copy of a vector.
pub fn copy_vector(v: &Vec<u32>) -> (r: Vec<u32>)
    ensures
        r@ == v@,
        r.deep_view() == v@,
{
    let mut r: Vec<u32> = Vec::new();
    let mut i: usize = 0;
    while i < v.len()
        invariant
            i <= v@.len(),
            r@ == v@.take(i as int),
        decreases v@.len() - i,
    {
        r.push(v[i]);
        i = i + 1;
        assert(r@ =~= v@.take(i as int));
    }
    assert(r@ =~= v@);
    assert(r.deep_view() =~= r@);
    r
}

impl Clone for EmbedIndex {
    fn clone(&self) -> (r: Self)
        ensures
            r@ == self@,
    {
        let n: usize = self.embeddings.len();
        let ghost all = self.embeddings@;
        let mut embeddings: ShaMap<Vec<u32>> = ShaMap::new();
        let mut i: usize = 0;
        while i < n
            invariant
                i <= n == all.len(),
                all == self.embeddings@,
                unique_keys(all),
                embeddings@ == all.take(i as int),
            decreases n - i,
        {
            let v: Vec<u32> = copy_vector(self.embeddings.value_at(i));
            proof {
                let done = all.take(i as int);
                assert(!has_key(done, all[i as int].0)) by {
                    assert forall|k: int| 0 <= k < done.len() implies (#[trigger] done[k]).0
                        != all[i as int].0 by {
                        assert(done[k] == all[k]);
                    }
                }
                assert(v@ =~= all[i as int].1);
            }
            embeddings.insert(self.embeddings.key_at(i).to_string(), v);
            i = i + 1;
            assert(embeddings@ =~= all.take(i as int));
        }
        assert(all.take(i as int) =~= all);
        EmbedIndex {
            version: self.version,
            model: self.model.clone(),
            dims: self.dims,
            embeddings: embeddings,
        }
    }
}

// ---------------------------------------------------------------------------
// Serialization
// ---------------------------------------------------------------------------

/// The components of a vector, four bytes each.
pub open spec fn vector_bytes(v: Seq<u32>) -> Seq<u8> {
    Seq::new(4 * v.len(), |k: int| be32(v[k / 4] as int)[k % 4])
}

/// The embeddings in order, each as its object name and its vector.
pub open spec fn entries_bytes(entries: Seq<(Seq<char>, Seq<u32>)>) -> Seq<u8>
    decreases entries.len(),
{
    if entries.len() == 0 {
        seq![]
    } else {
        java_utf(entries[0].0) + vector_bytes(entries[0].1) + entries_bytes(entries.skip(1))
    }
}

/// Everything before the embeddings.
pub open spec fn header_bytes(m: IndexModel) -> Seq<u8> {
    be32(as_unsigned(m.version as int)) + java_utf(m.model) + be32(as_unsigned(m.dims as int))
        + be32(m.entries.len() as int % 0x1_0000_0000)
}

/// The binary form of an index.
pub open spec fn encode_index(m: IndexModel) -> Seq<u8> {
    header_bytes(m) + entries_bytes(m.entries)
}

/// Can the text be written behind a 16-bit length?
pub open spec fn short_text(t: Seq<char>) -> bool {
    encode_utf8(t).len() <= 0xffff
}

/// The first text of an index that cannot be written: the model name, or else the object
/// name of an embedding.
pub open spec fn first_long_text(m: IndexModel) -> Option<Seq<char>> {
    if !short_text(m.model) {
        Some(m.model)
    } else {
        first_long_name(m.entries)
    }
}

/// The first object name that cannot be written.
pub open spec fn first_long_name(entries: Seq<(Seq<char>, Seq<u32>)>) -> Option<Seq<char>>
    decreases entries.len(),
{
    if entries.len() == 0 {
        None
    } else if !short_text(entries[0].0) {
        Some(entries[0].0)
    } else {
        first_long_name(entries.skip(1))
    }
}

/// A text of the index is too long to be written.
#[derive(Clone, Copy, PartialEq, Eq, Structural, Debug)]
pub struct EncodeError {
    /// The number of UTF-8 bytes of the text.
    pub bytes: usize,
}

/// Appends the components of a vector.
fn write_vector(buf: &mut Vec<u8>, v: &Vec<u32>)
    ensures
        final(buf)@ == old(buf)@ + vector_bytes(v@),
{
    let ghost start = buf@;
    let mut j: usize = 0;
    while j < v.len()
        invariant
            j <= v@.len(),
            buf@ == start + vector_bytes(v@.take(j as int)),
        decreases v@.len() - j,
    {
        write_u32(buf, v[j]);
        j = j + 1;
        assert(vector_bytes(v@.take(j as int)) =~= vector_bytes(v@.take(j - 1)) + be32(
            v@[j - 1] as int,
        ));
        assert(buf@ =~= start + vector_bytes(v@.take(j as int)));
    }
    assert(v@.take(j as int) =~= v@);
}

/// Serialize an [`EmbedIndex`] to bytes in the Java-compatible binary format.
pub fn serialize_index(idx: &EmbedIndex) -> (r: Result<Vec<u8>, EncodeError>)
    ensures
        match first_long_text(idx@) {
            None => r matches Ok(bytes) && bytes@ == encode_index(idx@),
            Some(t) => r matches Err(e) && e.bytes == encode_utf8(t).len(),
        },
{
    let mut buf: Vec<u8> = Vec::new();
    write_i32(&mut buf, idx.version);
    match write_java_utf(&mut buf, idx.model.as_str()) {
        Ok(()) => (),
        Err(n) => return Err(EncodeError { bytes: n }),
    }
    write_i32(&mut buf, idx.dims);
    let n: usize = idx.embeddings.len();
    let count: u64 = (n as u64) % 0x1_0000_0000;
    write_u32(&mut buf, count as u32);
    assert(buf@ =~= header_bytes(idx@));
    let ghost all = idx.embeddings@;
    let mut i: usize = 0;
    assert(all.skip(0) =~= all);
    while i < n
        invariant
            i <= n,
            n == all.len(),
            all == idx.embeddings@,
            short_text(idx@.model),
            encode_index(idx@) == buf@ + entries_bytes(all.skip(i as int)),
            first_long_name(all) == first_long_name(all.skip(i as int)),
        decreases n - i,
    {
        let ghost rest = all.skip(i as int);
        let ghost before = buf@;
        assert(rest.skip(1) =~= all.skip(i + 1));
        match write_java_utf(&mut buf, idx.embeddings.key_at(i)) {
            Ok(()) => (),
            Err(n) => return Err(EncodeError { bytes: n }),
        }
        write_vector(&mut buf, idx.embeddings.value_at(i));
        assert(buf@ =~= before + java_utf(rest[0].0) + vector_bytes(rest[0].1)) by {
            assert(idx.embeddings@[i as int].1 =~= rest[0].1);
        }
        assert(encode_index(idx@) =~= buf@ + entries_bytes(all.skip(i + 1)));
        i = i + 1;
    }
    assert(all.skip(n as int) =~= Seq::empty());
    assert(buf@ =~= encode_index(idx@));
    Ok(buf)
}

// ---------------------------------------------------------------------------
// Deserialization
// ---------------------------------------------------------------------------

/// Why a byte sequence is not an index.
#[derive(Debug)]
pub enum DecodeError {
    /// The version is missing.
    Version,
    /// The model name is missing or not valid UTF-8.
    Model,
    /// The number of dimensions is missing.
    Dims,
    /// The number of embeddings is missing.
    Count,
    /// The number of dimensions is not positive.
    InvalidDims(i32),
    /// The number of embeddings is negative.
    InvalidCount(i32),
    /// The object name of an embedding is missing or not valid UTF-8.
    Sha { entry: i32 },
    /// A vector component of an embedding is missing.
    Value { component: i32, dims: i32, entry: i32, sha: String },
}

/// The contents of a [`DecodeError`].
pub enum DecodeFault {
    Version,
    Model,
    Dims,
    Count,
    InvalidDims(i32),
    InvalidCount(i32),
    Sha { entry: int },
    Value { component: int, dims: i32, entry: int, sha: Seq<char> },
}

impl View for DecodeError {
    type V = DecodeFault;

    open spec fn view(&self) -> DecodeFault {
        match self {
            DecodeError::Version => DecodeFault::Version,
            DecodeError::Model => DecodeFault::Model,
            DecodeError::Dims => DecodeFault::Dims,
            DecodeError::Count => DecodeFault::Count,
            DecodeError::InvalidDims(d) => DecodeFault::InvalidDims(*d),
            DecodeError::InvalidCount(c) => DecodeFault::InvalidCount(*c),
            DecodeError::Sha { entry } => DecodeFault::Sha { entry: *entry as int },
            DecodeError::Value { component, dims, entry, sha } => DecodeFault::Value {
                component: *component as int,
                dims: *dims,
                entry: *entry as int,
                sha: sha@,
            },
        }
    }
}

/// The vector of `n` components that starts at `pos`.
pub open spec fn vector_at(data: Seq<u8>, pos: int, n: int) -> Seq<u32> {
    Seq::new(n as nat, |j: int| word32(data, pos + 4 * j) as u32)
}

/// Embeddings `i..count`, the first of which starts at `pos`.
pub open spec fn entries_at(data: Seq<u8>, pos: int, dims: i32, i: int, count: int) -> Result<
    Seq<(Seq<char>, Seq<u32>)>,
    DecodeFault,
>
    decreases count - i,
{
    if i >= count {
        Ok(seq![])
    } else {
        match text_at(data, pos) {
            Err(_) => Err(DecodeFault::Sha { entry: i }),
            Ok((sha, p)) => if p + 4 * dims > data.len() {
                Err(
                    DecodeFault::Value {
                        component: (data.len() - p) / 4,
                        dims: dims,
                        entry: i,
                        sha: sha,
                    },
                )
            } else {
                match entries_at(data, p + 4 * dims, dims, i + 1, count) {
                    Ok(rest) => Ok(seq![(sha, vector_at(data, p, dims as int))] + rest),
                    Err(e) => Err(e),
                }
            },
        }
    }
}

/// The index that the bytes hold, its embeddings as they are listed. Bytes after the last
/// embedding are of no account.
pub open spec fn decode_index(data: Seq<u8>) -> Result<IndexModel, DecodeFault> {
    if data.len() < 4 {
        Err(DecodeFault::Version)
    } else {
        match text_at(data, 4) {
            Err(_) => Err(DecodeFault::Model),
            Ok((model, p)) => if p + 4 > data.len() {
                Err(DecodeFault::Dims)
            } else if p + 8 > data.len() {
                Err(DecodeFault::Count)
            } else {
                let dims = as_signed(word32(data, p)) as i32;
                let count = as_signed(word32(data, p + 4)) as i32;
                if dims <= 0 {
                    Err(DecodeFault::InvalidDims(dims))
                } else if count < 0 {
                    Err(DecodeFault::InvalidCount(count))
                } else {
                    match entries_at(data, p + 8, dims, 0, count as int) {
                        Err(e) => Err(e),
                        Ok(entries) => Ok(
                            IndexModel {
                                version: as_signed(word32(data, 0)) as i32,
                                model: model,
                                dims: dims,
                                entries: entries,
                            },
                        ),
                    }
                }
            },
        }
    }
}

/// The index with its embeddings stored one after the other: of two under one object name
/// the later wins.
pub open spec fn stored(m: IndexModel) -> IndexModel {
    IndexModel { entries: put_all(seq![], m.entries), ..m }
}

/// Reads a vector of `dims` components at `pos`; gives the number of components that are
/// there if they are too few.
fn read_vector(data: &[u8], pos: usize, dims: i32) -> (r: Result<Vec<u32>, i32>)
    requires
        pos <= data@.len(),
        dims > 0,
    ensures
        if pos + 4 * dims > data@.len() {
            r matches Err(j) && j == (data@.len() - pos) / 4
        } else {
            r matches Ok(v) && v@ == vector_at(data@, pos as int, dims as int)
        },
{
    let size: usize = data.len();
    let mut v: Vec<u32> = Vec::new();
    let mut p: usize = pos;
    let mut j: i32 = 0;
    while j < dims
        invariant
            0 <= j <= dims,
            p == pos + 4 * j,
            p <= data@.len() == size,
            v@ == vector_at(data@, pos as int, j as int),
        decreases dims - j,
    {
        match read_u32(data, p) {
            Some(x) => {
                v.push(x);
                assert(v@ =~= vector_at(data@, pos as int, j + 1));
            },
            None => return Err(j),
        }
        p = p + 4;
        j = j + 1;
    }
    Ok(v)
}

/// Deserialize an [`EmbedIndex`] from bytes in the Java-compatible binary format.
pub fn deserialize_index(data: &[u8]) -> (r: Result<EmbedIndex, DecodeError>)
    ensures
        match decode_index(data@) {
            Ok(m) => r matches Ok(idx) && idx@ == stored(m),
            Err(f) => r matches Err(e) && e@ == f,
        },
{
    let version: i32 = match read_i32(data, 0) {
        Some(v) => v,
        None => return Err(DecodeError::Version),
    };
    let (model, p): (String, usize) = match read_java_utf(data, 4) {
        Ok(x) => x,
        Err(_) => return Err(DecodeError::Model),
    };
    let dims: i32 = match read_i32(data, p) {
        Some(d) => d,
        None => return Err(DecodeError::Dims),
    };
    let count: i32 = match read_i32(data, p + 4) {
        Some(c) => c,
        None => return Err(DecodeError::Count),
    };
    if dims <= 0 {
        return Err(DecodeError::InvalidDims(dims));
    }
    if count < 0 {
        return Err(DecodeError::InvalidCount(count));
    }
    let size: usize = data.len();
    let mut embeddings: ShaMap<Vec<u32>> = ShaMap::new();
    let ghost mut listed: Seq<(Seq<char>, Seq<u32>)> = seq![];
    let ghost whole = entries_at(data@, p + 8, dims, 0, count as int);
    let mut pos: usize = p + 8;
    let mut i: i32 = 0;
    proof {
        match whole {
            Ok(es) => {
                assert(seq![] + es =~= es);
            },
            Err(_) => {},
        }
    }
    while i < count
        invariant
            0 <= i <= count,
            dims > 0,
            pos <= data@.len() == size,
            whole == (match entries_at(data@, pos as int, dims, i as int, count as int) {
                Ok(rest) => Ok::<Seq<(Seq<char>, Seq<u32>)>, DecodeFault>(listed + rest),
                Err(e) => Err(e),
            }),
            embeddings@ == put_all(seq![], listed),
            decode_index(data@) == (match whole {
                Ok(es) => Ok::<IndexModel, DecodeFault>(
                    IndexModel { version: version, model: model@, dims: dims, entries: es },
                ),
                Err(e) => Err(e),
            }),
        decreases count - i,
    {
        let (sha, q): (String, usize) = match read_java_utf(data, pos) {
            Ok(x) => x,
            Err(_) => return Err(DecodeError::Sha { entry: i }),
        };
        let v: Vec<u32> = match read_vector(data, q, dims) {
            Ok(v) => v,
            Err(j) => return Err(
                DecodeError::Value { component: j, dims: dims, entry: i, sha: sha },
            ),
        };
        proof {
            let e = (sha@, v@);
            match entries_at(data@, q + 4 * dims, dims, i + 1, count as int) {
                Ok(rest) => {
                    assert(listed + (seq![e] + rest) =~= listed.push(e) + rest);
                },
                Err(_) => {},
            }
            assert(listed.push(e).drop_last() =~= listed);
            listed = listed.push(e);
        }
        assert(v.deep_view() =~= v@);
        embeddings.insert(sha, v);
        pos = q + 4 * (dims as usize);
        i = i + 1;
    }
    assert(listed + Seq::<(Seq<char>, Seq<u32>)>::empty() =~= listed);
    Ok(EmbedIndex { version: version, model: model, dims: dims, embeddings: embeddings })
}

/// Load the embedding index from the bytes stored for it.
///
/// Gives an empty index if nothing is stored. If the stored bytes are corrupt, gives an
/// empty index together with what is wrong with them.
pub fn load_index(data: Option<&[u8]>) -> (r: (EmbedIndex, Option<DecodeError>))
    ensures
        match data {
            None => r.0@ == fresh() && r.1 is None,
            Some(bytes) => match decode_index(bytes@) {
                Ok(m) => r.0@ == stored(m) && r.1 is None,
                Err(f) => r.0@ == fresh() && (r.1 matches Some(e) && e@ == f),
            },
        },
{
    match data {
        Some(bytes) => match deserialize_index(bytes) {
            Ok(idx) => (idx, None),
            Err(e) => (empty_index(), Some(e)),
        },
        None => (empty_index(), None),
    }
}

// ---------------------------------------------------------------------------
// Messages
// ---------------------------------------------------------------------------

/// What is reported of a fault.
pub open spec fn fault_message(f: DecodeFault) -> Seq<char> {
    match f {
        DecodeFault::Version => "failed to read version"@,
        DecodeFault::Model => "failed to read model"@,
        DecodeFault::Dims => "failed to read dims"@,
        DecodeFault::Count => "failed to read count"@,
        DecodeFault::InvalidDims(d) => "invalid dims: "@ + signed_decimal(d as int),
        DecodeFault::InvalidCount(c) => "invalid count: "@ + signed_decimal(c as int),
        DecodeFault::Sha { entry } => "failed to read sha for embedding "@ + signed_decimal(entry),
        DecodeFault::Value { component, dims, entry, sha } => "failed to read float ["@
            + signed_decimal(component) + "/"@ + signed_decimal(dims as int)
            + "] for embedding "@ + signed_decimal(entry) + " (sha="@ + sha + ")"@,
    }
}

impl DecodeError {
    /// The error as a sentence.
    pub fn message(&self) -> (r: String)
        ensures
            r@ == fault_message(self@),
    {
        let mut s: String = String::new();
        match self {
            DecodeError::Version => s.push_str("failed to read version"),
            DecodeError::Model => s.push_str("failed to read model"),
            DecodeError::Dims => s.push_str("failed to read dims"),
            DecodeError::Count => s.push_str("failed to read count"),
            DecodeError::InvalidDims(d) => {
                s.push_str("invalid dims: ");
                push_signed_decimal(&mut s, *d);
            },
            DecodeError::InvalidCount(c) => {
                s.push_str("invalid count: ");
                push_signed_decimal(&mut s, *c);
            },
            DecodeError::Sha { entry } => {
                s.push_str("failed to read sha for embedding ");
                push_signed_decimal(&mut s, *entry);
            },
            DecodeError::Value { component, dims, entry, sha } => {
                s.push_str("failed to read float [");
                push_signed_decimal(&mut s, *component);
                s.push_str("/");
                push_signed_decimal(&mut s, *dims);
                s.push_str("] for embedding ");
                push_signed_decimal(&mut s, *entry);
                s.push_str(" (sha=");
                s.push_str(sha.as_str());
                s.push_str(")");
            },
        }
        assert(s@ =~= fault_message(self@));
        s
    }
}

impl EncodeError {
    /// The error as a sentence.
    pub fn message(&self) -> (r: String)
        ensures
            r@ == "string too long for java modified UTF-8 ("@ + decimal(self.bytes as nat)
                + " bytes, max 65535)"@,
    {
        let mut s: String = String::new();
        s.push_str("string too long for java modified UTF-8 (");
        push_decimal(&mut s, self.bytes as u64);
        s.push_str(" bytes, max 65535)");
        assert(s@ =~= "string too long for java modified UTF-8 ("@ + decimal(self.bytes as nat)
            + " bytes, max 65535)"@);
        s
    }
}

// ---------------------------------------------------------------------------
// Laws
// ---------------------------------------------------------------------------

/// Can the index be written so that it reads back? Its texts fit behind a 16-bit length,
/// every vector has `dims` components, and there are at most `i32::MAX` of them.
pub open spec fn writable(m: IndexModel) -> bool {
    &&& first_long_text(m) is None
    &&& m.dims > 0
    &&& m.entries.len() <= i32::MAX
    &&& forall|i: int| 0 <= i < m.entries.len() ==> (#[trigger] m.entries[i]).1.len() == m.dims
}

proof fn lemma_vector_at(data: Seq<u8>, pos: int, v: Seq<u32>)
    requires
        0 <= pos,
        pos + 4 * v.len() <= data.len(),
        data.subrange(pos, pos + 4 * v.len()) == vector_bytes(v),
    ensures
        vector_at(data, pos, v.len() as int) == v,
{
    assert forall|j: int| 0 <= j < v.len() implies #[trigger] word32(data, pos + 4 * j) == v[j] by {
        let b = data.subrange(pos, pos + 4 * v.len());
        assert forall|k: int| 0 <= k < 4 implies data[pos + 4 * j + k] == be32(v[j] as int)[k] by {
            assert(b[4 * j + k] == data[pos + 4 * j + k]);
        }
        assert(data.subrange(pos + 4 * j, pos + 4 * j + 4) =~= be32(v[j] as int));
        lemma_word32(data, pos + 4 * j, v[j] as int);
    }
    assert(vector_at(data, pos, v.len() as int) =~= v);
}

proof fn lemma_entries_at(
    data: Seq<u8>,
    pos: int,
    dims: i32,
    i: int,
    count: int,
    entries: Seq<(Seq<char>, Seq<u32>)>,
)
    requires
        entries.len() == count - i,
        dims > 0,
        first_long_name(entries) is None,
        forall|k: int| 0 <= k < entries.len() ==> (#[trigger] entries[k]).1.len() == dims,
        0 <= pos,
        pos + entries_bytes(entries).len() <= data.len(),
        data.subrange(pos, pos + entries_bytes(entries).len()) == entries_bytes(entries),
    ensures
        entries_at(data, pos, dims, i, count) == Ok::<
            Seq<(Seq<char>, Seq<u32>)>,
            DecodeFault,
        >(entries),
    decreases entries.len(),
{
    if entries.len() > 0 {
        let (sha, v) = entries[0];
        let name = java_utf(sha);
        let vec = vector_bytes(v);
        let rest = entries.skip(1);
        let whole = data.subrange(pos, pos + entries_bytes(entries).len());
        let p = pos + name.len();
        let q = p + vec.len();
        assert(data.subrange(pos, p) =~= whole.subrange(0, name.len() as int));
        assert(whole.subrange(0, name.len() as int) =~= name);
        lemma_text_at(data, pos, sha);
        assert(data.subrange(p, q) =~= whole.subrange(
            name.len() as int,
            (name.len() + vec.len()) as int,
        ));
        assert(whole.subrange(name.len() as int, (name.len() + vec.len()) as int) =~= vec);
        lemma_vector_at(data, p, v);
        assert(data.subrange(q, q + entries_bytes(rest).len()) =~= whole.subrange(
            (name.len() + vec.len()) as int,
            whole.len() as int,
        ));
        assert(whole.subrange((name.len() + vec.len()) as int, whole.len() as int)
            =~= entries_bytes(rest));
        assert forall|k: int| 0 <= k < rest.len() implies (#[trigger] rest[k]).1.len() == dims by {
            assert(rest[k] == entries[k + 1]);
        }
        lemma_entries_at(data, q, dims, i + 1, count, rest);
        assert(seq![(sha, v)] + rest =~= entries);
    } else {
        assert(entries =~= seq![]);
    }
}

/// A block inside a concatenation is where the lengths before it say.
proof fn lemma_block(before: Seq<u8>, block: Seq<u8>, after: Seq<u8>)
    ensures
        (before + block + after).subrange(
            before.len() as int,
            (before.len() + block.len()) as int,
        ) == block,
{
    assert((before + block + after).subrange(
        before.len() as int,
        (before.len() + block.len()) as int,
    ) =~= block);
}

/// The blocks of an index, in their places.
proof fn lemma_blocks(v: Seq<u8>, name: Seq<u8>, d: Seq<u8>, c: Seq<u8>, es: Seq<u8>, tail: Seq<u8>)
    requires
        v.len() == 4,
        d.len() == 4,
        c.len() == 4,
    ensures
        ({
            let data = v + name + d + c + es + tail;
            let p = 4 + name.len() as int;
            &&& data.len() == p + 8 + es.len() + tail.len()
            &&& data.subrange(0, 4) == v
            &&& data.subrange(4, p) == name
            &&& data.subrange(p, p + 4) == d
            &&& data.subrange(p + 4, p + 8) == c
            &&& data.subrange(p + 8, p + 8 + es.len()) == es
        }),
{
    let data = v + name + d + c + es + tail;
    assert(data =~= Seq::empty() + v + (name + d + c + es + tail));
    lemma_block(Seq::empty(), v, name + d + c + es + tail);
    assert(data =~= v + name + (d + c + es + tail));
    lemma_block(v, name, d + c + es + tail);
    assert(data =~= (v + name) + d + (c + es + tail));
    lemma_block(v + name, d, c + es + tail);
    assert(data =~= (v + name + d) + c + (es + tail));
    lemma_block(v + name + d, c, es + tail);
    lemma_block(v + name + d + c, es, tail);
}

/// What was written is read back, whatever bytes follow it.
pub proof fn law_read_what_was_written(m: IndexModel, tail: Seq<u8>)
    requires
        writable(m),
    ensures
        decode_index(encode_index(m) + tail) == Ok::<IndexModel, DecodeFault>(m),
{
    let data = encode_index(m) + tail;
    let name = java_utf(m.model);
    let p: int = 4 + name.len() as int;
    let count = m.entries.len() as int;
    assert(count % 0x1_0000_0000 == count);
    lemma_blocks(
        be32(as_unsigned(m.version as int)),
        name,
        be32(as_unsigned(m.dims as int)),
        be32(count),
        entries_bytes(m.entries),
        tail,
    );
    lemma_word32(data, 0, as_unsigned(m.version as int));
    lemma_text_at(data, 4, m.model);
    lemma_word32(data, p, as_unsigned(m.dims as int));
    lemma_word32(data, p + 4, count);
    lemma_entries_at(data, p + 8, m.dims, 0, count, m.entries);
}

/// Storing pairs with distinct keys one after the other gives just these pairs.
pub proof fn lemma_put_all_unique<T>(pairs: Seq<(Seq<char>, T)>)
    requires
        unique_keys(pairs),
    ensures
        put_all(seq![], pairs) == pairs,
    decreases pairs.len(),
{
    if pairs.len() > 0 {
        let front = pairs.drop_last();
        lemma_put_all_unique(front);
        assert(!has_key(front, pairs.last().0)) by {
            assert forall|i: int| 0 <= i < front.len() implies (#[trigger] front[i]).0
                != pairs.last().0 by {
                assert(pairs[i].0 != pairs[pairs.len() - 1].0);
            }
        }
        assert(front.push(pairs.last()) =~= pairs);
    } else {
        assert(pairs =~= seq![]);
    }
}

/// An index without repeated object names survives being saved and loaded unchanged.
pub proof fn law_save_and_load(m: IndexModel)
    requires
        writable(m),
        unique_keys(m.entries),
    ensures
        decode_index(encode_index(m)) == Ok::<IndexModel, DecodeFault>(m),
        stored(m) == m,
{
    law_read_what_was_written(m, seq![]);
    assert(encode_index(m) + Seq::<u8>::empty() =~= encode_index(m));
    lemma_put_all_unique(m.entries);
}

proof fn lemma_vector_bytes(data: Seq<u8>, pos: int, n: int)
    requires
        0 <= pos,
        0 <= n,
        pos + 4 * n <= data.len(),
    ensures
        vector_bytes(vector_at(data, pos, n)) == data.subrange(pos, pos + 4 * n),
{
    let v = vector_at(data, pos, n);
    assert forall|k: int| 0 <= k < 4 * n implies vector_bytes(v)[k] == data[pos + k] by {
        let j = k / 4;
        lemma_be32(data, pos + 4 * j);
        let b = data.subrange(pos + 4 * j, pos + 4 * j + 4);
        assert(b[k % 4] == data[pos + k]);
    }
    assert(vector_bytes(v) =~= data.subrange(pos, pos + 4 * n));
}

proof fn lemma_entries_bytes(data: Seq<u8>, pos: int, dims: i32, i: int, count: int)
    requires
        0 <= pos <= data.len(),
        dims > 0,
        i <= count,
        entries_at(data, pos, dims, i, count) is Ok,
    ensures
        ({
            let es = entries_at(data, pos, dims, i, count)->Ok_0;
            &&& es.len() == count - i
            &&& pos + entries_bytes(es).len() <= data.len()
            &&& data.subrange(pos, pos + entries_bytes(es).len()) == entries_bytes(es)
            &&& first_long_name(es) is None
            &&& forall|k: int| 0 <= k < es.len() ==> (#[trigger] es[k]).1.len() == dims
        }),
    decreases count - i,
{
    if i < count {
        let es = entries_at(data, pos, dims, i, count)->Ok_0;
        let (sha, p) = text_at(data, pos)->Ok_0;
        lemma_java_utf(data, pos);
        let q = p + 4 * dims;
        let v = vector_at(data, p, dims as int);
        lemma_vector_bytes(data, p, dims as int);
        lemma_entries_bytes(data, q, dims, i + 1, count);
        let rest = entries_at(data, q, dims, i + 1, count)->Ok_0;
        assert(es == seq![(sha, v)] + rest);
        assert(es.skip(1) =~= rest);
        let end = q + entries_bytes(rest).len();
        assert(data.subrange(pos, end) =~= data.subrange(pos, p) + data.subrange(p, q)
            + data.subrange(q, end));
        assert forall|k: int| 0 <= k < es.len() implies (#[trigger] es[k]).1.len() == dims by {
            if k > 0 {
                assert(es[k] == rest[k - 1]);
            }
        }
    }
}

/// Bytes that can be read as an index begin with the very bytes that it is written as.
pub proof fn law_write_what_was_read(data: Seq<u8>)
    requires
        decode_index(data) is Ok,
    ensures
        writable(decode_index(data)->Ok_0),
        encode_index(decode_index(data)->Ok_0).is_prefix_of(data),
{
    let m = decode_index(data)->Ok_0;
    let (model, p) = text_at(data, 4)->Ok_0;
    lemma_java_utf(data, 4);
    lemma_be32(data, 0);
    lemma_be32(data, p);
    lemma_be32(data, p + 4);
    let count = as_signed(word32(data, p + 4));
    lemma_entries_bytes(data, p + 8, m.dims, 0, count);
    let end = p + 8 + entries_bytes(m.entries).len();
    assert(count % 0x1_0000_0000 == count);
    assert(data.subrange(0, end) =~= data.subrange(0, 4) + data.subrange(4, p) + data.subrange(
        p,
        p + 4,
    ) + data.subrange(p + 4, p + 8) + data.subrange(p + 8, end));
}

/// A fresh index is of version 1, for the model `nomic-embed-text-v1.5` with its 768
/// dimensions, and has no embeddings.
pub proof fn law_empty_index(r: EmbedIndex)
    requires
        call_ensures(empty_index, (), r),
    ensures
        r.version == 1,
        r.model@ == "nomic-embed-text-v1.5"@,
        r.dims == 768,
        r.embeddings@.len() == 0,
{
    assert(r@.version == 1);
}

/// Does the number `n` stand at `pos`, in four bytes, most significant first? A negative number
/// stands there in two's complement.
pub open spec fn number_at(data: Seq<u8>, pos: int, n: int) -> bool {
    let v = data[pos] * 16777216 + data[pos + 1] * 65536 + data[pos + 2] * 256 + data[pos + 3];
    0 <= pos <= data.len() - 4 && (v == n || v == n + 4294967296)
}

/// Does the text stand at `pos`: the number of its UTF-8 bytes in two bytes, most significant
/// first, and these bytes behind it?
pub open spec fn name_at(data: Seq<u8>, pos: int, text: Seq<char>) -> bool {
    let n = encode_utf8(text).len();
    &&& 0 <= pos <= data.len() - 2 - n
    &&& data[pos] * 256 + data[pos + 1] == n
    &&& data.subrange(pos + 2, pos + 2 + n) == encode_utf8(text)
}

/// A number where its four bytes stand.
proof fn lemma_number_at(data: Seq<u8>, pos: int, n: int)
    requires
        0 <= pos <= data.len() - 4,
        data.subrange(pos, pos + 4) == be32(as_unsigned(n)),
        -0x8000_0000 <= n < 0x1_0000_0000,
    ensures
        number_at(data, pos, n),
{
    lemma_word32(data, pos, as_unsigned(n));
}

/// A text where its bytes stand.
proof fn lemma_name_at(data: Seq<u8>, pos: int, text: Seq<char>)
    requires
        encode_utf8(text).len() <= 0xffff,
        0 <= pos <= data.len() - java_utf(text).len(),
        data.subrange(pos, pos + java_utf(text).len()) == java_utf(text),
    ensures
        name_at(data, pos, text),
{
    let bytes = encode_utf8(text);
    let whole = data.subrange(pos, pos + java_utf(text).len());
    assert(data.subrange(pos, pos + 2) =~= whole.subrange(0, 2));
    assert(whole.subrange(0, 2) =~= be16(bytes.len() as int));
    lemma_word16(data, pos, bytes.len() as int);
    assert(data.subrange(pos + 2, pos + 2 + bytes.len()) =~= whole.subrange(
        2,
        2 + bytes.len() as int,
    ));
    assert(whole.subrange(2, 2 + bytes.len() as int) =~= bytes);
}

/// A written index starts with its version, the name of its model, its number of dimensions and
/// the number of its embeddings.
pub proof fn law_serialized_header(idx: &EmbedIndex, bytes: Vec<u8>)
    requires
        call_ensures(serialize_index, (idx,), Ok::<Vec<u8>, EncodeError>(bytes)),
    ensures
        ({
            let n = encode_utf8(idx.model@).len() as int;
            &&& number_at(bytes@, 0, idx.version as int)
            &&& name_at(bytes@, 4, idx.model@)
            &&& number_at(bytes@, 6 + n, idx.dims as int)
            &&& number_at(bytes@, 10 + n, idx.embeddings@.len() as int % 4294967296)
        }),
{
    let m = idx@;
    let name = java_utf(m.model);
    let n = encode_utf8(m.model).len() as int;
    let count = m.entries.len() as int % 0x1_0000_0000;
    let es = entries_bytes(m.entries);
    lemma_blocks(
        be32(as_unsigned(m.version as int)),
        name,
        be32(as_unsigned(m.dims as int)),
        be32(count),
        es,
        Seq::empty(),
    );
    let data = be32(as_unsigned(m.version as int)) + name + be32(as_unsigned(m.dims as int)) + be32(
        count,
    ) + es + Seq::<u8>::empty();
    assert(bytes@ =~= data);
    assert(short_text(m.model)) by {
        if !short_text(m.model) {
            assert(first_long_text(m) == Some(m.model));
        }
    }
    lemma_number_at(bytes@, 0, m.version as int);
    lemma_name_at(bytes@, 4, m.model);
    lemma_number_at(bytes@, 6 + n, m.dims as int);
    assert(as_unsigned(count) == count);
    lemma_number_at(bytes@, 10 + n, count);
}

/// Embeddings are written one behind the other.
proof fn lemma_entries_concat(a: Seq<(Seq<char>, Seq<u32>)>, b: Seq<(Seq<char>, Seq<u32>)>)
    ensures
        entries_bytes(a + b) == entries_bytes(a) + entries_bytes(b),
    decreases a.len(),
{
    if a.len() == 0 {
        assert(a + b =~= b);
        assert(entries_bytes(a) + entries_bytes(b) =~= entries_bytes(b));
    } else {
        lemma_entries_concat(a.skip(1), b);
        assert((a + b).skip(1) =~= a.skip(1) + b);
        let block = java_utf(a[0].0) + vector_bytes(a[0].1);
        assert(block + (entries_bytes(a.skip(1)) + entries_bytes(b)) =~= (block + entries_bytes(
            a.skip(1),
        )) + entries_bytes(b));
    }
}

/// The number of bytes before embedding `i`.
spec fn entry_place(entries: Seq<(Seq<char>, Seq<u32>)>, i: int) -> int {
    entries_bytes(entries.take(i)).len() as int
}

/// Where embedding `i` stands.
proof fn lemma_entry_place(entries: Seq<(Seq<char>, Seq<u32>)>, i: int)
    requires
        0 <= i < entries.len(),
    ensures
        entry_place(entries, i + 1) == entry_place(entries, i) + java_utf(entries[i].0).len() + 4
            * entries[i].1.len(),
        entry_place(entries, i + 1) <= entries_bytes(entries).len(),
        entries_bytes(entries).subrange(entry_place(entries, i), entry_place(entries, i + 1))
            == java_utf(entries[i].0) + vector_bytes(entries[i].1),
{
    let front = entries.take(i);
    let one = seq![entries[i]];
    let rest = entries.skip(i + 1);
    let block = java_utf(entries[i].0) + vector_bytes(entries[i].1);
    assert(one.skip(1) =~= seq![]);
    assert(entries_bytes(one.skip(1)) =~= seq![]);
    assert(entries_bytes(one) =~= block);
    assert(entries.take(i + 1) =~= front + one);
    lemma_entries_concat(front, one);
    assert(entries =~= entries.take(i + 1) + rest);
    lemma_entries_concat(entries.take(i + 1), rest);
    lemma_block(entries_bytes(front), block, entries_bytes(rest));
}

/// Behind the header of a written index stand its embeddings, one behind the other, and nothing
/// else: embedding `i` starts at `at[i]` with its object name, and each component of its vector
/// follows in four bytes.
pub proof fn law_serialized_embeddings(idx: &EmbedIndex, bytes: Vec<u8>) -> (at: Seq<int>)
    requires
        call_ensures(serialize_index, (idx,), Ok::<Vec<u8>, EncodeError>(bytes)),
    ensures
        at.len() == idx.embeddings@.len() + 1,
        at[0] == 14 + encode_utf8(idx.model@).len(),
        at[idx.embeddings@.len() as int] == bytes@.len(),
        forall|i: int|
            0 <= i < idx.embeddings@.len() ==> {
                let (name, v) = #[trigger] idx.embeddings@[i];
                let n = encode_utf8(name).len() as int;
                &&& name_at(bytes@, at[i], name)
                &&& at[i + 1] == at[i] + 2 + n + 4 * v.len()
                &&& forall|j: int|
                    0 <= j < v.len() ==> number_at(
                        bytes@,
                        at[i] + 2 + n + 4 * j,
                        #[trigger] v[j] as int,
                    )
            },
{
    let m = idx@;
    let es = m.entries;
    let data = bytes@;
    let start: int = 14 + encode_utf8(m.model).len() as int;
    let at = Seq::new(es.len() + 1, |i: int| start + entry_place(es, i));
    let all = entries_bytes(es);
    assert(es.take(0) =~= seq![]);
    assert(es.take(es.len() as int) =~= es);
    assert(data == header_bytes(m) + all);
    assert(header_bytes(m).len() == start);
    assert forall|i: int| 0 <= i < es.len() implies {
        let (name, v) = #[trigger] es[i];
        let n = encode_utf8(name).len() as int;
        &&& name_at(data, at[i], name)
        &&& at[i + 1] == at[i] + 2 + n + 4 * v.len()
        &&& forall|j: int|
            0 <= j < v.len() ==> number_at(data, at[i] + 2 + n + 4 * j, #[trigger] v[j] as int)
    } by {
        let (name, v) = es[i];
        lemma_names_short(es, i);
        lemma_entry_place(es, i);
        lemma_behind(header_bytes(m), all, at[i] - start, at[i + 1] - start);
        lemma_embedding_at(data, at[i], name, v);
    }
    at
}

/// A stretch of what stands behind other bytes.
proof fn lemma_behind(head: Seq<u8>, all: Seq<u8>, from: int, to: int)
    requires
        0 <= from <= to <= all.len(),
    ensures
        (head + all).subrange(head.len() + from, head.len() + to) == all.subrange(from, to),
{
    assert((head + all).subrange(head.len() + from, head.len() + to) =~= all.subrange(from, to));
}

/// An embedding where its bytes stand.
proof fn lemma_embedding_at(data: Seq<u8>, pos: int, name: Seq<char>, v: Seq<u32>)
    requires
        encode_utf8(name).len() <= 0xffff,
        0 <= pos,
        pos + java_utf(name).len() + 4 * v.len() <= data.len(),
        data.subrange(pos, pos + java_utf(name).len() + 4 * v.len()) == java_utf(name)
            + vector_bytes(v),
    ensures
        name_at(data, pos, name),
        forall|j: int|
            0 <= j < v.len() ==> number_at(
                data,
                pos + 2 + encode_utf8(name).len() + 4 * j,
                #[trigger] v[j] as int,
            ),
{
    let head = java_utf(name);
    let vec = vector_bytes(v);
    let n = head.len() as int;
    let block = data.subrange(pos, pos + n + 4 * v.len());
    assert(data.subrange(pos, pos + n) =~= block.subrange(0, n));
    assert(block.subrange(0, n) =~= head);
    lemma_name_at(data, pos, name);
    assert forall|j: int| 0 <= j < v.len() implies number_at(
        data,
        pos + 2 + encode_utf8(name).len() + 4 * j,
        #[trigger] v[j] as int,
    ) by {
        let at = pos + n + 4 * j;
        let four = be32(v[j] as int);
        assert forall|k: int| 0 <= k < 4 implies data[at + k] == four[k] by {
            assert(data[at + k] == block[n + (4 * j + k)]);
            assert(block[n + (4 * j + k)] == vec[4 * j + k]);
            assert((4 * j + k) / 4 == j && (4 * j + k) % 4 == k);
        }
        assert(data.subrange(at, at + 4) =~= four);
        lemma_number_at(data, at, v[j] as int);
    }
}

/// Where no object name is too long, each is short enough.
proof fn lemma_names_short(entries: Seq<(Seq<char>, Seq<u32>)>, i: int)
    requires
        first_long_name(entries) is None,
        0 <= i < entries.len(),
    ensures
        encode_utf8(entries[i].0).len() <= 0xffff,
    decreases i,
{
    if i > 0 {
        lemma_names_short(entries.skip(1), i - 1);
    }
}

/// Object names that are short enough.
proof fn lemma_all_short(entries: Seq<(Seq<char>, Seq<u32>)>)
    ensures
        first_long_name(entries) is None <==> forall|i: int|
            0 <= i < entries.len() ==> encode_utf8((#[trigger] entries[i]).0).len() <= 65535,
        first_long_name(entries) is Some ==> encode_utf8(first_long_name(entries)->0).len() > 65535
            && exists|i: int|
            0 <= i < entries.len() && (#[trigger] entries[i]).0 == first_long_name(entries)->0,
    decreases entries.len(),
{
    if entries.len() > 0 {
        let rest = entries.skip(1);
        lemma_all_short(rest);
        assert(forall|i: int| 0 <= i < rest.len() ==> #[trigger] rest[i] == entries[i + 1]);
        if first_long_name(entries) is None {
            assert forall|i: int| 0 <= i < entries.len() implies encode_utf8(
                (#[trigger] entries[i]).0,
            ).len() <= 65535 by {
                lemma_names_short(entries, i);
            }
        } else if !short_text(entries[0].0) {
            assert(entries[0].0 == first_long_name(entries)->0);
        } else {
            let i = choose|i: int|
                0 <= i < rest.len() && (#[trigger] rest[i]).0 == first_long_name(rest)->0;
            assert(entries[i + 1].0 == first_long_name(entries)->0);
        }
    }
}

/// An index can be written just where neither the name of its model nor an object name is
/// longer than 65535 bytes. Otherwise the length of one that is longer is told.
pub proof fn law_serialize_fails(idx: &EmbedIndex, r: Result<Vec<u8>, EncodeError>)
    requires
        call_ensures(serialize_index, (idx,), r),
    ensures
        r is Ok <==> encode_utf8(idx.model@).len() <= 65535 && forall|i: int|
            0 <= i < idx.embeddings@.len() ==> encode_utf8((#[trigger] idx.embeddings@[i]).0).len()
                <= 65535,
        r is Err ==> r->Err_0.bytes > 65535,
        r is Err && encode_utf8(idx.model@).len() > 65535 ==> r->Err_0.bytes == encode_utf8(
            idx.model@,
        ).len(),
        r is Err && encode_utf8(idx.model@).len() <= 65535 ==> exists|i: int|
            0 <= i < idx.embeddings@.len() && encode_utf8((#[trigger] idx.embeddings@[i]).0).len()
                == r->Err_0.bytes,
{
    lemma_all_short(idx@.entries);
}

/// What was written is read back: an index whose vectors have as many components as it has
/// dimensions, read from the bytes that it was written as, whatever bytes follow them.
pub proof fn law_read_back(
    idx: &EmbedIndex,
    bytes: Vec<u8>,
    data: &[u8],
    r: Result<EmbedIndex, DecodeError>,
)
    requires
        call_ensures(serialize_index, (idx,), Ok::<Vec<u8>, EncodeError>(bytes)),
        call_ensures(deserialize_index, (data,), r),
        bytes@.is_prefix_of(data@),
        unique_keys(idx.embeddings@),
        idx.dims > 0,
        idx.embeddings@.len() <= 2147483647,
        forall|i: int|
            0 <= i < idx.embeddings@.len() ==> (#[trigger] idx.embeddings@[i]).1.len() == idx.dims,
    ensures
        r is Ok,
        r->Ok_0.version == idx.version,
        r->Ok_0.model@ == idx.model@,
        r->Ok_0.dims == idx.dims,
        r->Ok_0.embeddings@ == idx.embeddings@,
{
    let m = idx@;
    let tail = data@.skip(bytes@.len() as int);
    assert(data@ =~= bytes@ + tail);
    law_read_what_was_written(m, tail);
    lemma_put_all_unique(m.entries);
    assert(r->Ok_0@ == m);
}

/// Bytes that are cut off before the end of an index are refused.
pub proof fn law_truncated_index_is_refused(m: IndexModel, n: int)
    requires
        writable(m),
        0 <= n < encode_index(m).len(),
    ensures
        decode_index(encode_index(m).take(n)) is Err,
{
    let whole = encode_index(m);
    let cut = whole.take(n);
    if decode_index(cut) is Ok {
        let other = decode_index(cut)->Ok_0;
        law_write_what_was_read(cut);
        let start = encode_index(other);
        lemma_start_of_cut(start, whole, n);
        law_read_what_was_written(other, whole.skip(start.len() as int));
        law_read_what_was_written(m, Seq::empty());
        lemma_nothing_behind(whole);
        assert(m == other);
    }
}

/// What bytes that are cut off start with, the bytes start with.
proof fn lemma_start_of_cut(start: Seq<u8>, whole: Seq<u8>, n: int)
    requires
        0 <= n <= whole.len(),
        start.is_prefix_of(whole.take(n)),
    ensures
        start.len() <= n,
        whole == start + whole.skip(start.len() as int),
{
    assert(start =~= whole.take(n).subrange(0, start.len() as int));
    assert(whole =~= start + whole.skip(start.len() as int));
}

/// Nothing stands behind bytes.
proof fn lemma_nothing_behind(whole: Seq<u8>)
    ensures
        whole + Seq::<u8>::empty() == whole,
{
    assert(whole + Seq::<u8>::empty() =~= whole);
}

/// What is wrong with embeddings that cannot be read.
proof fn lemma_entries_fault(data: Seq<u8>, pos: int, dims: i32, i: int, count: int)
    requires
        entries_at(data, pos, dims, i, count) is Err,
    ensures
        entries_at(data, pos, dims, i, count)->Err_0 is Sha || entries_at(
            data,
            pos,
            dims,
            i,
            count,
        )->Err_0 is Value,
    decreases count - i,
{
    if i < count {
        match text_at(data, pos) {
            Err(_) => {},
            Ok((sha, p)) => if p + 4 * dims <= data.len() {
                lemma_entries_fault(data, p + 4 * dims, dims, i + 1, count);
            },
        }
    }
}

/// What is wrong with bytes whose header cannot be read. The version takes four bytes. The name
/// of the model follows behind the number of its bytes, which must be UTF-8. The number of
/// dimensions and the number of embeddings take four bytes each; the first must be positive,
/// and the second must not be negative.
pub proof fn law_header_faults(data: &[u8], r: Result<EmbedIndex, DecodeError>)
    requires
        call_ensures(deserialize_index, (data,), r),
    ensures
        ({
            let d = data@;
            let len = d.len() as int;
            let n = d[4] * 256 + d[5];
            let dims = d[6 + n] * 16777216 + d[7 + n] * 65536 + d[8 + n] * 256 + d[9 + n];
            let count = d[10 + n] * 16777216 + d[11 + n] * 65536 + d[12 + n] * 256 + d[13 + n];
            let named = len >= 6 && len >= 6 + n && valid_utf8(d.subrange(6, 6 + n));
            &&& (r is Err && r->Err_0 is Version) <==> len < 4
            &&& (r is Err && r->Err_0 is Model) <==> len >= 4 && !named
            &&& (r is Err && r->Err_0 is Dims) <==> named && len < 10 + n
            &&& (r is Err && r->Err_0 is Count) <==> named && 10 + n <= len < 14 + n
            &&& (r is Err && r->Err_0 is InvalidDims) <==> named && len >= 14 + n && (dims == 0
                || dims >= 2147483648)
            &&& (r is Err && r->Err_0 is InvalidCount) <==> named && len >= 14 + n && 0 < dims
                < 2147483648 && count >= 2147483648
            &&& r is Ok ==> {
                &&& number_at(d, 0, r->Ok_0.version as int)
                &&& encode_utf8(r->Ok_0.model@) == d.subrange(6, 6 + n)
                &&& r->Ok_0.dims == dims
                &&& r->Ok_0.embeddings@.len() <= count
            }
        }),
{
    let d = data@;
    let len = d.len() as int;
    if len >= 6 {
        lemma_be16(d, 4);
    }
    if decode_index(d) is Ok {
        let m = decode_index(d)->Ok_0;
        let (model, p) = text_at(d, 4)->Ok_0;
        decode_utf8_encode_utf8(d.subrange(6, p));
        lemma_be32(d, 0);
        lemma_be32(d, p);
        lemma_be32(d, p + 4);
        lemma_entries_bytes(d, p + 8, m.dims, 0, as_signed(word32(d, p + 4)));
        lemma_put_all_len(m.entries);
        assert(r->Ok_0@ == stored(m));
        assert(r->Ok_0@.version == m.version);
    } else if len >= 6 && text_at(d, 4) is Ok {
        let (model, p) = text_at(d, 4)->Ok_0;
        if p + 8 <= len {
            lemma_be32(d, p);
            lemma_be32(d, p + 4);
            let dims = as_signed(word32(d, p)) as i32;
            let count = as_signed(word32(d, p + 4)) as i32;
            if dims > 0 && count >= 0 {
                lemma_entries_fault(d, p + 8, dims, 0, count as int);
            }
        }
        assert(r->Err_0@ == decode_index(d)->Err_0);
    } else {
        assert(r->Err_0@ == decode_index(d)->Err_0);
    }
}

/// Storing pairs does not give more than there are.
proof fn lemma_put_all_len<T>(pairs: Seq<(Seq<char>, T)>)
    ensures
        put_all(seq![], pairs).len() <= pairs.len(),
    decreases pairs.len(),
{
    if pairs.len() > 0 {
        lemma_put_all_len(pairs.drop_last());
    }
}

/// Of two embeddings under one object name the one that is read later stays: where no later one
/// of the listed embeddings has the object name of embedding `i`, that embedding is in the index.
pub proof fn law_later_embedding_stays(data: &[u8], idx: EmbedIndex, i: int)
    requires
        call_ensures(deserialize_index, (data,), Ok::<EmbedIndex, DecodeError>(idx)),
        decode_index(data@) is Ok,
        0 <= i < decode_index(data@)->Ok_0.entries.len(),
        forall|j: int|
            i < j < decode_index(data@)->Ok_0.entries.len() ==> (
            #[trigger] decode_index(data@)->Ok_0.entries[j]).0
                != decode_index(data@)->Ok_0.entries[i].0,
    ensures
        idx.embeddings@.contains(decode_index(data@)->Ok_0.entries[i]),
{
    assert(idx@ == stored(decode_index(data@)->Ok_0));
    lemma_last_stays(decode_index(data@)->Ok_0.entries, i);
}

/// The last pair with a key stays.
proof fn lemma_last_stays<T>(pairs: Seq<(Seq<char>, T)>, i: int)
    requires
        0 <= i < pairs.len(),
        forall|j: int| i < j < pairs.len() ==> (#[trigger] pairs[j]).0 != pairs[i].0,
    ensures
        put_all(seq![], pairs).contains(pairs[i]),
    decreases pairs.len(),
{
    let front = pairs.drop_last();
    let before = put_all(seq![], front);
    let (k, v) = pairs.last();
    let after = put(before, k, v);
    if i == pairs.len() - 1 {
        let at = if has_key(before, k) {
            place_of(before, k)
        } else {
            before.len() as int
        };
        assert(after[at] == (k, v));
    } else {
        assert(front[i] == pairs[i]);
        assert forall|j: int| i < j < front.len() implies (#[trigger] front[j]).0 != front[i].0 by {
            assert(front[j] == pairs[j]);
        }
        lemma_last_stays(front, i);
        let at = choose|at: int| 0 <= at < before.len() && before[at] == pairs[i];
        assert(pairs[pairs.len() - 1].0 != pairs[i].0);
        assert(after[at] == pairs[i]);
    }
}

/// Loading gives what the stored bytes are read as. Where nothing is stored, or where the bytes
/// cannot be read, it gives a fresh index, and tells in the second case what is wrong.
pub proof fn law_load_index(
    data: Option<&[u8]>,
    read: Result<EmbedIndex, DecodeError>,
    r: (EmbedIndex, Option<DecodeError>),
)
    requires
        call_ensures(load_index, (data,), r),
        data is Some ==> call_ensures(deserialize_index, (data->0,), read),
    ensures
        r.1 is Some <==> data is Some && read is Err,
        r.1 is Some ==> r.1->0@ == read->Err_0@,
        data is Some && read is Ok ==> r.0@ == read->Ok_0@,
        data is None || read is Err ==> r.0.version == 1 && r.0.model@ == "nomic-embed-text-v1.5"@
            && r.0.dims == 768 && r.0.embeddings@.len() == 0,
{
    if data is None || read is Err {
        assert(r.0@ == fresh());
    }
}

/// Where the embeddings end that can be read, and what is wrong behind them.
proof fn lemma_fault_place(data: Seq<u8>, pos: int, dims: i32, i: int, count: int) -> (es: Seq<
    (Seq<char>, Seq<u32>),
>)
    requires
        0 <= pos <= data.len(),
        dims > 0,
        0 <= i,
        entries_at(data, pos, dims, i, count) is Err,
    ensures
        ({
            let at = pos + entries_bytes(es).len();
            &&& i + es.len() < count
            &&& at <= data.len()
            &&& data.subrange(pos, at) == entries_bytes(es)
            &&& forall|k: int| 0 <= k < es.len() ==> (#[trigger] es[k]).1.len() == dims
            &&& match entries_at(data, pos, dims, i, count)->Err_0 {
                DecodeFault::Sha { entry } => entry == i + es.len() && text_at(data, at) is Err,
                DecodeFault::Value { component, dims: d, entry, sha } => {
                    &&& entry == i + es.len()
                    &&& d == dims
                    &&& 0 <= component < dims
                    &&& text_at(data, at) is Ok
                    &&& text_at(data, at)->Ok_0.0 == sha
                    &&& text_at(data, at)->Ok_0.1 + 4 * component <= data.len()
                    &&& text_at(data, at)->Ok_0.1 + 4 * component + 4 > data.len()
                },
                _ => false,
            }
        }),
    decreases count - i,
{
    let none = Seq::<(Seq<char>, Seq<u32>)>::empty();
    assert(entries_bytes(none) =~= seq![]);
    assert(data.subrange(pos, pos) =~= seq![]);
    match text_at(data, pos) {
        Err(_) => none,
        Ok((sha, p)) => {
            lemma_java_utf(data, pos);
            if p + 4 * dims > data.len() {
                none
            } else {
                let q = p + 4 * dims;
                let v = vector_at(data, p, dims as int);
                lemma_vector_bytes(data, p, dims as int);
                let rest = lemma_fault_place(data, q, dims, i + 1, count);
                let es = seq![(sha, v)] + rest;
                assert(es.skip(1) =~= rest);
                let end = q + entries_bytes(rest).len();
                assert(data.subrange(pos, end) =~= data.subrange(pos, p) + data.subrange(p, q)
                    + data.subrange(q, end));
                assert forall|k: int| 0 <= k < es.len() implies (#[trigger] es[k]).1.len()
                    == dims by {
                    if k > 0 {
                        assert(es[k] == rest[k - 1]);
                    }
                }
                es
            }
        },
    }
}

/// What is wrong with bytes whose header can be read: behind the header stand the embeddings
/// `es`, fewer than there should be. Behind them no object name can be read; or there is one,
/// and behind it `component` components of its vector, which are fewer than there should be,
/// and less than four bytes. The number of the embedding is that of those before it.
pub proof fn law_embedding_faults(data: &[u8], e: DecodeError) -> (es: Seq<(Seq<char>, Seq<u32>)>)
    requires
        call_ensures(deserialize_index, (data,), Err::<EmbedIndex, DecodeError>(e)),
        e is Sha || e is Value,
    ensures
        ({
            let d = data@;
            let n = d[4] * 256 + d[5];
            let at = 14 + n + entries_bytes(es).len();
            let dims = d[6 + n] * 16777216 + d[7 + n] * 65536 + d[8 + n] * 256 + d[9 + n];
            let count = d[10 + n] * 16777216 + d[11 + n] * 65536 + d[12 + n] * 256 + d[13 + n];
            &&& es.len() < count
            &&& at <= d.len()
            &&& d.subrange(14 + n, at) == entries_bytes(es)
            &&& forall|k: int| 0 <= k < es.len() ==> (#[trigger] es[k]).1.len() == dims
            &&& match e {
                DecodeError::Sha { entry } => {
                    let k = d[at] * 256 + d[at + 1];
                    &&& entry == es.len()
                    &&& at + 2 > d.len() || at + 2 + k > d.len() || !valid_utf8(
                        d.subrange(at + 2, at + 2 + k),
                    )
                },
                DecodeError::Value { component, dims: all, entry, sha } => {
                    let end = at + 2 + encode_utf8(sha@).len() + 4 * component;
                    &&& entry == es.len()
                    &&& all == dims
                    &&& 0 <= component < dims
                    &&& name_at(d, at, sha@)
                    &&& end <= d.len() < end + 4
                },
                _ => false,
            }
        }),
{
    let d = data@;
    let (model, p) = text_at(d, 4)->Ok_0;
    assert(e@ == decode_index(d)->Err_0);
    lemma_be16(d, 4);
    lemma_be32(d, p);
    lemma_be32(d, p + 4);
    let dims = as_signed(word32(d, p)) as i32;
    let count = as_signed(word32(d, p + 4)) as i32;
    let es = lemma_fault_place(d, p + 8, dims, 0, count as int);
    let at = p + 8 + entries_bytes(es).len();
    if e is Value {
        lemma_java_utf(d, at);
        lemma_name_at(d, at, e->sha@);
    }
    es
}

} // verus!
