use byteorder::{BigEndian, ReadBytesExt, WriteBytesExt};
use git_embed::index::{
    deserialize_index, empty_index, load_index, serialize_index, EmbedIndex, DEFAULT_MODEL,
};
use git_embed::wire::{read_java_utf, write_java_utf, TextError};
use std::io::{Cursor, Read};

fn bits(v: &[f32]) -> Vec<u32> {
    v.iter().map(|x| x.to_bits()).collect()
}

fn floats(idx: &EmbedIndex, sha: &str) -> Vec<f32> {
    idx.embeddings.get(sha).unwrap().iter().map(|b| f32::from_bits(*b)).collect()
}

#[test]
fn test_empty_index_defaults() {
    let idx = empty_index();
    assert_eq!(idx.version, 1);
    assert_eq!(idx.model, "nomic-embed-text-v1.5");
    assert_eq!(idx.dims, 768);
    assert!(idx.embeddings.is_empty());
}

#[test]
fn test_roundtrip_empty() {
    let idx = empty_index();
    let data = serialize_index(&idx).unwrap();
    let idx2 = deserialize_index(&data).ok().unwrap();
    assert_eq!(idx2.version, idx.version);
    assert_eq!(idx2.model, idx.model);
    assert_eq!(idx2.dims, idx.dims);
    assert!(idx2.embeddings.is_empty());
}

#[test]
fn test_roundtrip_with_embeddings() {
    let mut idx = empty_index();
    idx.embeddings.insert("abc123".to_string(), bits(&[1.0, 2.0, 3.0]));
    idx.embeddings.insert("def456".to_string(), bits(&[4.0, 5.0, 6.0]));
    idx.dims = 3;

    let data = serialize_index(&idx).unwrap();
    let idx2 = deserialize_index(&data).ok().unwrap();

    assert_eq!(idx2.version, 1);
    assert_eq!(idx2.dims, 3);
    assert_eq!(idx2.embeddings.len(), 2);
    assert_eq!(floats(&idx2, "abc123"), vec![1.0, 2.0, 3.0]);
    assert_eq!(floats(&idx2, "def456"), vec![4.0, 5.0, 6.0]);
}

/// What is saved last is what a load finds: the index is stored as one blob under one ref.
#[test]
fn test_save_overwrites_previous() {
    let mut idx1 = empty_index();
    idx1.embeddings
        .insert("aaaa000000000000000000000000000000000001".to_string(), bits(&[1.0; 768]));
    let mut stored = serialize_index(&idx1).unwrap();
    assert_eq!(load_index(Some(&stored)).0.embeddings.len(), 1);

    let mut idx2 = empty_index();
    idx2.embeddings
        .insert("bbbb000000000000000000000000000000000002".to_string(), bits(&[2.0; 768]));
    stored = serialize_index(&idx2).unwrap();

    let (loaded, error) = load_index(Some(&stored));
    assert!(error.is_none());
    assert_eq!(loaded.embeddings.len(), 1);
    assert!(loaded.embeddings.contains_key("bbbb000000000000000000000000000000000002"));
}

#[test]
fn test_java_utf_roundtrip() {
    let test_str = "hello-world-sha256abc";
    let mut buf = Vec::new();
    write_java_utf(&mut buf, test_str).unwrap();

    assert_eq!(buf.len(), 2 + test_str.len());
    let expected_len = (test_str.len() as u16).to_be_bytes();
    assert_eq!(&buf[..2], &expected_len);

    let (result, end) = read_java_utf(&buf, 0).unwrap();
    assert_eq!(result, test_str);
    assert_eq!(end, buf.len());
}

#[test]
fn test_java_utf_empty_string() {
    let mut buf = Vec::new();
    write_java_utf(&mut buf, "").unwrap();
    assert_eq!(buf, vec![0, 0]);

    let (result, _) = read_java_utf(&buf, 0).unwrap();
    assert_eq!(result, "");
}

#[test]
fn java_utf_errors() {
    assert_eq!(read_java_utf(&[0], 0), Err(TextError::Truncated));
    assert_eq!(read_java_utf(&[0, 2, 65], 0), Err(TextError::Truncated));
    assert_eq!(read_java_utf(&[0, 1, 0xff], 0), Err(TextError::InvalidUtf8));
    assert_eq!(read_java_utf(&[0, 1, 65, 66], 9), Err(TextError::Truncated));
    assert_eq!(read_java_utf(&[9, 0, 2, 0xc3, 0xa4, 7], 1), Ok(("\u{e4}".to_string(), 5)));

    let mut buf = vec![7];
    assert_eq!(write_java_utf(&mut buf, &"x".repeat(65536)), Err(65536));
    assert_eq!(buf, vec![7]);
    assert_eq!(write_java_utf(&mut buf, &"x".repeat(65535)), Ok(()));
    assert_eq!(buf.len(), 65538);
    assert_eq!(&buf[..4], &[7, 0xff, 0xff, 120]);
}

#[test]
fn test_deserialize_corrupt_data() {
    let result = deserialize_index(&[0x00, 0x01]);
    assert!(result.is_err());
    assert_eq!(result.err().unwrap().message(), "failed to read version");
}

#[test]
fn test_deserialize_negative_dims() {
    let mut buf = Vec::new();
    buf.write_i32::<BigEndian>(1).unwrap();
    buf.write_u16::<BigEndian>(0).unwrap();
    buf.write_i32::<BigEndian>(-1).unwrap();
    buf.write_i32::<BigEndian>(0).unwrap();

    let result = deserialize_index(&buf);
    assert!(result.is_err());
    assert!(result.err().unwrap().message().contains("invalid dims"));
}

#[test]
fn test_deserialize_zero_dims() {
    let mut buf = Vec::new();
    buf.write_i32::<BigEndian>(1).unwrap();
    buf.write_u16::<BigEndian>(0).unwrap();
    buf.write_i32::<BigEndian>(0).unwrap();
    buf.write_i32::<BigEndian>(0).unwrap();
    let result = deserialize_index(&buf);
    assert!(result.is_err());
    assert!(result.err().unwrap().message().contains("invalid dims"));
}

#[test]
fn test_deserialize_truncated_embedding() {
    let mut buf = Vec::new();
    buf.write_i32::<BigEndian>(1).unwrap();
    buf.write_u16::<BigEndian>(0).unwrap();
    buf.write_i32::<BigEndian>(3).unwrap();
    buf.write_i32::<BigEndian>(1).unwrap();
    buf.write_u16::<BigEndian>(2).unwrap();
    buf.extend_from_slice(b"aa");
    buf.write_f32::<BigEndian>(1.0).unwrap();
    buf.write_f32::<BigEndian>(2.0).unwrap();
    let result = deserialize_index(&buf);
    assert!(result.is_err());
    assert_eq!(
        result.err().unwrap().message(),
        "failed to read float [2/3] for embedding 0 (sha=aa)"
    );
}

#[test]
fn deserialize_names_each_fault() {
    let mut buf = Vec::new();
    buf.write_i32::<BigEndian>(-7).unwrap();
    assert_eq!(deserialize_index(&buf).err().unwrap().message(), "failed to read model");
    buf.write_u16::<BigEndian>(1).unwrap();
    buf.push(0xff);
    assert_eq!(deserialize_index(&buf).err().unwrap().message(), "failed to read model");
    buf[6] = b'm';
    assert_eq!(deserialize_index(&buf).err().unwrap().message(), "failed to read dims");
    buf.write_i32::<BigEndian>(1).unwrap();
    assert_eq!(deserialize_index(&buf).err().unwrap().message(), "failed to read count");
    let mut negative = buf.clone();
    negative.write_i32::<BigEndian>(-2147483648).unwrap();
    assert_eq!(
        deserialize_index(&negative).err().unwrap().message(),
        "invalid count: -2147483648"
    );
    buf.write_i32::<BigEndian>(1).unwrap();
    assert_eq!(
        deserialize_index(&buf).err().unwrap().message(),
        "failed to read sha for embedding 0"
    );
    buf.write_u16::<BigEndian>(0).unwrap();
    buf.write_u32::<BigEndian>(0xdead_beef).unwrap();
    let idx = deserialize_index(&buf).ok().unwrap();
    assert_eq!(idx.version, -7);
    assert_eq!(idx.model, "m");
    assert_eq!(idx.embeddings.get("").unwrap(), &vec![0xdead_beef]);
    // Bytes after the last embedding are of no account.
    buf.push(1);
    assert!(deserialize_index(&buf).is_ok());
}

#[test]
fn deserialize_keeps_the_later_of_two_embeddings() {
    let mut buf = Vec::new();
    buf.write_i32::<BigEndian>(1).unwrap();
    buf.write_u16::<BigEndian>(0).unwrap();
    buf.write_i32::<BigEndian>(1).unwrap();
    buf.write_i32::<BigEndian>(2).unwrap();
    for x in [1.0f32, 2.0] {
        buf.write_u16::<BigEndian>(1).unwrap();
        buf.push(b'k');
        buf.write_f32::<BigEndian>(x).unwrap();
    }
    let idx = deserialize_index(&buf).ok().unwrap();
    assert_eq!(idx.embeddings.len(), 1);
    assert_eq!(floats(&idx, "k"), vec![2.0]);
}

#[test]
fn serialize_refuses_long_texts() {
    let mut idx = empty_index();
    idx.embeddings.insert("y".repeat(70000), vec![]);
    assert_eq!(
        serialize_index(&idx).unwrap_err().message(),
        "string too long for java modified UTF-8 (70000 bytes, max 65535)"
    );
    idx.model = "z".repeat(65536);
    assert_eq!(serialize_index(&idx).unwrap_err().bytes, 65536);
}

#[test]
fn test_load_index_empty_repo() {
    let (idx, fault) = load_index(None);
    assert!(idx.embeddings.is_empty());
    assert_eq!(idx.version, 1);
    assert!(fault.is_none());
}

#[test]
fn test_save_and_load_roundtrip() {
    let mut idx = empty_index();
    let emb = vec![0.5f32; 768];
    idx.embeddings.insert("abc123".to_string(), bits(&emb));

    let stored = serialize_index(&idx).unwrap();
    let (loaded, fault) = load_index(Some(&stored));

    assert!(fault.is_none());
    assert_eq!(loaded.embeddings.len(), 1);
    assert_eq!(floats(&loaded, "abc123"), emb);
    assert_eq!(loaded.model, DEFAULT_MODEL);
}

#[test]
fn test_load_index_corrupt_ref() {
    let (idx, fault) = load_index(Some(b"not valid index data"));
    assert!(idx.embeddings.is_empty());
    assert!(fault.is_some());
}

#[test]
fn test_binary_compatibility() {
    let mut idx = empty_index();
    idx.dims = 2;
    idx.embeddings.insert("aa".to_string(), bits(&[1.0_f32, -1.0_f32]));

    let data = serialize_index(&idx).unwrap();
    let mut cursor = Cursor::new(&data);

    assert_eq!(cursor.read_i32::<BigEndian>().unwrap(), 1);
    let model_len = cursor.read_u16::<BigEndian>().unwrap();
    assert_eq!(model_len as usize, DEFAULT_MODEL.len());
    let mut model_bytes = vec![0u8; model_len as usize];
    cursor.read_exact(&mut model_bytes).unwrap();
    assert_eq!(String::from_utf8(model_bytes).unwrap(), DEFAULT_MODEL);
    assert_eq!(cursor.read_i32::<BigEndian>().unwrap(), 2);
    assert_eq!(cursor.read_i32::<BigEndian>().unwrap(), 1);
    let sha_len = cursor.read_u16::<BigEndian>().unwrap();
    assert_eq!(sha_len, 2);
    let mut sha_bytes = vec![0u8; 2];
    cursor.read_exact(&mut sha_bytes).unwrap();
    assert_eq!(String::from_utf8(sha_bytes).unwrap(), "aa");
    assert_eq!(cursor.read_f32::<BigEndian>().unwrap(), 1.0_f32);
    assert_eq!(cursor.read_f32::<BigEndian>().unwrap(), -1.0_f32);
}

#[test]
fn what_is_read_is_written_again() {
    let mut idx = empty_index();
    idx.dims = 1;
    idx.version = -1;
    for i in 0..5u32 {
        idx.embeddings.insert(format!("sha{}", 4 - i), vec![i]);
    }
    let data = serialize_index(&idx).unwrap();
    let again = serialize_index(&deserialize_index(&data).ok().unwrap()).unwrap();
    assert_eq!(data, again);
    assert_eq!(&data[..4], &[0xff, 0xff, 0xff, 0xff]);
}

#[test]
fn a_clone_holds_the_same() {
    let mut idx = empty_index();
    idx.version = 5;
    idx.embeddings.insert("b".to_string(), vec![1, 2]);
    idx.embeddings.insert("a".to_string(), vec![3]);
    let copy = idx.clone();
    idx.embeddings.insert("c".to_string(), vec![]);
    assert_eq!(copy.version, 5);
    assert_eq!(copy.embeddings.len(), 2);
    assert_eq!(copy.embeddings.key_at(0), "b");
    assert_eq!(copy.embeddings.value_at(0), &vec![1, 2]);
    assert_eq!(copy.embeddings.get("a").unwrap(), &vec![3]);
}
