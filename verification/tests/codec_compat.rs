//! The serialized index is interchangeable with a standard-configuration
//! bincode encoding of a name-to-(offset, length) map, so archives stay
//! readable by tooling built on that serializer.  These tests hold the
//! library's encoder and parser against the real bincode crate, byte for
//! byte, across the encoding's integer-width branches.

use pocket_knife::stream::MemoryStream;
use pocket_knife::{FileTable, MemoryProducer};
use std::collections::BTreeMap;

fn producer(name: &str, data: Vec<u8>) -> MemoryProducer {
    MemoryProducer { name: String::from(name), data }
}

fn build(files: &[MemoryProducer]) -> (Vec<u8>, FileTable) {
    let mut stream = MemoryStream::new();
    let table = FileTable::create(&mut stream, files).expect("create failed");
    (stream.into_vec(), table)
}

fn index_region(bytes: &[u8]) -> &[u8] {
    let addr = u64::from_le_bytes(bytes[20..28].try_into().unwrap()) as usize;
    &bytes[addr..]
}

fn as_map(table: &FileTable) -> BTreeMap<String, (u64, u64)> {
    table.0.iter().map(|(n, e)| (n.clone(), (e.offset, e.length))).collect()
}

#[test]
fn index_encoding_matches_bincode() {
    // payload sizes drive the offsets and lengths through the one-byte,
    // 16-bit and 32-bit branches of the integer encoding
    // names where sorting must weigh a multi-byte character against a
    // plain one the same way the map serializer does
    let producers = vec![
        producer("big.bin", vec![0xAB; 70_000]),
        producer("mid.bin", vec![0x7F; 300]),
        producer("tiny.bin", vec![1, 2, 3]),
        producer("na\u{ef}ve.txt", b"accents".to_vec()),
        producer("\u{e9}.txt", b"late".to_vec()),
        producer("z.txt", b"early".to_vec()),
    ];
    let (bytes, table) = build(&producers);
    let region = index_region(&bytes);

    let expected = as_map(&table);
    let encoded = bincode::encode_to_vec(&expected, bincode::config::standard()).unwrap();
    assert_eq!(region, &encoded[..]);
}

#[test]
fn bincode_decodes_the_index() {
    let producers = vec![producer("a.txt", b"hello".to_vec()), producer("b.bin", vec![0, 1])];
    let (bytes, table) = build(&producers);
    let region = index_region(&bytes);

    let (decoded, used): (BTreeMap<String, (u64, u64)>, usize) =
        bincode::decode_from_slice(region, bincode::config::standard()).unwrap();
    assert_eq!(used, region.len());
    assert_eq!(decoded, as_map(&table));
}

#[test]
fn read_pipeline_accepts_a_bincode_built_archive() {
    // assemble an archive by hand, serializing the index with bincode
    let payload_a = b"from the outside".to_vec();
    let payload_b = vec![0xEE; 260];
    let mut bytes = b"Pocket Knife Archive".to_vec();
    let offset_a = 28u64;
    let offset_b = offset_a + payload_a.len() as u64;
    let table_address = offset_b + payload_b.len() as u64;
    bytes.extend_from_slice(&table_address.to_le_bytes());
    bytes.extend_from_slice(&payload_a);
    bytes.extend_from_slice(&payload_b);

    let mut index: BTreeMap<String, (u64, u64)> = BTreeMap::new();
    index.insert(String::from("outer.txt"), (offset_a, payload_a.len() as u64));
    index.insert(String::from("second.bin"), (offset_b, payload_b.len() as u64));
    let encoded = bincode::encode_to_vec(&index, bincode::config::standard()).unwrap();
    bytes.extend_from_slice(&encoded);

    let mut stream = MemoryStream::from_vec(bytes);
    let table = FileTable::read(&mut stream).expect("read failed");
    assert_eq!(as_map(&table), index);

    let a = table.open_file(&mut stream, String::from("outer.txt")).unwrap();
    assert_eq!(a, payload_a);
    let b = table.open_file(&mut stream, String::from("second.bin")).unwrap();
    assert_eq!(b, payload_b);
}

#[test]
fn many_entries_match_bincode() {
    // over 250 records force the record count through the 16-bit branch
    let producers: Vec<MemoryProducer> = (0..300u32)
        .map(|i| MemoryProducer { name: format!("file{:04}", i), data: vec![i as u8] })
        .collect();
    let (bytes, table) = build(&producers);
    let region = index_region(&bytes);

    let expected = as_map(&table);
    assert_eq!(expected.len(), 300);
    let encoded = bincode::encode_to_vec(&expected, bincode::config::standard()).unwrap();
    assert_eq!(region, &encoded[..]);

    let mut stream = MemoryStream::from_vec(bytes);
    let loaded = FileTable::read(&mut stream).expect("read failed");
    let v = loaded.open_file(&mut stream, String::from("file0123")).unwrap();
    assert_eq!(v, vec![123]);
}

#[test]
fn large_name_length_prefix_matches_bincode() {
    // a 300-byte name forces the 16-bit branch of the length prefix
    let long_name: String = std::iter::repeat('n').take(300).collect();
    let producers = vec![producer(&long_name, b"x".to_vec())];
    let (bytes, table) = build(&producers);
    let region = index_region(&bytes);

    let encoded = bincode::encode_to_vec(&as_map(&table), bincode::config::standard()).unwrap();
    assert_eq!(region, &encoded[..]);

    let mut stream = MemoryStream::from_vec(bytes);
    let loaded = FileTable::read(&mut stream).expect("read failed");
    let v = loaded.open_file(&mut stream, long_name).unwrap();
    assert_eq!(v, b"x".to_vec());
}
