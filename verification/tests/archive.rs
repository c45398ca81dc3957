use pocket_knife::stream::{MemoryStream, SeekFrom, Stream};
use pocket_knife::{CreateError, FileTable, MemoryProducer, OpenError, ReadError, SIGNATURE};

fn producer(name: &str, data: &[u8]) -> MemoryProducer {
    MemoryProducer { name: String::from(name), data: data.to_vec() }
}

fn build(files: &[MemoryProducer]) -> (Vec<u8>, FileTable) {
    let mut stream = MemoryStream::new();
    let table = FileTable::create(&mut stream, files).expect("create failed");
    (stream.into_vec(), table)
}

#[test]
fn concrete_scenario() {
    let producers = vec![producer("a.txt", b"hello"), producer("b.bin", &[0x00, 0x01])];
    let (bytes, table) = build(&producers);

    assert_eq!(&bytes[0..20], SIGNATURE.as_bytes());
    assert_eq!(&bytes[20..28], &35u64.to_le_bytes());
    assert_eq!(&bytes[28..33], b"hello");
    assert_eq!(&bytes[33..35], &[0x00, 0x01]);

    assert_eq!(table.0.len(), 2);
    assert_eq!(table.0[0].0, "a.txt");
    assert_eq!(table.0[0].1.offset, 28);
    assert_eq!(table.0[0].1.length, 5);
    assert_eq!(table.0[1].0, "b.bin");
    assert_eq!(table.0[1].1.offset, 33);
    assert_eq!(table.0[1].1.length, 2);

    let mut stream = MemoryStream::from_vec(bytes);
    let loaded = FileTable::read(&mut stream).expect("read failed");
    assert_eq!(loaded, table);

    let a = loaded.open_file(&mut stream, String::from("a.txt")).expect("a.txt");
    assert_eq!(a, b"hello".to_vec());
    let b = loaded.open_file(&mut stream, String::from("b.bin")).expect("b.bin");
    assert_eq!(b, vec![0x00, 0x01]);
    let missing = loaded.open_file(&mut stream, String::from("c.txt"));
    assert!(matches!(missing, Err(OpenError::NoSuchFile(n)) if n == "c.txt"));
}

#[test]
fn round_trip_any_order() {
    let producers = vec![
        producer("zeta.bin", &[9, 8, 7]),
        producer("alpha.txt", b"first payload"),
        producer("mid.dat", &[]),
        producer("omega", &[0xFF; 512]),
    ];
    let (bytes, _) = build(&producers);
    let mut stream = MemoryStream::from_vec(bytes);
    let table = FileTable::read(&mut stream).expect("read failed");

    // extraction order differs from creation order
    let omega = table.open_file(&mut stream, String::from("omega")).unwrap();
    assert_eq!(omega, vec![0xFF; 512]);
    let alpha = table.open_file(&mut stream, String::from("alpha.txt")).unwrap();
    assert_eq!(alpha, b"first payload".to_vec());
    let mid = table.open_file(&mut stream, String::from("mid.dat")).unwrap();
    assert_eq!(mid, Vec::<u8>::new());
    let zeta = table.open_file(&mut stream, String::from("zeta.bin")).unwrap();
    assert_eq!(zeta, vec![9, 8, 7]);

    // the index enumerates names in sorted order
    let names: Vec<&str> = table.0.iter().map(|(n, _)| n.as_str()).collect();
    assert_eq!(names, vec!["alpha.txt", "mid.dat", "omega", "zeta.bin"]);
}

#[test]
fn non_ascii_names_round_trip() {
    let producers = vec![producer("na\u{ef}ve.txt", b"accent"), producer("\u{65e5}\u{8a18}.md", b"diary")];
    let (bytes, _) = build(&producers);
    let mut stream = MemoryStream::from_vec(bytes);
    let table = FileTable::read(&mut stream).expect("read failed");
    let v = table.open_file(&mut stream, String::from("na\u{ef}ve.txt")).unwrap();
    assert_eq!(v, b"accent".to_vec());
    let v = table.open_file(&mut stream, String::from("\u{65e5}\u{8a18}.md")).unwrap();
    assert_eq!(v, b"diary".to_vec());
}

#[test]
fn duplicate_name_rejected() {
    let producers = vec![
        producer("same.txt", b"one"),
        producer("other.txt", b"two"),
        producer("same.txt", b"three"),
    ];
    let mut stream = MemoryStream::new();
    let result = FileTable::create(&mut stream, &producers);
    assert!(matches!(result, Err(CreateError::DuplicateFilename(n)) if n == "same.txt"));
}

#[test]
fn signature_tamper_detected() {
    let producers = vec![producer("a.txt", b"hello")];
    let (bytes, _) = build(&producers);
    for i in 0..20 {
        let mut corrupted = bytes.clone();
        corrupted[i] ^= 0xFF;
        let expected_prefix = corrupted[0..20].to_vec();
        let mut stream = MemoryStream::from_vec(corrupted);
        let result = FileTable::read(&mut stream);
        match result {
            Err(ReadError::InvalidSignature(seen)) => assert_eq!(seen, expected_prefix),
            other => panic!("byte {} flipped, expected invalid signature, got {:?}", i, other),
        }
    }
}

#[test]
fn unknown_name_then_successful_lookup() {
    let producers = vec![producer("keep.txt", b"payload")];
    let (bytes, _) = build(&producers);
    let mut stream = MemoryStream::from_vec(bytes);
    let table = FileTable::read(&mut stream).expect("read failed");

    let missing = table.open_file(&mut stream, String::from("gone.txt"));
    assert!(matches!(missing, Err(OpenError::NoSuchFile(n)) if n == "gone.txt"));

    // the failed lookup must not disturb the next one
    let v = table.open_file(&mut stream, String::from("keep.txt")).unwrap();
    assert_eq!(v, b"payload".to_vec());
}

#[test]
fn empty_archive() {
    let producers: Vec<MemoryProducer> = Vec::new();
    let (bytes, table) = build(&producers);
    assert!(table.0.is_empty());
    assert_eq!(&bytes[20..28], &28u64.to_le_bytes());
    assert_eq!(bytes.len(), 29);

    let mut stream = MemoryStream::from_vec(bytes);
    let loaded = FileTable::read(&mut stream).expect("read failed");
    assert!(loaded.0.is_empty());
}

#[test]
fn zero_length_payload() {
    let producers = vec![producer("empty.bin", &[])];
    let (bytes, table) = build(&producers);
    assert_eq!(table.0[0].1.length, 0);

    let mut stream = MemoryStream::from_vec(bytes);
    let loaded = FileTable::read(&mut stream).expect("read failed");
    assert_eq!(loaded.0[0].1.length, 0);
    let v = loaded.open_file(&mut stream, String::from("empty.bin")).unwrap();
    assert!(v.is_empty());
}

#[test]
fn read_seeks_from_start() {
    let producers = vec![producer("a.txt", b"hello")];
    let (bytes, table) = build(&producers);
    let mut stream = MemoryStream::from_vec(bytes);
    // park the cursor somewhere else; read must not care
    Stream::seek(&mut stream, SeekFrom::Start(13)).unwrap();
    let loaded = FileTable::read(&mut stream).expect("read failed");
    assert_eq!(loaded, table);
}

#[test]
fn truncated_stream_fails_to_read() {
    let mut stream = MemoryStream::from_vec(vec![0x50, 0x6f]);
    assert!(matches!(FileTable::read(&mut stream), Err(ReadError::NoSignature(_))));

    let mut short = SIGNATURE.as_bytes().to_vec();
    short.push(28);
    let mut stream = MemoryStream::from_vec(short);
    assert!(matches!(FileTable::read(&mut stream), Err(ReadError::ReadFileTableAddress(_))));
}

#[test]
fn index_address_beyond_end_fails() {
    let mut bytes = SIGNATURE.as_bytes().to_vec();
    bytes.extend_from_slice(&1_000u64.to_le_bytes());
    let mut stream = MemoryStream::from_vec(bytes);
    assert!(matches!(FileTable::read(&mut stream), Err(ReadError::DeserializeFileTable(_))));
}
