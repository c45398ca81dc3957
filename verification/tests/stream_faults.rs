//! Each pipeline failure variant surfaces on the step that fails.  A
//! wrapper stream that fails after a set number of operations walks the
//! pipelines through their failure taxonomies variant by variant.

use pocket_knife::stream::{MemoryStream, ReadExactError, SeekFrom, Stream};
use pocket_knife::{
    Archivable, CreateError, Entry, FileTable, MemoryProducer, OpenError, ReadError,
};

#[derive(Debug, PartialEq, Eq)]
struct Fault;

/// A stream that behaves like a memory buffer until its budget of
/// successful operations runs out, then fails every operation.
struct FlakyStream {
    inner: MemoryStream,
    budget: u32,
}

impl FlakyStream {
    fn new(inner: MemoryStream, budget: u32) -> FlakyStream {
        FlakyStream { inner, budget }
    }

    fn tick(&mut self) -> bool {
        if self.budget == 0 {
            false
        } else {
            self.budget -= 1;
            true
        }
    }
}

impl Stream for FlakyStream {
    type Error = Fault;

    fn read_exact(&mut self, n: usize) -> Result<Vec<u8>, ReadExactError<Fault>> {
        if !self.tick() {
            return Err(ReadExactError::Other(Fault));
        }
        self.inner.read_exact(n).map_err(|e| match e {
            ReadExactError::UnexpectedEof => ReadExactError::UnexpectedEof,
            ReadExactError::Other(_) => ReadExactError::Other(Fault),
        })
    }

    fn write(&mut self, buf: &[u8]) -> Result<usize, Fault> {
        if !self.tick() {
            return Err(Fault);
        }
        self.inner.write(buf).map_err(|_| Fault)
    }

    fn seek(&mut self, pos: SeekFrom) -> Result<u64, Fault> {
        if !self.tick() {
            return Err(Fault);
        }
        self.inner.seek(pos).map_err(|_| Fault)
    }

    fn stream_position(&mut self) -> Result<u64, Fault> {
        if !self.tick() {
            return Err(Fault);
        }
        self.inner.stream_position().map_err(|_| Fault)
    }
}

/// A producer that cannot even report its name.
struct NamelessProducer;

impl Archivable<FlakyStream> for NamelessProducer {
    fn filename(&self) -> Result<String, Fault> {
        Err(Fault)
    }

    fn write_into(&self, _archive: &mut FlakyStream) -> Result<u64, Fault> {
        Err(Fault)
    }
}

/// A memory producer lifted over the flaky stream.
struct FlakyProducer(MemoryProducer);

impl Archivable<FlakyStream> for FlakyProducer {
    fn filename(&self) -> Result<String, Fault> {
        Ok(self.0.name.clone())
    }

    fn write_into(&self, archive: &mut FlakyStream) -> Result<u64, Fault> {
        archive.write(self.0.data.as_slice()).map(|n| n as u64)
    }
}

fn one_producer() -> Vec<FlakyProducer> {
    vec![FlakyProducer(MemoryProducer { name: String::from("a.txt"), data: b"hello".to_vec() })]
}

fn create_with_budget(budget: u32) -> Result<FileTable, CreateError<Fault>> {
    let mut stream = FlakyStream::new(MemoryStream::new(), budget);
    FileTable::create(&mut stream, &one_producer())
}

#[test]
fn create_failure_taxonomy() {
    // the create pipeline touches the stream eight times for one producer
    assert!(matches!(create_with_budget(0), Err(CreateError::SignatureWrite(Fault))));
    assert!(matches!(create_with_budget(1), Err(CreateError::SkipAddress(Fault))));
    assert!(matches!(create_with_budget(2), Err(CreateError::GetOffset(Fault))));
    assert!(matches!(create_with_budget(3), Err(CreateError::AddFile(n, Fault)) if n == "a.txt"));
    assert!(matches!(create_with_budget(4), Err(CreateError::GetFileTableAddress(Fault))));
    assert!(matches!(create_with_budget(5), Err(CreateError::SerializeFileTable(Fault))));
    assert!(matches!(create_with_budget(6), Err(CreateError::SeekToFileTableAddress(Fault))));
    assert!(matches!(create_with_budget(7), Err(CreateError::WriteFileTableAddress(Fault))));
    assert!(create_with_budget(8).is_ok());
}

#[test]
fn create_invalid_filename() {
    let mut stream = FlakyStream::new(MemoryStream::new(), u32::MAX);
    let producers = vec![NamelessProducer];
    let result = FileTable::create(&mut stream, &producers);
    assert!(matches!(result, Err(CreateError::InvalidFilename(Fault))));
}

fn valid_archive_bytes() -> Vec<u8> {
    let mut stream = MemoryStream::new();
    let producers =
        vec![MemoryProducer { name: String::from("a.txt"), data: b"hello".to_vec() }];
    FileTable::create(&mut stream, &producers).expect("create failed");
    stream.into_vec()
}

fn read_with_budget(budget: u32) -> Result<FileTable, ReadError<Fault>> {
    let mut stream = FlakyStream::new(MemoryStream::from_vec(valid_archive_bytes()), budget);
    FileTable::read(&mut stream)
}

#[test]
fn read_failure_taxonomy() {
    // the pipeline's first operation is its own seek to the start
    assert!(matches!(read_with_budget(0), Err(ReadError::SeekToFileTable(Fault))));
    assert!(matches!(read_with_budget(1), Err(ReadError::NoSignature(ReadExactError::Other(Fault)))));
    assert!(matches!(read_with_budget(2), Err(ReadError::ReadFileTableAddress(_))));
    assert!(matches!(read_with_budget(3), Err(ReadError::SeekToFileTable(Fault))));
    assert!(matches!(read_with_budget(4), Err(ReadError::DeserializeFileTable(_))));
    assert!(read_with_budget(16).is_ok());
}

#[test]
fn open_failure_taxonomy() {
    let table = FileTable(vec![(String::from("a.txt"), Entry { offset: 28, length: 5 })]);

    let mut stream = FlakyStream::new(MemoryStream::from_vec(valid_archive_bytes()), 0);
    let result = table.open_file(&mut stream, String::from("a.txt"));
    assert!(matches!(result, Err(OpenError::SeekToStart(Fault))));

    let mut stream = FlakyStream::new(MemoryStream::from_vec(valid_archive_bytes()), 1);
    let result = table.open_file(&mut stream, String::from("a.txt"));
    assert!(matches!(result, Err(OpenError::ReadFile(ReadExactError::Other(Fault)))));

    // a name miss costs no stream operation at all
    let mut stream = FlakyStream::new(MemoryStream::from_vec(valid_archive_bytes()), 0);
    let result = table.open_file(&mut stream, String::from("missing"));
    assert!(matches!(result, Err(OpenError::NoSuchFile(n)) if n == "missing"));
}

#[test]
fn entry_beyond_end_fails_short_read() {
    // an index record whose extent leaves the stream: checked lazily, on
    // extraction alone
    let table = FileTable(vec![(String::from("big"), Entry { offset: 28, length: 9_999 })]);
    let mut stream = MemoryStream::from_vec(valid_archive_bytes());
    let result = table.open_file(&mut stream, String::from("big"));
    assert!(matches!(result, Err(OpenError::ReadFile(ReadExactError::UnexpectedEof))));
}
