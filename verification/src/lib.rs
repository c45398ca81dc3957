//! A self-contained archive container format.
//!
//! An archive packs a set of independently named byte blobs into one
//! linear byte stream: a fixed 20-byte signature, a 64-bit little-endian
//! index address, the payload bodies in producer order, and a serialized
//! name-to-entry index.  The create pipeline builds a new archive from a
//! sequence of producers; the read pipeline validates an existing archive
//! and loads its index; the lookup/extract operation fetches one named
//! payload on demand.  All three are generic over the [`stream::Stream`]
//! capability, so the same verified logic runs over disk files, memory
//! buffers, or hardware-backed transfer channels.

pub mod codec;
pub mod error;
pub mod gamepad;
pub mod interact;
pub mod layout;
pub mod stream;

pub use error::{CreateError, OpenError, ReadError};

use codec::byte_entries;
use codec::decode_table;
use codec::encode_table;
use codec::encoded_table;
use layout::archive_bytes;
use layout::build_table;
use layout::bytes_eq;
use layout::bytes_lt;
use layout::lemma_payload_region_len;
use layout::lemma_payload_step;
use layout::lemma_payload_total_mono;
use layout::lemma_payload_total_nonneg;
use layout::partial_content;
use layout::payload_region;
use layout::payload_total;
use layout::extract_outcome;
use layout::insert_sorted;
use layout::is_first_dup;
use layout::lex_lt;
use layout::lookup;
use layout::names_of;
use layout::read_outcome;
use layout::sorted_by_name;
use layout::table_address;
use layout::table_entries;
use layout::unique_names;
use layout::ExtractOutcome;
use layout::ReadOutcome;
use stream::overwrite;
use stream::SeekFrom;
use stream::Stream;
use vstd::bytes::u64_from_le_bytes;
use vstd::prelude::*;

verus! {

/// The fixed ASCII marker at offset 0 of every archive.
pub const SIGNATURE: &'static str = "Pocket Knife Archive";

/// One archived payload's place inside the stream: its absolute position
/// and its byte count.  Entries do not record their own name; the index
/// maps names to entries.
#[derive(Debug, PartialEq, Eq, Copy, Clone, Structural)]
pub struct Entry {
    pub offset: u64,
    pub length: u64,
}

/// The in-memory index of an archive: names mapped to entries, kept in
/// the names' natural sort order for deterministic enumeration.
#[derive(Debug, PartialEq, Eq, Clone)]
pub struct FileTable(pub Vec<(String, Entry)>);

impl FileTable {
    /// The records, each name as its UTF-8 bytes, in stored order.
    pub open spec fn entries(&self) -> Seq<(Seq<u8>, Entry)> {
        byte_entries(self.0@)
    }

    /// Names strictly increase through the table; uniqueness follows.
    pub open spec fn wf(&self) -> bool {
        sorted_by_name(self.entries())
    }
}

/// A named source of bytes for the create pipeline.
///
/// A producer reports its name and streams its payload into the archive.
/// The pipeline trusts the count `write_into` returns as the entry's
/// length, so an implementation must write exactly the payload its model
/// names and report exactly that count.
pub trait Archivable<A: Stream> {
    /// The producer's name, as UTF-8 bytes.  An implementation the
    /// verifier sees overrides this with its real model; the default
    /// lets a host environment implement only the executable methods.
    open spec fn name_bytes(&self) -> Seq<u8> {
        Seq::empty()
    }

    /// The bytes the producer writes.
    open spec fn payload(&self) -> Seq<u8> {
        Seq::empty()
    }

    /// True if this producer cannot fail on a stream that accepts its
    /// payload.
    open spec fn reliable(&self) -> bool {
        false
    }

    /// Report the producer's name.
    fn filename(&self) -> (r: Result<String, A::Error>)
        ensures
            r matches Ok(s) ==> vstd::utf8::encode_utf8(s@) == self.name_bytes(),
            self.reliable() ==> r is Ok,
    ;

    /// Stream the payload into the archive at its cursor and report the
    /// number of bytes written.  A failed write may leave at most a prefix
    /// of the payload written in place.
    fn write_into(&self, archive: &mut A) -> (r: Result<u64, A::Error>)
        requires
            old(archive).inv(),
        ensures
            final(archive).inv(),
            final(archive).reliable() == old(archive).reliable(),
            0 <= final(archive).cursor(),
            r matches Ok(n) ==> {
                &&& n == self.payload().len()
                &&& 0 <= old(archive).cursor()
                &&& final(archive).content() == overwrite(
                    old(archive).content(),
                    old(archive).cursor(),
                    self.payload(),
                )
                &&& final(archive).cursor() == old(archive).cursor() + n
            },
            r is Err ==> (exists|k: int|
                0 <= k <= self.payload().len() && final(archive).content() == overwrite(
                    old(archive).content(),
                    old(archive).cursor(),
                    self.payload().take(k),
                )),
            self.reliable() && old(archive).reliable() && 0 <= old(archive).cursor() && old(
                archive,
            ).cursor() + self.payload().len() <= usize::MAX ==> r is Ok,
    ;
}

/// A producer that holds its name and payload in memory.
#[derive(Debug, Clone)]
pub struct MemoryProducer {
    pub name: String,
    pub data: Vec<u8>,
}

impl<A: Stream> Archivable<A> for MemoryProducer {
    open spec fn name_bytes(&self) -> Seq<u8> {
        vstd::utf8::encode_utf8(self.name@)
    }

    open spec fn payload(&self) -> Seq<u8> {
        self.data@
    }

    open spec fn reliable(&self) -> bool {
        true
    }

    fn filename(&self) -> (r: Result<String, A::Error>) {
        Ok(self.name.clone())
    }

    fn write_into(&self, archive: &mut A) -> (r: Result<u64, A::Error>) {
        let ghost before = *archive;
        match archive.write(self.data.as_slice()) {
            Ok(n) => Ok(n as u64),
            Err(e) => {
                proof {
                    let k = choose|k: int|
                        0 <= k <= self.data@.len() && archive.content() == overwrite(
                            before.content(),
                            before.cursor(),
                            self.data@.take(k),
                        );
                    assert(archive.content() == overwrite(
                        before.content(),
                        before.cursor(),
                        Archivable::<A>::payload(self).take(k),
                    ));
                }
                Err(e)
            },
        }
    }
}

/// The (name bytes, payload bytes) pairs a producer sequence describes,
/// in producer order.
pub open spec fn items_of<A: Stream, I: Archivable<A>>(s: Seq<I>) -> Seq<(Seq<u8>, Seq<u8>)> {
    s.map(|i: int, p: I| (p.name_bytes(), p.payload()))
}

/// The first record under `name`, scanning in stored order.
#[verifier::loop_isolation(false)]
fn find_entry(table: &Vec<(String, Entry)>, name: &[u8]) -> (r: Option<Entry>)
    ensures
        r == lookup(byte_entries(table@), name@),
{
    let ghost all = byte_entries(table@);
    let mut i: usize = 0;
    proof {
        assert(all.skip(0) =~= all);
    }
    while i < table.len()
        invariant
            i <= table@.len(),
            lookup(all, name@) == lookup(all.skip(i as int), name@),
        decreases table@.len() - i,
    {
        let nb = table[i].0.as_str().as_bytes();
        proof {
            assert(all.skip(i as int)[0] == all[i as int]);
            assert(all.skip(i as int).drop_first() =~= all.skip(i + 1));
        }
        if bytes_eq(nb, name) {
            return Some(table[i].1);
        }
        i = i + 1;
    }
    proof {
        assert(all.skip(table@.len() as int) =~= Seq::<(Seq<u8>, Entry)>::empty());
    }
    None
}

/// The position where a fresh name belongs in a name-sorted table: the
/// first index whose name is above it.
#[verifier::loop_isolation(false)]
fn insert_position(table: &Vec<(String, Entry)>, name: &[u8]) -> (p: usize)
    ensures
        p <= table@.len(),
        forall|k: int| 0 <= k < p ==> !lex_lt(name@, (#[trigger] byte_entries(table@)[k]).0),
        p < table@.len() ==> lex_lt(name@, byte_entries(table@)[p as int].0),
{
    let mut i: usize = 0;
    while i < table.len()
        invariant
            i <= table@.len(),
            forall|k: int| 0 <= k < i ==> !lex_lt(name@, (#[trigger] byte_entries(table@)[k]).0),
        decreases table@.len() - i,
    {
        if bytes_lt(name, table[i].0.as_str().as_bytes()) {
            return i;
        }
        i = i + 1;
    }
    i
}

impl FileTable {
    /// Build a new archive on an empty stream from a sequence of
    /// producers.
    ///
    /// The pipeline writes the signature, reserves the index address,
    /// streams each producer's payload while building the index, appends
    /// the serialized index, and patches the index address in.  On
    /// success the stream holds exactly [`archive_bytes`] of the
    /// producers' items and the returned table is their index.  A
    /// repeated name stops the pipeline at the first repetition with
    /// [`CreateError::DuplicateFilename`] carrying that name, before any
    /// byte of the repeated item is written.  Every failure is terminal:
    /// the stream keeps what was already committed, at most a prefix of
    /// the failing write beyond it, and — short of the final patch
    /// itself — the index address is never patched in, so a partial
    /// archive must be discarded.  On a reliable stream with reliable
    /// producers, unique names and a fitting total size, the pipeline
    /// cannot fail; with a repeated name it fails with exactly the
    /// duplicate error.
    #[verifier::loop_isolation(false)]
    pub fn create<A: Stream, I: Archivable<A>>(archive: &mut A, input_files: &[I]) -> (r: Result<
        FileTable,
        CreateError<A::Error>,
    >)
        requires
            old(archive).inv(),
            old(archive).content().len() == 0,
            old(archive).cursor() == 0,
        ensures
            final(archive).inv(),
            final(archive).reliable() == old(archive).reliable(),
            r matches Ok(t) ==> ({
                let items = items_of::<A, I>(input_files@);
                &&& unique_names(names_of(items))
                &&& table_address(items) <= u64::MAX
                &&& final(archive).content() == archive_bytes(items)
                &&& t.entries() == table_entries(items)
                &&& t.wf()
            }),
            r matches Err(CreateError::DuplicateFilename(n)) ==> (exists|j: int|
                is_first_dup(names_of(items_of::<A, I>(input_files@)), j)
                    && vstd::utf8::encode_utf8(n@) == names_of(items_of::<A, I>(input_files@))[j]
                    && final(archive).content() == partial_content(
                    items_of::<A, I>(input_files@),
                    j,
                )),
            !unique_names(names_of(items_of::<A, I>(input_files@))) ==> r is Err,
            ({
                let items = items_of::<A, I>(input_files@);
                old(archive).reliable() && (forall|k: int|
                    0 <= k < input_files@.len() ==> (#[trigger] input_files@[k]).reliable())
                    && unique_names(names_of(items)) && table_address(items) + encoded_table(
                    table_entries(items),
                ).len() <= usize::MAX ==> r is Ok
            }),
            // a repeated name forces the duplicate error when nothing else
            // can fail
            ({
                let items = items_of::<A, I>(input_files@);
                old(archive).reliable() && (forall|k: int|
                    0 <= k < input_files@.len() ==> (#[trigger] input_files@[k]).reliable())
                    && !unique_names(names_of(items)) && table_address(items) + encoded_table(
                    table_entries(items),
                ).len() <= usize::MAX ==> (r matches Err(CreateError::DuplicateFilename(_)))
            }),
            // failure is terminal: what was already written stays as it
            // stands, step by step, with no rollback
            r matches Err(CreateError::SignatureWrite(_)) ==> (exists|k: int|
                0 <= k <= 20 && final(archive).content() == layout::spec_signature().take(k)),
            r matches Err(CreateError::SkipAddress(_)) ==> final(archive).content()
                == layout::spec_signature(),
            (r matches Err(e) && (e is InvalidFilename || e is GetOffset)) ==> (exists|j: int|
                0 <= j < input_files@.len() && final(archive).content() == partial_content(
                    items_of::<A, I>(input_files@),
                    j,
                )),
            r matches Err(CreateError::AddFile(n, _)) ==> (exists|j: int, k: int|
                #![trigger items_of::<A, I>(input_files@)[j].1.take(k)]
                {
                    &&& 0 <= j < input_files@.len()
                    &&& 0 <= k <= items_of::<A, I>(input_files@)[j].1.len()
                    &&& vstd::utf8::encode_utf8(n@) == names_of(items_of::<A, I>(input_files@))[j]
                    &&& final(archive).content() == overwrite(
                        partial_content(items_of::<A, I>(input_files@), j),
                        28 + payload_total(items_of::<A, I>(input_files@).take(j)),
                        items_of::<A, I>(input_files@)[j].1.take(k),
                    )
                }),
            r matches Err(CreateError::GetFileTableAddress(_)) ==> final(archive).content()
                == partial_content(items_of::<A, I>(input_files@), input_files@.len() as int),
            r matches Err(CreateError::SerializeFileTable(_)) ==> (exists|k: int|
                #![trigger encoded_table(table_entries(items_of::<A, I>(input_files@))).take(k)]
                {
                    &&& 0 <= k <= encoded_table(table_entries(items_of::<A, I>(input_files@))).len()
                    &&& final(archive).content() == overwrite(
                        partial_content(items_of::<A, I>(input_files@), input_files@.len() as int),
                        table_address(items_of::<A, I>(input_files@)),
                        encoded_table(table_entries(items_of::<A, I>(input_files@))).take(k),
                    )
                }),
            r matches Err(CreateError::SeekToFileTableAddress(_)) ==> final(archive).content()
                == layout::unpatched_archive(items_of::<A, I>(input_files@)),
            r matches Err(CreateError::WriteFileTableAddress(_)) ==> (exists|k: int|
                #![trigger
                    vstd::bytes::spec_u64_to_le_bytes(
                        table_address(items_of::<A, I>(input_files@)) as u64,
                    ).take(k)
                ]
                0 <= k <= 8 && final(archive).content() == overwrite(
                    layout::unpatched_archive(items_of::<A, I>(input_files@)),
                    20,
                    vstd::bytes::spec_u64_to_le_bytes(
                        table_address(items_of::<A, I>(input_files@)) as u64,
                    ).take(k),
                )),
            // short of the final patch itself, the index address is never
            // patched on failure: a partial archive must be discarded
            (r is Err && !(r matches Err(CreateError::WriteFileTableAddress(_))))
                ==> layout::address_unpatched(final(archive).content()),
    {
        let ghost items = items_of::<A, I>(input_files@);
        let ghost names = names_of(items);
        let ghost rel0 = old(archive).reliable();
        proof {
            lemma_payload_total_nonneg(items);
            layout::lemma_signature_text();
        }
        match archive.write(SIGNATURE.as_bytes()) {
            Ok(_) => {},
            Err(e) => {
                proof {
                    let sig = layout::spec_signature();
                    let k = choose|k: int|
                        0 <= k <= sig.len() && archive.content() == overwrite(
                            old(archive).content(),
                            old(archive).cursor(),
                            sig.take(k),
                        );
                    assert(archive.content() =~= sig.take(k));
                }
                return Err(CreateError::SignatureWrite(e));
            },
        }
        proof {
            assert(archive.content() =~= layout::spec_signature());
        }
        match archive.seek(SeekFrom::Current(8)) {
            Ok(_) => {},
            Err(e) => { return Err(CreateError::SkipAddress(e)) },
        }
        let mut table: Vec<(String, Entry)> = Vec::new();
        let mut i: usize = 0;
        proof {
            assert(items.take(0) =~= Seq::<(Seq<u8>, Seq<u8>)>::empty());
            assert(names.take(0) =~= Seq::<Seq<u8>>::empty());
            assert(byte_entries(table@) =~= Seq::<(Seq<u8>, Entry)>::empty());
            assert(items.skip(0) =~= items);
            assert(partial_content(items, 0) == layout::spec_signature());
        }
        while i < input_files.len()
            invariant
                i <= input_files@.len(),
                archive.inv(),
                archive.reliable() == rel0,
                archive.content() == partial_content(items, i as int),
                archive.cursor() == 28 + payload_total(items.take(i as int)),
                sorted_by_name(byte_entries(table@)),
                build_table(
                    items.skip(i as int),
                    byte_entries(table@),
                    28 + payload_total(items.take(i as int)),
                ) == table_entries(items),
                forall|m: Seq<u8>| (#[trigger] lookup(byte_entries(table@), m)) is Some
                    <==> names.take(i as int).contains(m),
                unique_names(names.take(i as int)),
            decreases input_files@.len() - i,
        {
            let ghost idx = i as int;
            let ghost tb = byte_entries(table@);
            proof {
                assert(items[idx] == (input_files@[idx].name_bytes(), input_files@[idx].payload()));
                assert(names[idx] == items[idx].0);
                lemma_payload_total_mono(items, idx);
                lemma_payload_step(items, idx);
                lemma_payload_total_mono(items, idx + 1);
            }
            let input_file = &input_files[i];
            let filename = match input_file.filename() {
                Ok(s) => s,
                Err(e) => {
                    proof {
                        layout::lemma_unpatched_partial(items, idx);
                        assert(archive.content() == partial_content(items, idx));
                    }
                    return Err(CreateError::InvalidFilename(e));
                },
            };
            let ghost fnv = filename@;
            proof {
                assert(vstd::utf8::encode_utf8(fnv) == names[idx]);
            }
            let dup = find_entry(&table, filename.as_str().as_bytes());
            if dup.is_some() {
                proof {
                    layout::lemma_lookup_exists(tb, names[idx]);
                    let k = choose|k: int| 0 <= k < tb.len() && (#[trigger] tb[k]).0 == names[idx];
                    assert(names.take(idx).contains(names[idx]));
                    let k2 = choose|k2: int|
                        0 <= k2 < idx && #[trigger] names.take(idx)[k2] == names[idx];
                    assert(names[k2] == names[idx]);
                    assert(is_first_dup(names, idx));
                    layout::lemma_unpatched_partial(items, idx);
                    assert(archive.content() == partial_content(items, idx));
                }
                return Err(CreateError::DuplicateFilename(filename));
            }
            proof {
                layout::lemma_lookup_exists(tb, names[idx]);
                assert(forall|k: int| 0 <= k < tb.len() ==> (#[trigger] tb[k]).0 != names[idx]);
            }
            let offset = match archive.stream_position() {
                Ok(p) => p,
                Err(e) => {
                    proof {
                        layout::lemma_unpatched_partial(items, idx);
                        assert(archive.content() == partial_content(items, idx));
                    }
                    return Err(CreateError::GetOffset(e));
                },
            };
            let length = match input_file.write_into(archive) {
                Ok(n) => n,
                Err(e) => {
                    proof {
                        let pl = input_files@[idx].payload();
                        let k = choose|k: int|
                            0 <= k <= pl.len() && archive.content() == overwrite(
                                partial_content(items, idx),
                                28 + payload_total(items.take(idx)),
                                pl.take(k),
                            );
                        assert(items[idx].1 == pl);
                        assert(archive.content() == overwrite(
                            partial_content(items, idx),
                            28 + payload_total(items.take(idx)),
                            items[idx].1.take(k),
                        ));
                        layout::lemma_unpatched_partial(items, idx);
                        layout::lemma_unpatched_overwrite(
                            partial_content(items, idx),
                            28 + payload_total(items.take(idx)),
                            items[idx].1.take(k),
                        );
                    }
                    return Err(CreateError::AddFile(filename, e));
                },
            };
            let entry = Entry { offset, length };
            let pos = insert_position(&table, filename.as_str().as_bytes());
            let ghost prev_table = table@;
            table.insert(pos, (filename, entry));
            proof {
                // the stream now holds the next partial content
                assert(archive.content() =~= partial_content(items, idx + 1)) by {
                    lemma_payload_region_len(items.take(idx));
                    lemma_payload_region_len(items.take(idx + 1));
                    if items[idx].1.len() == 0 {
                        assert(items.take(idx + 1) =~= items.take(idx).push(items[idx]));
                        assert(payload_region(items.take(idx + 1)) =~= payload_region(
                            items.take(idx),
                        ));
                    }
                }
                // the in-memory table gained exactly the new record
                assert(table@ == prev_table.insert(pos as int, table@[pos as int]));
                assert(table@[pos as int].0@ == fnv);
                assert(table@[pos as int].1 == entry);
                assert(byte_entries(table@) =~= tb.take(pos as int) + seq![(names[idx], entry)]
                    + tb.skip(pos as int)) by {
                    assert(forall|k: int|
                        0 <= k < pos ==> #[trigger] table@[k] == prev_table[k]);
                    assert(forall|k: int|
                        pos < k < table@.len() ==> #[trigger] table@[k] == prev_table[k - 1]);
                }
                layout::lemma_insert_sorted_at(tb, names[idx], entry, pos as int);
                assert(byte_entries(table@) == insert_sorted(tb, names[idx], entry));
                layout::lemma_insert_sorted_sorted(tb, names[idx], entry);
                // lookups: the new name and all the old ones
                assert(names.take(idx + 1) =~= names.take(idx).push(names[idx]));
                assert forall|m: Seq<u8>| (#[trigger] lookup(byte_entries(table@), m)) is Some
                    <==> names.take(idx + 1).contains(m) by {
                    layout::lemma_insert_sorted_lookup(tb, names[idx], entry, m);
                    if m == names[idx] {
                        assert(names.take(idx + 1)[idx] == names[idx]);
                    } else {
                        if names.take(idx + 1).contains(m) {
                            let k = choose|k: int|
                                0 <= k < idx + 1 && #[trigger] names.take(idx + 1)[k] == m;
                            assert(names.take(idx)[k] == m);
                        } else {
                            if names.take(idx).contains(m) {
                                let k = choose|k: int|
                                    0 <= k < idx && #[trigger] names.take(idx)[k] == m;
                                assert(names.take(idx + 1)[k] == m);
                            }
                        }
                    }
                }
                // names stay unique
                assert(unique_names(names.take(idx + 1))) by {
                    assert(forall|k: int|
                        0 <= k < idx ==> #[trigger] names.take(idx + 1)[k] == names.take(idx)[k]);
                    assert(!names.take(idx).contains(names[idx]));
                    assert forall|x: int, y: int|
                        0 <= x < y < idx + 1 implies #[trigger] names.take(idx + 1)[x]
                        != #[trigger] names.take(idx + 1)[y] by {
                        if y == idx {
                            if names.take(idx + 1)[x] == names[idx] {
                                assert(names.take(idx)[x] == names[idx]);
                            }
                        }
                    }
                }
                // the fold over the remaining producers is unchanged
                assert(items.skip(idx).drop_first() =~= items.skip(idx + 1));
                assert(items.skip(idx)[0] == items[idx]);
                assert(build_table(
                    items.skip(idx + 1),
                    byte_entries(table@),
                    28 + payload_total(items.take(idx + 1)),
                ) == table_entries(items));
            }
            i = i + 1;
        }
        proof {
            assert(items.take(i as int) =~= items);
            assert(names.take(i as int) =~= names);
            assert(items.skip(i as int) =~= Seq::<(Seq<u8>, Seq<u8>)>::empty());
            assert(byte_entries(table@) == table_entries(items));
        }
        let table_addr = match archive.stream_position() {
            Ok(p) => p,
            Err(e) => {
                proof {
                    layout::lemma_unpatched_partial(items, input_files@.len() as int);
                }
                return Err(CreateError::GetFileTableAddress(e));
            },
        };
        proof {
            assert(table_addr == table_address(items));
        }
        let encoded = encode_table(&table);
        let ghost before_table = archive.content();
        match archive.write(encoded.as_slice()) {
            Ok(_) => {},
            Err(e) => {
                proof {
                    let enc = encoded_table(table_entries(items));
                    let k = choose|k: int|
                        0 <= k <= enc.len() && archive.content() == overwrite(
                            before_table,
                            table_address(items),
                            enc.take(k),
                        );
                    layout::lemma_unpatched_partial(items, input_files@.len() as int);
                    layout::lemma_unpatched_overwrite(
                        partial_content(items, input_files@.len() as int),
                        table_address(items),
                        enc.take(k),
                    );
                }
                return Err(CreateError::SerializeFileTable(e));
            },
        }
        proof {
            lemma_payload_region_len(items);
            assert(encoded@.len() >= 1);
            assert(archive.content() =~= layout::unpatched_archive(items));
        }
        match archive.seek(SeekFrom::Start(20)) {
            Ok(_) => {},
            Err(e) => {
                proof {
                    layout::lemma_unpatched_archive(items);
                }
                return Err(CreateError::SeekToFileTableAddress(e));
            },
        }
        let addr_bytes = vstd::bytes::u64_to_le_bytes(table_addr);
        match archive.write(addr_bytes.as_slice()) {
            Ok(_) => {},
            Err(e) => {
                proof {
                    vstd::bytes::lemma_auto_spec_u64_to_from_le_bytes();
                    let le = vstd::bytes::spec_u64_to_le_bytes(table_address(items) as u64);
                    let k = choose|k: int|
                        0 <= k <= le.len() && archive.content() == overwrite(
                            layout::unpatched_archive(items),
                            20,
                            le.take(k),
                        );
                }
                return Err(CreateError::WriteFileTableAddress(e));
            },
        }
        proof {
            vstd::bytes::lemma_auto_spec_u64_to_from_le_bytes();
            assert(archive.content() =~= archive_bytes(items));
        }
        Ok(FileTable(table))
    }

    /// Validate an archive's signature, read its index address, and load
    /// the index.
    ///
    /// The stream may be positioned anywhere: the pipeline seeks to the
    /// start itself.  The outcome follows [`read_outcome`] on the stream's
    /// content: a well-formed archive yields its index; each malformed
    /// shape yields its own failure variant, the invalid-signature case
    /// carrying the 20 bytes actually read.  On a reliable stream the
    /// correspondence is exact.
    pub fn read<A: Stream>(archive: &mut A) -> (r: Result<FileTable, ReadError<A::Error>>)
        requires
            old(archive).inv(),
        ensures
            final(archive).inv(),
            final(archive).reliable() == old(archive).reliable(),
            final(archive).content() == old(archive).content(),
            r matches Ok(t) ==> read_outcome(old(archive).content()) == ReadOutcome::Table(
                t.entries(),
            ),
            r matches Err(ReadError::InvalidSignature(s)) ==> read_outcome(
                old(archive).content(),
            ) == ReadOutcome::BadSignature(s@),
            old(archive).reliable() && old(archive).content().len() <= usize::MAX ==> {
                let c = old(archive).content();
                &&& (read_outcome(c) matches ReadOutcome::Table(items) ==> (r matches Ok(t)
                    && t.entries() == items))
                &&& (read_outcome(c) == ReadOutcome::TooShortSignature ==> (r matches Err(e)
                    && e is NoSignature))
                &&& (read_outcome(c) matches ReadOutcome::BadSignature(s) ==> (r matches Err(e)
                    && (e matches ReadError::InvalidSignature(v) && v@ == s)))
                &&& (read_outcome(c) == ReadOutcome::TooShortAddress ==> (r matches Err(e)
                    && e is ReadFileTableAddress))
                &&& (read_outcome(c) == ReadOutcome::BadTable ==> (r matches Err(e) && (
                e is SeekToFileTable || e is DeserializeFileTable)))
            },
    {
        let ghost c = old(archive).content();
        match archive.seek(SeekFrom::Start(0)) {
            Ok(_) => {},
            Err(e) => { return Err(ReadError::SeekToFileTable(e)) },
        }
        let sig_read = match archive.read_exact(20) {
            Ok(v) => v,
            Err(e) => { return Err(ReadError::NoSignature(e)) },
        };
        proof {
            layout::lemma_signature_text();
        }
        if !bytes_eq(sig_read.as_slice(), SIGNATURE.as_bytes()) {
            proof {
                assert(sig_read@ == c.subrange(0, 20));
            }
            return Err(ReadError::InvalidSignature(sig_read));
        }
        proof {
            assert(c.subrange(0, 20) == layout::spec_signature());
        }
        let addr_bytes = match archive.read_exact(8) {
            Ok(v) => v,
            Err(e) => { return Err(ReadError::ReadFileTableAddress(e)) },
        };
        let table_addr = u64_from_le_bytes(addr_bytes.as_slice());
        proof {
            assert(addr_bytes@ == c.subrange(20, 28));
        }
        match archive.seek(SeekFrom::Start(table_addr)) {
            Ok(_) => {},
            Err(e) => { return Err(ReadError::SeekToFileTable(e)) },
        }
        let entries = match decode_table(archive) {
            Ok(v) => v,
            Err(e) => { return Err(ReadError::DeserializeFileTable(e)) },
        };
        Ok(FileTable(entries))
    }

    /// Fetch one named payload's bytes.
    ///
    /// An absent name fails with [`OpenError::NoSuchFile`] carrying the
    /// requested name, and leaves the stream untouched.  A zero-length
    /// entry yields an empty buffer without any read.  Otherwise the
    /// stream is sought to the entry's offset and exactly its length is
    /// read; every call re-reads the stream, so the result reflects the
    /// stream's current content.
    pub fn open_file<A: Stream>(&self, archive: &mut A, filename: String) -> (r: Result<
        Vec<u8>,
        OpenError<A::Error>,
    >)
        requires
            old(archive).inv(),
        ensures
            final(archive).inv(),
            final(archive).reliable() == old(archive).reliable(),
            final(archive).content() == old(archive).content(),
            r matches Ok(v) ==> extract_outcome(
                self.entries(),
                old(archive).content(),
                vstd::utf8::encode_utf8(filename@),
            ) == ExtractOutcome::Payload(v@),
            r matches Err(OpenError::NoSuchFile(n)) ==> {
                &&& n == filename
                &&& lookup(self.entries(), vstd::utf8::encode_utf8(filename@)) is None
                &&& *final(archive) == *old(archive)
            },
            lookup(self.entries(), vstd::utf8::encode_utf8(filename@)) is None <==> (r matches Err(
                e,
            ) && e is NoSuchFile),
            old(archive).reliable() && old(archive).content().len() <= usize::MAX
                && (extract_outcome(
                self.entries(),
                old(archive).content(),
                vstd::utf8::encode_utf8(filename@),
            ) matches ExtractOutcome::Payload(_)) ==> r is Ok,
            // a zero-length entry succeeds unconditionally: the empty
            // buffer comes back without any stream operation
            (lookup(self.entries(), vstd::utf8::encode_utf8(filename@)) matches Some(e)
                && e.length == 0) ==> (r matches Ok(v) && v@ == Seq::<u8>::empty()
                && *final(archive) == *old(archive)),
            // an entry whose extent leaves a reliable stream fails as a
            // short read, not as a seek failure
            old(archive).reliable() && old(archive).content().len() <= usize::MAX
                && (extract_outcome(
                self.entries(),
                old(archive).content(),
                vstd::utf8::encode_utf8(filename@),
            ) is OutOfRange) && (lookup(self.entries(), vstd::utf8::encode_utf8(filename@))
                matches Some(e) && e.offset <= usize::MAX) ==> (r matches Err(err)
                && err is ReadFile),
    {
        let entry_opt = find_entry(&self.0, filename.as_str().as_bytes());
        let entry = match entry_opt {
            Some(e) => e,
            None => { return Err(OpenError::NoSuchFile(filename)) },
        };
        if entry.length == 0 {
            let empty: Vec<u8> = Vec::new();
            return Ok(empty);
        }
        if entry.length > usize::MAX as u64 {
            // A length beyond the address space cannot be read in full.
            return Err(OpenError::ReadFile(stream::ReadExactError::UnexpectedEof));
        }
        match archive.seek(SeekFrom::Start(entry.offset)) {
            Ok(_) => {},
            Err(e) => { return Err(OpenError::SeekToStart(e)) },
        }
        let buffer = match archive.read_exact(entry.length as usize) {
            Ok(v) => v,
            Err(e) => { return Err(OpenError::ReadFile(e)) },
        };
        Ok(buffer)
    }
}

} // verus!
