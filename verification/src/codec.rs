//! The fixed, versionless binary encoding of the index table.
//!
//! The serialized index is a count followed by one record per archived
//! name, each record being the name (length-prefixed UTF-8 bytes) followed
//! by the entry's offset and length.  Every integer is written as a
//! variable-width little-endian quantity: values up to 250 occupy a single
//! byte, larger values a tag byte (251, 252 or 253) followed by the value
//! as a little-endian 16-, 32- or 64-bit word.  Tags 254 and 255 are not
//! assigned and are rejected by the parser.
//!
//! The encoder and the parser are both verified against the spec-level
//! `encoded_*` and `parsed_*` functions, and the `lemma_parsed_*` family
//! proves that parsing inverts encoding wherever the encoded form stands
//! inside a larger byte sequence.

use crate::stream::{ReadExactError, Stream};
use crate::Entry;
use vstd::bytes::*;
use vstd::prelude::*;

verus! {

/// Largest integer that is encoded as its own single byte.
pub const SINGLE_BYTE_MAX: u8 = 250;

/// Tag announcing a 16-bit little-endian value.
pub const TAG_U16: u8 = 251;

/// Tag announcing a 32-bit little-endian value.
pub const TAG_U32: u8 = 252;

/// Tag announcing a 64-bit little-endian value.
pub const TAG_U64: u8 = 253;

/// The bytes of one variable-width integer.
pub open spec fn encoded_varint(v: u64) -> Seq<u8> {
    if v <= SINGLE_BYTE_MAX {
        seq![v as u8]
    } else if v <= u16::MAX {
        seq![TAG_U16] + spec_u16_to_le_bytes(v as u16)
    } else if v <= u32::MAX {
        seq![TAG_U32] + spec_u32_to_le_bytes(v as u32)
    } else {
        seq![TAG_U64] + spec_u64_to_le_bytes(v)
    }
}

/// The bytes of a length-prefixed byte string.
pub open spec fn encoded_bytes(b: Seq<u8>) -> Seq<u8>
    recommends
        b.len() <= u64::MAX,
{
    encoded_varint(b.len() as u64) + b
}

/// The bytes of one index record: name, offset, length.
pub open spec fn encoded_entry(name: Seq<u8>, e: Entry) -> Seq<u8>
    recommends
        name.len() <= u64::MAX,
{
    encoded_bytes(name) + encoded_varint(e.offset) + encoded_varint(e.length)
}

/// The bytes of a sequence of index records, in order.
pub open spec fn encoded_entries(items: Seq<(Seq<u8>, Entry)>) -> Seq<u8>
    decreases items.len(),
{
    if items.len() == 0 {
        Seq::empty()
    } else {
        encoded_entry(items[0].0, items[0].1) + encoded_entries(items.drop_first())
    }
}

/// The bytes of the whole serialized index: count, then records.
pub open spec fn encoded_table(items: Seq<(Seq<u8>, Entry)>) -> Seq<u8>
    recommends
        items.len() <= u64::MAX,
{
    encoded_varint(items.len() as u64) + encoded_entries(items)
}

/// Parse one variable-width integer at `pos`; `Some` holds the value and
/// the position just past it.
pub open spec fn parsed_varint(b: Seq<u8>, pos: int) -> Option<(u64, int)> {
    if 0 <= pos < b.len() {
        let tag = b[pos];
        if tag <= SINGLE_BYTE_MAX {
            Some(((tag as u64), pos + 1))
        } else if tag == TAG_U16 {
            if pos + 3 <= b.len() {
                Some(((spec_u16_from_le_bytes(b.subrange(pos + 1, pos + 3)) as u64), pos + 3))
            } else {
                None
            }
        } else if tag == TAG_U32 {
            if pos + 5 <= b.len() {
                Some(((spec_u32_from_le_bytes(b.subrange(pos + 1, pos + 5)) as u64), pos + 5))
            } else {
                None
            }
        } else if tag == TAG_U64 {
            if pos + 9 <= b.len() {
                Some((spec_u64_from_le_bytes(b.subrange(pos + 1, pos + 9)), pos + 9))
            } else {
                None
            }
        } else {
            None
        }
    } else {
        None
    }
}

/// Parse one length-prefixed byte string at `pos`.
pub open spec fn parsed_bytes(b: Seq<u8>, pos: int) -> Option<(Seq<u8>, int)> {
    match parsed_varint(b, pos) {
        Some((n, p)) => if p + n <= b.len() {
            Some((b.subrange(p, p + n), p + n))
        } else {
            None
        },
        None => None,
    }
}

/// Parse one index record at `pos`.  A record whose name bytes are not
/// valid UTF-8 is rejected: the in-memory index keys are text.
pub open spec fn parsed_entry(b: Seq<u8>, pos: int) -> Option<((Seq<u8>, Entry), int)> {
    match parsed_bytes(b, pos) {
        Some((name, p1)) => if vstd::utf8::valid_utf8(name) {
            match parsed_varint(b, p1) {
                Some((offset, p2)) => match parsed_varint(b, p2) {
                    Some((length, p3)) => Some(((name, Entry { offset, length }), p3)),
                    None => None,
                },
                None => None,
            }
        } else {
            None
        },
        None => None,
    }
}

/// Parse `count` index records starting at `pos`.
pub open spec fn parsed_entries(b: Seq<u8>, pos: int, count: nat) -> Option<
    (Seq<(Seq<u8>, Entry)>, int),
>
    decreases count,
{
    if count == 0 {
        Some((Seq::empty(), pos))
    } else {
        match parsed_entry(b, pos) {
            Some((kv, p)) => match parsed_entries(b, p, (count - 1) as nat) {
                Some((rest, end)) => Some((seq![kv] + rest, end)),
                None => None,
            },
            None => None,
        }
    }
}

/// Parse a whole serialized index at `pos`.
pub open spec fn parsed_table(b: Seq<u8>, pos: int) -> Option<(Seq<(Seq<u8>, Entry)>, int)> {
    match parsed_varint(b, pos) {
        Some((count, p)) => parsed_entries(b, p, count as nat),
        None => None,
    }
}

/// Inside `b`, the window at `pos` holding `enc` slices the same way `enc`
/// itself does.
proof fn lemma_subrange_within(b: Seq<u8>, pos: int, enc: Seq<u8>, lo: int, hi: int)
    requires
        0 <= pos,
        pos + enc.len() <= b.len(),
        b.subrange(pos, pos + enc.len()) == enc,
        0 <= lo <= hi <= enc.len(),
    ensures
        b.subrange(pos + lo, pos + hi) == enc.subrange(lo, hi),
{
    assert forall|k: int| 0 <= k < hi - lo implies b.subrange(pos + lo, pos + hi)[k]
        == enc.subrange(lo, hi)[k] by {
        assert(b.subrange(pos, pos + enc.len())[lo + k] == enc[lo + k]);
    }
    assert(b.subrange(pos + lo, pos + hi) =~= enc.subrange(lo, hi));
}

/// Parsing inverts encoding for one integer, wherever the encoded form
/// stands inside a larger sequence.
pub proof fn lemma_parsed_varint(b: Seq<u8>, pos: int, v: u64)
    requires
        0 <= pos,
        pos + encoded_varint(v).len() <= b.len(),
        b.subrange(pos, pos + encoded_varint(v).len()) == encoded_varint(v),
    ensures
        parsed_varint(b, pos) == Some((v, pos + encoded_varint(v).len())),
{
    let e = encoded_varint(v);
    assert(b[pos] == e[0]) by {
        assert(b.subrange(pos, pos + e.len())[0] == e[0]);
    }
    if v <= SINGLE_BYTE_MAX {
        assert(e[0] == v as u8);
    } else if v <= u16::MAX {
        lemma_auto_spec_u16_to_from_le_bytes();
        lemma_subrange_within(b, pos, e, 1, 3);
        assert(e.subrange(1, 3) =~= spec_u16_to_le_bytes(v as u16));
    } else if v <= u32::MAX {
        lemma_auto_spec_u32_to_from_le_bytes();
        lemma_subrange_within(b, pos, e, 1, 5);
        assert(e.subrange(1, 5) =~= spec_u32_to_le_bytes(v as u32));
    } else {
        lemma_auto_spec_u64_to_from_le_bytes();
        lemma_subrange_within(b, pos, e, 1, 9);
        assert(e.subrange(1, 9) =~= spec_u64_to_le_bytes(v));
    }
}

/// Parsing inverts encoding for one length-prefixed byte string.
pub proof fn lemma_parsed_bytes(b: Seq<u8>, pos: int, data: Seq<u8>)
    requires
        0 <= pos,
        data.len() <= u64::MAX,
        pos + encoded_bytes(data).len() <= b.len(),
        b.subrange(pos, pos + encoded_bytes(data).len()) == encoded_bytes(data),
    ensures
        parsed_bytes(b, pos) == Some((data, pos + encoded_bytes(data).len())),
{
    let n = data.len() as u64;
    let ev = encoded_varint(n);
    let e = encoded_bytes(data);
    lemma_subrange_within(b, pos, e, 0, ev.len() as int);
    assert(e.subrange(0, ev.len() as int) =~= ev);
    lemma_parsed_varint(b, pos, n);
    lemma_subrange_within(b, pos, e, ev.len() as int, e.len() as int);
    assert(e.subrange(ev.len() as int, e.len() as int) =~= data);
    let p = pos + ev.len();
    assert(b.subrange(p, p + data.len()) == data);
}

/// Parsing inverts encoding for one index record.
pub proof fn lemma_parsed_entry(b: Seq<u8>, pos: int, name: Seq<u8>, e: Entry)
    requires
        0 <= pos,
        name.len() <= u64::MAX,
        vstd::utf8::valid_utf8(name),
        pos + encoded_entry(name, e).len() <= b.len(),
        b.subrange(pos, pos + encoded_entry(name, e).len()) == encoded_entry(name, e),
    ensures
        parsed_entry(b, pos) == Some(((name, e), pos + encoded_entry(name, e).len())),
{
    let enc = encoded_entry(name, e);
    let e1 = encoded_bytes(name);
    let e2 = encoded_varint(e.offset);
    let e3 = encoded_varint(e.length);
    lemma_subrange_within(b, pos, enc, 0, e1.len() as int);
    assert(enc.subrange(0, e1.len() as int) =~= e1);
    lemma_parsed_bytes(b, pos, name);
    let p1 = pos + e1.len();
    lemma_subrange_within(b, pos, enc, e1.len() as int, (e1.len() + e2.len()) as int);
    assert(enc.subrange(e1.len() as int, (e1.len() + e2.len()) as int) =~= e2);
    assert(b.subrange(p1, p1 + e2.len()) == e2);
    lemma_parsed_varint(b, p1, e.offset);
    let p2 = p1 + e2.len();
    lemma_subrange_within(b, pos, enc, (e1.len() + e2.len()) as int, enc.len() as int);
    assert(enc.subrange((e1.len() + e2.len()) as int, enc.len() as int) =~= e3);
    assert(b.subrange(p2, p2 + e3.len()) == e3);
    lemma_parsed_varint(b, p2, e.length);
}

/// Every name in a record sequence is valid UTF-8 text and short enough to
/// carry a 64-bit length prefix.
pub open spec fn wf_names(items: Seq<(Seq<u8>, Entry)>) -> bool {
    forall|i: int|
        0 <= i < items.len() ==> (#[trigger] items[i].0).len() <= u64::MAX && vstd::utf8::valid_utf8(
            items[i].0,
        )
}

/// Parsing inverts encoding for a sequence of records.
pub proof fn lemma_parsed_entries(b: Seq<u8>, pos: int, items: Seq<(Seq<u8>, Entry)>)
    requires
        0 <= pos,
        wf_names(items),
        pos + encoded_entries(items).len() <= b.len(),
        b.subrange(pos, pos + encoded_entries(items).len()) == encoded_entries(items),
    ensures
        parsed_entries(b, pos, items.len()) == Some((items, pos + encoded_entries(items).len())),
    decreases items.len(),
{
    if items.len() == 0 {
        assert(parsed_entries(b, pos, 0) == Some((Seq::<(Seq<u8>, Entry)>::empty(), pos)));
        assert(items =~= Seq::<(Seq<u8>, Entry)>::empty());
    } else {
        let enc = encoded_entries(items);
        let e0 = encoded_entry(items[0].0, items[0].1);
        let rest = items.drop_first();
        let er = encoded_entries(rest);
        lemma_subrange_within(b, pos, enc, 0, e0.len() as int);
        assert(enc.subrange(0, e0.len() as int) =~= e0);
        lemma_parsed_entry(b, pos, items[0].0, items[0].1);
        let p = pos + e0.len();
        lemma_subrange_within(b, pos, enc, e0.len() as int, enc.len() as int);
        assert(enc.subrange(e0.len() as int, enc.len() as int) =~= er);
        assert(b.subrange(p, p + er.len()) == er);
        assert(wf_names(rest)) by {
            assert(forall|i: int| 0 <= i < rest.len() ==> rest[i] == items[i + 1]);
        }
        lemma_parsed_entries(b, p, rest);
        assert(seq![items[0]] + rest =~= items);
    }
}

/// Parsing inverts encoding for the whole serialized index.
pub proof fn lemma_parsed_table(b: Seq<u8>, pos: int, items: Seq<(Seq<u8>, Entry)>)
    requires
        0 <= pos,
        items.len() <= u64::MAX,
        wf_names(items),
        pos + encoded_table(items).len() <= b.len(),
        b.subrange(pos, pos + encoded_table(items).len()) == encoded_table(items),
    ensures
        parsed_table(b, pos) == Some((items, pos + encoded_table(items).len())),
{
    let ec = encoded_varint(items.len() as u64);
    let enc = encoded_table(items);
    lemma_subrange_within(b, pos, enc, 0, ec.len() as int);
    assert(enc.subrange(0, ec.len() as int) =~= ec);
    lemma_parsed_varint(b, pos, items.len() as u64);
    let p = pos + ec.len();
    lemma_subrange_within(b, pos, enc, ec.len() as int, enc.len() as int);
    assert(enc.subrange(ec.len() as int, enc.len() as int) =~= encoded_entries(items));
    assert(b.subrange(p, p + encoded_entries(items).len()) == encoded_entries(items));
    lemma_parsed_entries(b, p, items);
}

/// The records of an in-memory index, with each name replaced by its
/// UTF-8 bytes: the form the serialized index stores.
pub open spec fn byte_entries(s: Seq<(String, Entry)>) -> Seq<(Seq<u8>, Entry)> {
    s.map(|i: int, p: (String, Entry)| (vstd::utf8::encode_utf8(p.0@), p.1))
}

/// Appending one record extends the encoded record sequence at its end.
pub proof fn lemma_encoded_entries_push(items: Seq<(Seq<u8>, Entry)>, kv: (Seq<u8>, Entry))
    ensures
        encoded_entries(items.push(kv)) == encoded_entries(items) + encoded_entry(kv.0, kv.1),
    decreases items.len(),
{
    if items.len() == 0 {
        assert(items.push(kv)[0] == kv);
        assert(items.push(kv).drop_first() =~= items);
        assert(encoded_entries(items.push(kv)) =~= encoded_entries(items) + encoded_entry(
            kv.0,
            kv.1,
        ));
    } else {
        assert(items.push(kv)[0] == items[0]);
        assert(items.push(kv).drop_first() =~= items.drop_first().push(kv));
        lemma_encoded_entries_push(items.drop_first(), kv);
        assert(encoded_entries(items.push(kv)) =~= encoded_entries(items) + encoded_entry(
            kv.0,
            kv.1,
        ));
    }
}

/// A failure while deserializing the index table.
#[derive(Debug, Clone, Copy, PartialEq, Eq)]
pub enum DecodeError<E> {
    /// The stream failed, or ended inside the table.
    Read(ReadExactError<E>),
    /// An integer carried a tag byte the encoding does not assign.
    InvalidTag(u8),
    /// A name's length does not fit the host's address space.
    LengthOverflow(u64),
    /// A name's bytes are not valid UTF-8.
    InvalidUtf8,
}

/// Read one variable-width integer from the stream.
pub fn read_varint<S: Stream>(archive: &mut S) -> (r: Result<u64, DecodeError<S::Error>>)
    requires
        old(archive).inv(),
    ensures
        final(archive).inv(),
        final(archive).reliable() == old(archive).reliable(),
        final(archive).content() == old(archive).content(),
        0 <= final(archive).cursor(),
        r matches Ok(v) ==> parsed_varint(old(archive).content(), old(archive).cursor()) == Some(
            (v, final(archive).cursor()),
        ),
        old(archive).reliable() && parsed_varint(old(archive).content(), old(archive).cursor())
            is Some ==> r is Ok,
{
    let tag_bytes = match archive.read_exact(1) {
        Ok(v) => v,
        Err(e) => { return Err(DecodeError::Read(e)) },
    };
    let tag = tag_bytes[0];
    if tag <= SINGLE_BYTE_MAX {
        Ok(tag as u64)
    } else if tag == TAG_U16 {
        let b = match archive.read_exact(2) {
            Ok(v) => v,
            Err(e) => { return Err(DecodeError::Read(e)) },
        };
        Ok(u16_from_le_bytes(b.as_slice()) as u64)
    } else if tag == TAG_U32 {
        let b = match archive.read_exact(4) {
            Ok(v) => v,
            Err(e) => { return Err(DecodeError::Read(e)) },
        };
        Ok(u32_from_le_bytes(b.as_slice()) as u64)
    } else if tag == TAG_U64 {
        let b = match archive.read_exact(8) {
            Ok(v) => v,
            Err(e) => { return Err(DecodeError::Read(e)) },
        };
        Ok(u64_from_le_bytes(b.as_slice()))
    } else {
        Err(DecodeError::InvalidTag(tag))
    }
}

/// Relies on String::from_utf8: it succeeds exactly on valid UTF-8 input
/// and yields the text those bytes encode.
#[verifier::external_body]
fn string_from_utf8(bytes: Vec<u8>) -> (r: Option<String>)
    ensures
        r matches Some(s) ==> vstd::utf8::valid_utf8(bytes@) && s@ == vstd::utf8::decode_utf8(
            bytes@,
        ),
        r is None ==> !vstd::utf8::valid_utf8(bytes@),
{
    match String::from_utf8(bytes) {
        Ok(s) => Some(s),
        Err(_) => None,
    }
}

/// Prepend an already-decoded prefix to the outcome of parsing the
/// remaining records.
pub open spec fn completed_entries(
    prefix: Seq<(Seq<u8>, Entry)>,
    remaining: Option<(Seq<(Seq<u8>, Entry)>, int)>,
) -> Option<(Seq<(Seq<u8>, Entry)>, int)> {
    match remaining {
        Some((rest, end)) => Some((prefix + rest, end)),
        None => None,
    }
}

/// Deserialize an index table from the stream at its current position.
///
/// On success the decoded records are exactly what the spec-level parser
/// reads from the stream's content at the starting cursor.  On a reliable
/// stream whose content fits the host's address space, the call succeeds
/// whenever the spec-level parser does.
#[verifier::loop_isolation(false)]
pub fn decode_table<S: Stream>(archive: &mut S) -> (r: Result<
    Vec<(String, Entry)>,
    DecodeError<S::Error>,
>)
    requires
        old(archive).inv(),
    ensures
        final(archive).inv(),
        final(archive).reliable() == old(archive).reliable(),
        final(archive).content() == old(archive).content(),
        r matches Ok(v) ==> parsed_table(old(archive).content(), old(archive).cursor()) == Some(
            (byte_entries(v@), final(archive).cursor()),
        ),
        old(archive).reliable() && old(archive).content().len() <= usize::MAX && parsed_table(
            old(archive).content(),
            old(archive).cursor(),
        ) is Some ==> r is Ok,
{
    let ghost c = old(archive).content();
    let ghost pos0 = old(archive).cursor();
    let ghost rel = old(archive).reliable();
    let count = match read_varint(archive) {
        Ok(v) => v,
        Err(e) => { return Err(e) },
    };
    let ghost start = archive.cursor();
    let mut out: Vec<(String, Entry)> = Vec::new();
    let mut i: u64 = 0;
    proof {
        if let Some((rest, end)) = parsed_entries(c, start, count as nat) {
            assert(byte_entries(out@) =~= Seq::<(Seq<u8>, Entry)>::empty());
            assert(byte_entries(out@) + rest =~= rest);
        }
    }
    while i < count
        invariant
            i <= count,
            archive.inv(),
            archive.reliable() == rel,
            archive.content() == c,
            0 <= archive.cursor(),
            parsed_entries(c, start, count as nat) == completed_entries(
                byte_entries(out@),
                parsed_entries(c, archive.cursor(), (count - i) as nat),
            ),
        decreases count - i,
    {
        let ghost cur0 = archive.cursor();
        let ghost n = (count - i) as nat;
        let ghost local = parsed_entries(c, cur0, n);
        let name_len = match read_varint(archive) {
            Ok(v) => v,
            Err(e) => { return Err(e) },
        };
        if name_len > usize::MAX as u64 {
            proof {
                if rel && c.len() <= usize::MAX && parsed_table(c, pos0) is Some {
                    assert(local is Some);
                    assert(parsed_entry(c, cur0) is Some);
                    assert(parsed_bytes(c, cur0) is Some);
                }
            }
            return Err(DecodeError::LengthOverflow(name_len));
        }
        let name_vec = match archive.read_exact(name_len as usize) {
            Ok(v) => v,
            Err(e) => {
                proof {
                    if rel && c.len() <= usize::MAX && parsed_table(c, pos0) is Some {
                        assert(local is Some);
                        assert(parsed_entry(c, cur0) is Some);
                        assert(parsed_bytes(c, cur0) is Some);
                    }
                }
                return Err(DecodeError::Read(e));
            },
        };
        let ghost nb = name_vec@;
        let name = match string_from_utf8(name_vec) {
            Some(s) => s,
            None => {
                proof {
                    if rel && c.len() <= usize::MAX && parsed_table(c, pos0) is Some {
                        assert(local is Some);
                        assert(parsed_entry(c, cur0) is Some);
                        assert(parsed_bytes(c, cur0) == Some((nb, archive.cursor())));
                        assert(vstd::utf8::valid_utf8(nb));
                    }
                }
                return Err(DecodeError::InvalidUtf8);
            },
        };
        let offset = match read_varint(archive) {
            Ok(v) => v,
            Err(e) => {
                proof {
                    if rel && c.len() <= usize::MAX && parsed_table(c, pos0) is Some {
                        assert(local is Some);
                        assert(parsed_entry(c, cur0) is Some);
                        assert(parsed_bytes(c, cur0) is Some);
                    }
                }
                return Err(e);
            },
        };
        let length = match read_varint(archive) {
            Ok(v) => v,
            Err(e) => {
                proof {
                    if rel && c.len() <= usize::MAX && parsed_table(c, pos0) is Some {
                        assert(local is Some);
                        assert(parsed_entry(c, cur0) is Some);
                        assert(parsed_bytes(c, cur0) is Some);
                    }
                }
                return Err(e);
            },
        };
        let ghost prev = out@;
        let ghost namev = name@;
        out.push((name, Entry { offset, length }));
        proof {
            let entry = Entry { offset, length };
            let kv = (nb, entry);
            assert(parsed_bytes(c, cur0) is Some);
            assert(parsed_entry(c, cur0) == Some((kv, archive.cursor())));
            vstd::utf8::decode_utf8_encode_utf8(nb);
            assert(vstd::utf8::encode_utf8(namev) == nb);
            assert(byte_entries(out@) =~= byte_entries(prev).push(kv)) by {
                assert(out@ == prev.push((out@[prev.len() as int].0, entry)));
                assert(out@[prev.len() as int].0@ == namev);
            }
            assert(byte_entries(prev).push(kv) =~= byte_entries(prev) + seq![kv]);
            let local2 = parsed_entries(c, archive.cursor(), (n - 1) as nat);
            assert(local == match local2 {
                Some((rest, end)) => Some((seq![kv] + rest, end)),
                None => None,
            });
            if let Some((rest, end)) = local2 {
                assert(byte_entries(prev) + (seq![kv] + rest) =~= (byte_entries(prev)
                    + seq![kv]) + rest);
            }
        }
        i = i + 1;
    }
    proof {
        assert(parsed_entries(c, archive.cursor(), 0) == Some(
            (Seq::<(Seq<u8>, Entry)>::empty(), archive.cursor()),
        ));
        assert(byte_entries(out@) + Seq::<(Seq<u8>, Entry)>::empty() =~= byte_entries(out@));
    }
    Ok(out)
}

/// Append the variable-width encoding of `v` to `out`.
pub fn push_varint(out: &mut Vec<u8>, v: u64)
    ensures
        final(out)@ == old(out)@ + encoded_varint(v),
{
    if v <= SINGLE_BYTE_MAX as u64 {
        out.push(v as u8);
        assert(final(out)@ =~= old(out)@ + encoded_varint(v));
    } else if v <= u16::MAX as u64 {
        out.push(TAG_U16);
        let b = u16_to_le_bytes(v as u16);
        out.extend_from_slice(b.as_slice());
        assert(final(out)@ =~= old(out)@ + encoded_varint(v));
    } else if v <= u32::MAX as u64 {
        out.push(TAG_U32);
        let b = u32_to_le_bytes(v as u32);
        out.extend_from_slice(b.as_slice());
        assert(final(out)@ =~= old(out)@ + encoded_varint(v));
    } else {
        out.push(TAG_U64);
        let b = u64_to_le_bytes(v);
        out.extend_from_slice(b.as_slice());
        assert(final(out)@ =~= old(out)@ + encoded_varint(v));
    }
}

/// Serialize an index table to a byte buffer, in record order.
#[verifier::loop_isolation(false)]
pub fn encode_table(entries: &Vec<(String, Entry)>) -> (out: Vec<u8>)
    ensures
        out@ == encoded_table(byte_entries(entries@)),
{
    let ghost all = byte_entries(entries@);
    let mut out: Vec<u8> = Vec::new();
    push_varint(&mut out, entries.len() as u64);
    let mut i: usize = 0;
    proof {
        assert(all.take(0) =~= Seq::<(Seq<u8>, Entry)>::empty());
        assert(out@ =~= encoded_varint(entries@.len() as u64) + encoded_entries(all.take(0)));
    }
    while i < entries.len()
        invariant
            i <= entries@.len(),
            out@ == encoded_varint(entries@.len() as u64) + encoded_entries(all.take(i as int)),
        decreases entries@.len() - i,
    {
        let ghost before = out@;
        let name_bytes = entries[i].0.as_str().as_bytes();
        push_varint(&mut out, name_bytes.len() as u64);
        out.extend_from_slice(name_bytes);
        push_varint(&mut out, entries[i].1.offset);
        push_varint(&mut out, entries[i].1.length);
        proof {
            let kv = all[i as int];
            assert(kv.0 == name_bytes@);
            assert(out@ =~= before + encoded_entry(kv.0, kv.1));
            lemma_encoded_entries_push(all.take(i as int), kv);
            assert(all.take(i as int).push(kv) =~= all.take(i + 1));
            assert(out@ =~= encoded_varint(entries@.len() as u64) + encoded_entries(
                all.take(i + 1),
            ));
        }
        i = i + 1;
    }
    proof {
        assert(all.take(entries@.len() as int) =~= all);
    }
    out
}

} // verus!
