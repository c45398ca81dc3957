//! The spec-level model of the archive format.
//!
//! `archive_bytes` says, byte for byte, what the create pipeline produces
//! from a sequence of (name, payload) pairs; `read_outcome` says what the
//! read pipeline makes of any byte sequence; `extract_outcome` says what a
//! lookup of one name against an index and a byte sequence yields.  The
//! executable pipelines carry contracts phrased over these three
//! functions, and the proof functions at the end of this module state the
//! format's laws: a created archive reads back to its own index, every
//! payload extracts unchanged, and corruption of the signature is caught.

use crate::codec::{byte_entries, encoded_table, parsed_table};
use crate::Entry;
use vstd::bytes::{spec_u64_from_le_bytes, spec_u64_to_le_bytes};
use vstd::prelude::*;

verus! {

/// The 20 ASCII bytes of "Pocket Knife Archive": the marker at offset 0 of
/// every archive.
pub open spec fn spec_signature() -> Seq<u8> {
    seq![
        0x50u8,
        0x6fu8,
        0x63u8,
        0x6bu8,
        0x65u8,
        0x74u8,
        0x20u8,
        0x4bu8,
        0x6eu8,
        0x69u8,
        0x66u8,
        0x65u8,
        0x20u8,
        0x41u8,
        0x72u8,
        0x63u8,
        0x68u8,
        0x69u8,
        0x76u8,
        0x65u8,
    ]
}

/// The signature text's UTF-8 bytes are exactly the 20 signature bytes.
pub proof fn lemma_signature_text()
    ensures
        vstd::utf8::encode_utf8(crate::SIGNATURE@) == spec_signature(),
{
    reveal_strlit("Pocket Knife Archive");
    let chars = crate::SIGNATURE@;
    assert(chars.len() == 20);
    assert(vstd::utf8::is_ascii_chars(chars)) by {
        assert forall|i: int| 0 <= i < chars.len() implies '\0' <= #[trigger] chars[i] <= '\u{7f}'
            by {
            assert(chars[0] == 'P' && chars[1] == 'o' && chars[2] == 'c' && chars[3] == 'k'
                && chars[4] == 'e' && chars[5] == 't' && chars[6] == ' ' && chars[7] == 'K'
                && chars[8] == 'n' && chars[9] == 'i' && chars[10] == 'f' && chars[11] == 'e'
                && chars[12] == ' ' && chars[13] == 'A' && chars[14] == 'r' && chars[15] == 'c'
                && chars[16] == 'h' && chars[17] == 'i' && chars[18] == 'v' && chars[19] == 'e');
        }
    }
    vstd::utf8::is_ascii_chars_encode_utf8(chars);
    assert(vstd::utf8::encode_utf8(chars) =~= spec_signature());
}

/// Strict lexicographic order on byte strings: the natural sort order of
/// names, and, for UTF-8 bytes, the same order as on the decoded text.
pub open spec fn lex_lt(a: Seq<u8>, b: Seq<u8>) -> bool
    decreases a.len(),
{
    if b.len() == 0 {
        false
    } else if a.len() == 0 {
        true
    } else if a[0] < b[0] {
        true
    } else if a[0] > b[0] {
        false
    } else {
        lex_lt(a.drop_first(), b.drop_first())
    }
}

/// Decide `a@ == b@` on byte slices.
pub fn bytes_eq(a: &[u8], b: &[u8]) -> (r: bool)
    ensures
        r == (a@ == b@),
{
    if a.len() != b.len() {
        proof {
            assert(a@.len() != b@.len());
        }
        return false;
    }
    let mut i: usize = 0;
    while i < a.len()
        invariant
            i <= a@.len(),
            a@.len() == b@.len(),
            forall|k: int| 0 <= k < i ==> a@[k] == b@[k],
        decreases a@.len() - i,
    {
        if a[i] != b[i] {
            return false;
        }
        i = i + 1;
    }
    proof {
        assert(a@ =~= b@);
    }
    true
}

/// Decide `lex_lt(a@, b@)` on byte slices.
#[verifier::loop_isolation(false)]
pub fn bytes_lt(a: &[u8], b: &[u8]) -> (r: bool)
    ensures
        r == lex_lt(a@, b@),
{
    let mut i: usize = 0;
    proof {
        assert(a@.skip(0) =~= a@);
        assert(b@.skip(0) =~= b@);
    }
    loop
        invariant
            i <= a@.len(),
            i <= b@.len(),
            forall|k: int| 0 <= k < i ==> a@[k] == b@[k],
            lex_lt(a@, b@) == lex_lt(a@.skip(i as int), b@.skip(i as int)),
        decreases a@.len() - i,
    {
        proof {
            if i < a.len() && i < b.len() && a@[i as int] == b@[i as int] {
                assert(a@.skip(i as int).drop_first() =~= a@.skip(i + 1));
                assert(b@.skip(i as int).drop_first() =~= b@.skip(i + 1));
            }
        }
        if i >= b.len() {
            return false;
        }
        if i >= a.len() {
            return true;
        }
        if a[i] < b[i] {
            return true;
        }
        if a[i] > b[i] {
            return false;
        }
        i = i + 1;
    }
}

/// The names of a (name, payload) sequence, in producer order.
pub open spec fn names_of(items: Seq<(Seq<u8>, Seq<u8>)>) -> Seq<Seq<u8>> {
    items.map(|i: int, p: (Seq<u8>, Seq<u8>)| p.0)
}

/// No two names are equal.
pub open spec fn unique_names(names: Seq<Seq<u8>>) -> bool {
    forall|i: int, j: int| 0 <= i < j < names.len() ==> names[i] != names[j]
}

/// Position `j` holds the first name that repeats an earlier one: the
/// producer on which the create pipeline stops.
pub open spec fn is_first_dup(names: Seq<Seq<u8>>, j: int) -> bool {
    &&& 0 <= j < names.len()
    &&& (exists|i: int| 0 <= i < j && names[i] == names[j])
    &&& unique_names(names.take(j))
}

/// Total payload size of the first `items.len()` payloads.
pub open spec fn payload_total(items: Seq<(Seq<u8>, Seq<u8>)>) -> int
    decreases items.len(),
{
    if items.len() == 0 {
        0
    } else {
        items[0].1.len() + payload_total(items.drop_first())
    }
}

/// Where payload `i` starts: after the signature, the index address, and
/// every earlier payload.
pub open spec fn payload_offset(items: Seq<(Seq<u8>, Seq<u8>)>, i: int) -> int {
    28 + payload_total(items.take(i))
}

/// Where the serialized index starts: right after the last payload.
pub open spec fn table_address(items: Seq<(Seq<u8>, Seq<u8>)>) -> int {
    28 + payload_total(items)
}

/// All payloads, concatenated in producer order.
pub open spec fn payload_region(items: Seq<(Seq<u8>, Seq<u8>)>) -> Seq<u8>
    decreases items.len(),
{
    if items.len() == 0 {
        Seq::empty()
    } else {
        items[0].1 + payload_region(items.drop_first())
    }
}

/// The eight reserved bytes for the index address read as zeros until the
/// create pipeline patches them in.
pub open spec fn reserved_gap() -> Seq<u8> {
    Seq::new(8, |j: int| 0u8)
}

/// The stream content while the create pipeline stands before producer
/// `i`: the signature, and — once any payload byte was written — the
/// reserved gap followed by the first `i` payloads.  Until then the
/// reserved space exists only as a cursor position past the end.
pub open spec fn partial_content(items: Seq<(Seq<u8>, Seq<u8>)>, i: int) -> Seq<u8> {
    if payload_total(items.take(i)) == 0 {
        spec_signature()
    } else {
        spec_signature() + reserved_gap() + payload_region(items.take(i))
    }
}

/// Payload sizes are sizes.
pub proof fn lemma_payload_total_nonneg(items: Seq<(Seq<u8>, Seq<u8>)>)
    ensures
        payload_total(items) >= 0,
    decreases items.len(),
{
    if items.len() > 0 {
        lemma_payload_total_nonneg(items.drop_first());
    }
}

/// The payload region holds exactly the payload total's bytes.
pub proof fn lemma_payload_region_len(items: Seq<(Seq<u8>, Seq<u8>)>)
    ensures
        payload_region(items).len() == payload_total(items),
    decreases items.len(),
{
    if items.len() > 0 {
        lemma_payload_region_len(items.drop_first());
    }
}

/// A prefix of the producers never holds more payload than all of them.
pub proof fn lemma_payload_total_mono(items: Seq<(Seq<u8>, Seq<u8>)>, i: int)
    requires
        0 <= i <= items.len(),
    ensures
        0 <= payload_total(items.take(i)) <= payload_total(items),
    decreases items.len() - i,
{
    lemma_payload_total_nonneg(items.take(i));
    if i == items.len() {
        assert(items.take(i) =~= items);
    } else {
        lemma_payload_step(items, i);
        lemma_payload_total_mono(items, i + 1);
    }
}

/// Insert one record into a name-sorted record sequence, keeping the order.
pub open spec fn insert_sorted(s: Seq<(Seq<u8>, Entry)>, name: Seq<u8>, e: Entry) -> Seq<
    (Seq<u8>, Entry),
>
    decreases s.len(),
{
    if s.len() == 0 {
        seq![(name, e)]
    } else if lex_lt(name, s[0].0) {
        seq![(name, e)] + s
    } else {
        seq![s[0]] + insert_sorted(s.drop_first(), name, e)
    }
}

/// Fold the producers into the index: each one inserted under its name,
/// with its offset and length, names kept in sorted order.
pub open spec fn build_table(
    items: Seq<(Seq<u8>, Seq<u8>)>,
    acc: Seq<(Seq<u8>, Entry)>,
    off: int,
) -> Seq<(Seq<u8>, Entry)>
    decreases items.len(),
{
    if items.len() == 0 {
        acc
    } else {
        build_table(
            items.drop_first(),
            insert_sorted(acc, items[0].0, Entry { offset: off as u64, length: items[0].1.len() as u64 }),
            off + items[0].1.len(),
        )
    }
}

/// The index an archive of these producers carries.
pub open spec fn table_entries(items: Seq<(Seq<u8>, Seq<u8>)>) -> Seq<(Seq<u8>, Entry)> {
    build_table(items, Seq::empty(), 28)
}

/// The whole archive, byte for byte: signature, index address, payload
/// bodies in producer order, serialized index.
pub open spec fn archive_bytes(items: Seq<(Seq<u8>, Seq<u8>)>) -> Seq<u8>
    recommends
        table_address(items) <= u64::MAX,
{
    spec_signature() + spec_u64_to_le_bytes(table_address(items) as u64) + payload_region(items)
        + encoded_table(table_entries(items))
}

/// The archive as it stands before the index address is patched in: the
/// address field still reads as zeros.
pub open spec fn unpatched_archive(items: Seq<(Seq<u8>, Seq<u8>)>) -> Seq<u8> {
    spec_signature() + reserved_gap() + payload_region(items) + encoded_table(table_entries(items))
}

/// The eight index-address bytes still read as zeros, or lie beyond the
/// stream's end: the index address was never patched in, so the archive
/// must be discarded.
pub open spec fn address_unpatched(c: Seq<u8>) -> bool {
    forall|i: int| 20 <= i < 28 && i < c.len() ==> c[i] == 0u8
}

/// A stream that starts with the signature and the zeroed reserve has an
/// unpatched address field, whatever follows.
pub proof fn lemma_unpatched_with_gap(c: Seq<u8>)
    requires
        c.len() >= 28,
        forall|i: int| 0 <= i < 8 ==> c[20 + i] == reserved_gap()[i],
    ensures
        address_unpatched(c),
{
    assert forall|i: int| 20 <= i < 28 && i < c.len() implies c[i] == 0u8 by {
        assert(c[20 + (i - 20)] == reserved_gap()[i - 20]);
    }
}

/// The create pipeline's intermediate contents never patch the address
/// field.
pub proof fn lemma_unpatched_partial(items: Seq<(Seq<u8>, Seq<u8>)>, j: int)
    requires
        0 <= j <= items.len(),
    ensures
        address_unpatched(partial_content(items, j)),
{
    let c = partial_content(items, j);
    if payload_total(items.take(j)) == 0 {
        assert(c.len() == 20);
    } else {
        lemma_payload_total_nonneg(items.take(j));
        lemma_payload_region_len(items.take(j));
        assert forall|i: int| 0 <= i < 8 implies c[20 + i] == reserved_gap()[i] by {
            assert((spec_signature() + reserved_gap())[20 + i] == reserved_gap()[i]);
        }
        lemma_unpatched_with_gap(c);
    }
}

/// Writing at or past the payload region keeps the address field
/// unpatched.
pub proof fn lemma_unpatched_overwrite(c: Seq<u8>, at: int, d: Seq<u8>)
    requires
        address_unpatched(c),
        at >= 28,
    ensures
        address_unpatched(crate::stream::overwrite(c, at, d)),
{
}

/// The full archive before its address is patched still carries the
/// zeroed reserve.
pub proof fn lemma_unpatched_archive(items: Seq<(Seq<u8>, Seq<u8>)>)
    ensures
        address_unpatched(unpatched_archive(items)),
{
    let c = unpatched_archive(items);
    lemma_payload_region_len(items);
    lemma_payload_total_nonneg(items);
    assert(c.len() >= 28);
    assert forall|i: int| 0 <= i < 8 implies c[20 + i] == reserved_gap()[i] by {
        assert((spec_signature() + reserved_gap())[20 + i] == reserved_gap()[i]);
        assert((spec_signature() + reserved_gap() + payload_region(items))[20 + i] == (
        spec_signature() + reserved_gap())[20 + i]);
    }
    lemma_unpatched_with_gap(c);
}

/// What the read pipeline makes of a byte sequence.
pub enum ReadOutcome {
    /// A well-formed archive carrying this index.
    Table(Seq<(Seq<u8>, Entry)>),
    /// Too short to hold a signature.
    TooShortSignature,
    /// The first 20 bytes, which are not the signature.
    BadSignature(Seq<u8>),
    /// Too short to hold the index address.
    TooShortAddress,
    /// The index address or the serialized index is unreadable.
    BadTable,
}

/// The outcome of validating and loading an index from content `c`.
pub open spec fn read_outcome(c: Seq<u8>) -> ReadOutcome {
    if c.len() < 20 {
        ReadOutcome::TooShortSignature
    } else if c.subrange(0, 20) != spec_signature() {
        ReadOutcome::BadSignature(c.subrange(0, 20))
    } else if c.len() < 28 {
        ReadOutcome::TooShortAddress
    } else {
        let addr = spec_u64_from_le_bytes(c.subrange(20, 28));
        match parsed_table(c, addr as int) {
            Some((items, _)) => ReadOutcome::Table(items),
            None => ReadOutcome::BadTable,
        }
    }
}

/// The first record under `name`, if any.
pub open spec fn lookup(entries: Seq<(Seq<u8>, Entry)>, name: Seq<u8>) -> Option<Entry>
    decreases entries.len(),
{
    if entries.len() == 0 {
        None
    } else if entries[0].0 == name {
        Some(entries[0].1)
    } else {
        lookup(entries.drop_first(), name)
    }
}

/// Names strictly increase through the record sequence: the index's
/// deterministic enumeration order.
pub open spec fn sorted_by_name(s: Seq<(Seq<u8>, Entry)>) -> bool {
    forall|i: int, j: int| 0 <= i < j < s.len() ==> lex_lt(#[trigger] s[i].0, #[trigger] s[j].0)
}

/// Lexicographic order is total: two byte strings compare one way, the
/// other way, or are equal.
pub proof fn lemma_lex_total(a: Seq<u8>, b: Seq<u8>)
    ensures
        lex_lt(a, b) || lex_lt(b, a) || a == b,
    decreases a.len(),
{
    if a.len() == 0 || b.len() == 0 {
        if a.len() == 0 && b.len() == 0 {
            assert(a =~= b);
        }
    } else if a[0] == b[0] {
        lemma_lex_total(a.drop_first(), b.drop_first());
        assert(lex_lt(a.drop_first(), b.drop_first()) || lex_lt(b.drop_first(), a.drop_first())
            || a.drop_first() == b.drop_first());
        assert(lex_lt(a, b) == lex_lt(a.drop_first(), b.drop_first()));
        assert(lex_lt(b, a) == lex_lt(b.drop_first(), a.drop_first()));
        if !lex_lt(a, b) && !lex_lt(b, a) {
            assert(a.drop_first() == b.drop_first());
            assert(a.len() == b.len());
            assert forall|k: int| 0 <= k < a.len() implies a[k] == b[k] by {
                if k >= 1 {
                    assert(a[k] == a.drop_first()[k - 1]);
                    assert(b[k] == b.drop_first()[k - 1]);
                }
            }
            assert(a =~= b);
        }
    }
}

/// A name is found exactly when some record carries it.
pub proof fn lemma_lookup_exists(entries: Seq<(Seq<u8>, Entry)>, name: Seq<u8>)
    ensures
        lookup(entries, name) is Some <==> exists|k: int|
            0 <= k < entries.len() && (#[trigger] entries[k]).0 == name,
    decreases entries.len(),
{
    if entries.len() == 0 {
    } else if entries[0].0 == name {
    } else {
        lemma_lookup_exists(entries.drop_first(), name);
        if lookup(entries, name) is Some {
            let k = choose|k: int|
                0 <= k < entries.drop_first().len() && (#[trigger] entries.drop_first()[k]).0
                    == name;
            assert(entries[k + 1].0 == name);
        } else {
            if exists|k: int| 0 <= k < entries.len() && (#[trigger] entries[k]).0 == name {
                let k = choose|k: int| 0 <= k < entries.len() && (#[trigger] entries[k]).0 == name;
                assert(entries.drop_first()[k - 1].0 == name);
            }
        }
    }
}

/// Inserting a fresh name keeps the records strictly sorted.
pub proof fn lemma_insert_sorted_sorted(s: Seq<(Seq<u8>, Entry)>, name: Seq<u8>, e: Entry)
    requires
        sorted_by_name(s),
        forall|k: int| 0 <= k < s.len() ==> (#[trigger] s[k]).0 != name,
    ensures
        sorted_by_name(insert_sorted(s, name, e)),
    decreases s.len(),
{
    let out = insert_sorted(s, name, e);
    if s.len() == 0 {
    } else if lex_lt(name, s[0].0) {
        assert forall|i: int, j: int| 0 <= i < j < out.len() implies lex_lt(
            #[trigger] out[i].0,
            #[trigger] out[j].0,
        ) by {
            if i == 0 {
                if j == 1 {
                } else {
                    assert(lex_lt(s[0].0, s[j - 1].0));
                    lemma_lex_trans(name, s[0].0, s[j - 1].0);
                }
            } else {
                assert(out[i] == s[i - 1] && out[j] == s[j - 1]);
            }
        }
    } else {
        let rest = s.drop_first();
        assert(sorted_by_name(rest)) by {
            assert(forall|i: int, j: int|
                0 <= i < j < rest.len() ==> rest[i] == s[i + 1] && rest[j] == s[j + 1]);
        }
        lemma_insert_sorted_sorted(rest, name, e);
        lemma_lex_total(name, s[0].0);
        assert(lex_lt(s[0].0, name));
        let inner = insert_sorted(rest, name, e);
        // every name in the inserted tail is above s[0].0
        assert forall|k: int| 0 <= k < inner.len() implies lex_lt(s[0].0, #[trigger] inner[k].0) by {
            lemma_insert_sorted_contains(rest, name, e, k);
            if inner[k].0 == name {
            } else {
                let k2 = choose|k2: int| 0 <= k2 < rest.len() && rest[k2] == inner[k];
                assert(lex_lt(s[0].0, s[k2 + 1].0));
            }
        }
        assert forall|i: int, j: int| 0 <= i < j < out.len() implies lex_lt(
            #[trigger] out[i].0,
            #[trigger] out[j].0,
        ) by {
            if i == 0 {
                assert(out[j] == inner[j - 1]);
            } else {
                assert(out[i] == inner[i - 1] && out[j] == inner[j - 1]);
            }
        }
    }
}

/// Insertion grows the record sequence by exactly one.
pub proof fn lemma_insert_sorted_len(s: Seq<(Seq<u8>, Entry)>, name: Seq<u8>, e: Entry)
    ensures
        insert_sorted(s, name, e).len() == s.len() + 1,
    decreases s.len(),
{
    if s.len() == 0 {
    } else if lex_lt(name, s[0].0) {
    } else {
        lemma_insert_sorted_len(s.drop_first(), name, e);
    }
}

/// Each record of an insertion result is the new record or one of the old.
pub proof fn lemma_insert_sorted_contains(
    s: Seq<(Seq<u8>, Entry)>,
    name: Seq<u8>,
    e: Entry,
    k: int,
)
    requires
        0 <= k < insert_sorted(s, name, e).len(),
    ensures
        insert_sorted(s, name, e).len() == s.len() + 1,
        insert_sorted(s, name, e)[k] == (name, e) || exists|k2: int|
            0 <= k2 < s.len() && s[k2] == insert_sorted(s, name, e)[k],
    decreases s.len(),
{
    let out = insert_sorted(s, name, e);
    lemma_insert_sorted_len(s, name, e);
    if s.len() == 0 {
    } else if lex_lt(name, s[0].0) {
        if k > 0 {
            assert(out[k] == s[k - 1]);
        }
    } else {
        if k == 0 {
            assert(out[0] == s[0]);
        } else {
            let rest = s.drop_first();
            lemma_insert_sorted_contains(rest, name, e, k - 1);
            assert(out[k] == insert_sorted(rest, name, e)[k - 1]);
            if insert_sorted(rest, name, e)[k - 1] == (name, e) {
            } else {
                let k2 = choose|k2: int|
                    0 <= k2 < rest.len() && rest[k2] == insert_sorted(rest, name, e)[k - 1];
                assert(s[k2 + 1] == out[k]);
            }
        }
    }
}

/// Lexicographic order is transitive.
pub proof fn lemma_lex_trans(a: Seq<u8>, b: Seq<u8>, c: Seq<u8>)
    requires
        lex_lt(a, b),
        lex_lt(b, c),
    ensures
        lex_lt(a, c),
    decreases a.len(),
{
    if a.len() == 0 {
    } else if c.len() == 0 {
    } else {
        if a[0] == b[0] && b[0] == c[0] {
            lemma_lex_trans(a.drop_first(), b.drop_first(), c.drop_first());
        }
    }
}

/// Looking a name up after an insertion: the new name finds the new
/// record, every other name finds what it found before.
pub proof fn lemma_insert_sorted_lookup(
    s: Seq<(Seq<u8>, Entry)>,
    name: Seq<u8>,
    e: Entry,
    m: Seq<u8>,
)
    requires
        forall|k: int| 0 <= k < s.len() ==> (#[trigger] s[k]).0 != name,
    ensures
        lookup(insert_sorted(s, name, e), m) == if m == name {
            Some(e)
        } else {
            lookup(s, m)
        },
    decreases s.len(),
{
    let out = insert_sorted(s, name, e);
    if s.len() == 0 {
        if m != name {
            assert(lookup(out, m) == lookup(out.drop_first(), m));
            assert(out.drop_first() =~= Seq::<(Seq<u8>, Entry)>::empty());
        }
    } else if lex_lt(name, s[0].0) {
        assert(out.drop_first() =~= s);
        if m != name {
            assert(lookup(out, m) == lookup(s, m));
        }
    } else {
        let rest = s.drop_first();
        assert(forall|k: int| 0 <= k < rest.len() ==> (#[trigger] rest[k]).0 != name) by {
            assert(forall|k: int| 0 <= k < rest.len() ==> rest[k] == s[k + 1]);
        }
        lemma_insert_sorted_lookup(rest, name, e, m);
        assert(out[0] == s[0]);
        assert(out.drop_first() =~= insert_sorted(rest, name, e));
        if m == name {
            assert(s[0].0 != name);
        }
    }
}

/// The recursive insertion lands at the first position whose name is
/// above the new one, as a positional splice.
pub proof fn lemma_insert_sorted_at(s: Seq<(Seq<u8>, Entry)>, name: Seq<u8>, e: Entry, p: int)
    requires
        0 <= p <= s.len(),
        forall|k: int| 0 <= k < p ==> !lex_lt(name, (#[trigger] s[k]).0),
        p < s.len() ==> lex_lt(name, s[p].0),
    ensures
        insert_sorted(s, name, e) == s.take(p) + seq![(name, e)] + s.skip(p),
    decreases s.len(),
{
    if s.len() == 0 {
        assert(insert_sorted(s, name, e) =~= s.take(0) + seq![(name, e)] + s.skip(0));
    } else if lex_lt(name, s[0].0) {
        assert(p == 0);
        assert(insert_sorted(s, name, e) =~= s.take(0) + seq![(name, e)] + s.skip(0));
    } else {
        assert(p > 0);
        let rest = s.drop_first();
        assert(forall|k: int| 0 <= k < p - 1 ==> rest[k] == s[k + 1]);
        if p - 1 < rest.len() {
            assert(rest[p - 1] == s[p]);
        }
        lemma_insert_sorted_at(rest, name, e, p - 1);
        assert(insert_sorted(s, name, e) =~= s.take(p) + seq![(name, e)] + s.skip(p)) by {
            assert(insert_sorted(s, name, e) == seq![s[0]] + (rest.take(p - 1) + seq![(name, e)]
                + rest.skip(p - 1)));
            assert(forall|k: int| 0 <= k < p - 1 ==> #[trigger] rest.take(p - 1)[k] == s[k + 1]);
            assert(forall|k: int|
                0 <= k < rest.len() - (p - 1) ==> #[trigger] rest.skip(p - 1)[k] == s[k + p]);
        }
    }
}

/// Taking one more producer extends the payload running totals by one
/// payload.
pub proof fn lemma_payload_step(items: Seq<(Seq<u8>, Seq<u8>)>, i: int)
    requires
        0 <= i < items.len(),
    ensures
        payload_total(items.take(i + 1)) == payload_total(items.take(i)) + items[i].1.len(),
        payload_region(items.take(i + 1)) == payload_region(items.take(i)) + items[i].1,
    decreases i,
{
    if i == 0 {
        assert(items.take(1).drop_first() =~= items.take(0));
        assert(items.take(1)[0] == items[0]);
        assert(payload_region(items.take(0)) =~= Seq::<u8>::empty());
        assert(payload_region(items.take(1)) =~= payload_region(items.take(0)) + items[0].1);
    } else {
        let sub = items.drop_first();
        lemma_payload_step(sub, i - 1);
        assert(items.take(i + 1)[0] == items[0]);
        assert(items.take(i)[0] == items[0]);
        assert(items.take(i + 1).drop_first() =~= sub.take(i));
        assert(items.take(i).drop_first() =~= sub.take(i - 1));
        assert(sub.take(i - 1 + 1) =~= sub.take(i));
        assert(sub[i - 1] == items[i]);
        assert(payload_region(items.take(i + 1)) =~= payload_region(items.take(i)) + items[i].1);
    }
}

/// The index holds one record per producer.
pub proof fn lemma_build_table_len(items: Seq<(Seq<u8>, Seq<u8>)>, acc: Seq<(Seq<u8>, Entry)>, off: int)
    ensures
        build_table(items, acc, off).len() == acc.len() + items.len(),
    decreases items.len(),
{
    if items.len() > 0 {
        let e0 = Entry { offset: off as u64, length: items[0].1.len() as u64 };
        lemma_insert_sorted_len(acc, items[0].0, e0);
        lemma_build_table_len(items.drop_first(), insert_sorted(acc, items[0].0, e0), off + items[0].1.len());
    }
}

/// Every name in the built index is a producer's name or one carried in
/// from the accumulator.
pub proof fn lemma_build_table_names(
    items: Seq<(Seq<u8>, Seq<u8>)>,
    acc: Seq<(Seq<u8>, Entry)>,
    off: int,
    k: int,
)
    requires
        0 <= k < build_table(items, acc, off).len(),
    ensures
        names_of(items).contains(build_table(items, acc, off)[k].0) || (exists|k2: int|
            0 <= k2 < acc.len() && (#[trigger] acc[k2]).0 == build_table(items, acc, off)[k].0),
    decreases items.len(),
{
    if items.len() == 0 {
        assert(acc[k].0 == build_table(items, acc, off)[k].0);
    } else {
        let e0 = Entry { offset: off as u64, length: items[0].1.len() as u64 };
        let acc2 = insert_sorted(acc, items[0].0, e0);
        lemma_build_table_names(items.drop_first(), acc2, off + items[0].1.len(), k);
        let v = build_table(items, acc, off)[k].0;
        if names_of(items.drop_first()).contains(v) {
            let k2 = choose|k2: int|
                0 <= k2 < names_of(items.drop_first()).len() && #[trigger] names_of(
                    items.drop_first(),
                )[k2] == v;
            assert(names_of(items)[k2 + 1] == v);
            assert(names_of(items).contains(v));
        } else {
            let k2 = choose|k2: int| 0 <= k2 < acc2.len() && (#[trigger] acc2[k2]).0 == v;
            lemma_insert_sorted_contains(acc, items[0].0, e0, k2);
            if acc2[k2] == (items[0].0, e0) {
                assert(names_of(items)[0] == v);
                assert(names_of(items).contains(v));
            }
        }
    }
}

/// A record already in the accumulator, under a name no producer uses,
/// survives the fold untouched.
pub proof fn lemma_build_table_lookup_acc(
    items: Seq<(Seq<u8>, Seq<u8>)>,
    acc: Seq<(Seq<u8>, Entry)>,
    off: int,
    m: Seq<u8>,
)
    requires
        unique_names(names_of(items)),
        !names_of(items).contains(m),
        forall|x: int| 0 <= x < acc.len() ==> !names_of(items).contains((#[trigger] acc[x]).0),
    ensures
        lookup(build_table(items, acc, off), m) == lookup(acc, m),
    decreases items.len(),
{
    if items.len() > 0 {
        let e0 = Entry { offset: off as u64, length: items[0].1.len() as u64 };
        let acc2 = insert_sorted(acc, items[0].0, e0);
        let rest = items.drop_first();
        assert(names_of(items)[0] == items[0].0);
        assert(forall|k: int| 0 <= k < rest.len() ==> #[trigger] names_of(rest)[k] == names_of(
            items,
        )[k + 1]);
        assert(unique_names(names_of(rest)));
        assert(forall|x: int| 0 <= x < acc.len() ==> (#[trigger] acc[x]).0 != items[0].0);
        lemma_insert_sorted_lookup(acc, items[0].0, e0, m);
        assert(m != items[0].0);
        // the new accumulator's names still avoid the remaining producers
        assert forall|x: int| 0 <= x < acc2.len() implies !names_of(rest).contains(
            (#[trigger] acc2[x]).0,
        ) by {
            lemma_insert_sorted_contains(acc, items[0].0, e0, x);
            let v = acc2[x].0;
            if names_of(rest).contains(v) {
                let k2 = choose|k2: int|
                    0 <= k2 < names_of(rest).len() && #[trigger] names_of(rest)[k2] == v;
                assert(names_of(items)[k2 + 1] == v);
                assert(names_of(items).contains(v));
                if acc2[x] == (items[0].0, e0) {
                    assert(names_of(items)[0] == names_of(items)[k2 + 1]);
                }
            }
        }
        assert(!names_of(rest).contains(m)) by {
            if names_of(rest).contains(m) {
                let k2 = choose|k2: int|
                    0 <= k2 < names_of(rest).len() && #[trigger] names_of(rest)[k2] == m;
                assert(names_of(items)[k2 + 1] == m);
            }
        }
        lemma_build_table_lookup_acc(rest, acc2, off + items[0].1.len(), m);
    }
}

/// After folding in the first producer, the accumulator's names still
/// avoid the names of the remaining producers.
proof fn lemma_fold_step_disjoint(
    items: Seq<(Seq<u8>, Seq<u8>)>,
    acc: Seq<(Seq<u8>, Entry)>,
    off: int,
)
    requires
        items.len() > 0,
        unique_names(names_of(items)),
        forall|x: int| 0 <= x < acc.len() ==> !names_of(items).contains((#[trigger] acc[x]).0),
    ensures
        forall|x: int|
            0 <= x < insert_sorted(
                acc,
                items[0].0,
                Entry { offset: off as u64, length: items[0].1.len() as u64 },
            ).len() ==> !names_of(items.drop_first()).contains(
                (#[trigger] insert_sorted(
                    acc,
                    items[0].0,
                    Entry { offset: off as u64, length: items[0].1.len() as u64 },
                )[x]).0,
            ),
        unique_names(names_of(items.drop_first())),
        forall|j: int| 0 <= j < items.drop_first().len() ==> #[trigger] names_of(
            items.drop_first(),
        )[j] == names_of(items)[j + 1],
{
    let e0 = Entry { offset: off as u64, length: items[0].1.len() as u64 };
    let acc2 = insert_sorted(acc, items[0].0, e0);
    let rest = items.drop_first();
    assert(names_of(items)[0] == items[0].0);
    assert(forall|j: int| 0 <= j < rest.len() ==> #[trigger] names_of(rest)[j] == names_of(
        items,
    )[j + 1]);
    assert forall|x: int| 0 <= x < acc2.len() implies !names_of(rest).contains(
        (#[trigger] acc2[x]).0,
    ) by {
        lemma_insert_sorted_contains(acc, items[0].0, e0, x);
        let v = acc2[x].0;
        if names_of(rest).contains(v) {
            let k2 = choose|k2: int|
                0 <= k2 < names_of(rest).len() && #[trigger] names_of(rest)[k2] == v;
            assert(names_of(items)[k2 + 1] == v);
            assert(names_of(items).contains(v));
            if acc2[x] == (items[0].0, e0) {
                assert(names_of(items)[0] == names_of(items)[k2 + 1]);
            }
        }
    }
}

/// Looking up producer `k`'s name in the built index finds its record:
/// the offset where its payload went, and its payload's length.
pub proof fn lemma_build_table_lookup(
    items: Seq<(Seq<u8>, Seq<u8>)>,
    acc: Seq<(Seq<u8>, Entry)>,
    off: int,
    k: int,
)
    requires
        0 <= k < items.len(),
        unique_names(names_of(items)),
        forall|x: int| 0 <= x < acc.len() ==> !names_of(items).contains((#[trigger] acc[x]).0),
    ensures
        lookup(build_table(items, acc, off), items[k].0) == Some(
            Entry {
                offset: (off + payload_total(items.take(k))) as u64,
                length: items[k].1.len() as u64,
            },
        ),
    decreases items.len(),
{
    let e0 = Entry { offset: off as u64, length: items[0].1.len() as u64 };
    let acc2 = insert_sorted(acc, items[0].0, e0);
    let rest = items.drop_first();
    lemma_fold_step_disjoint(items, acc, off);
    assert(names_of(items)[0] == items[0].0);
    if k == 0 {
        assert(!names_of(rest).contains(items[0].0)) by {
            if names_of(rest).contains(items[0].0) {
                let k2 = choose|k2: int|
                    0 <= k2 < names_of(rest).len() && #[trigger] names_of(rest)[k2] == items[0].0;
                assert(names_of(items)[k2 + 1] == names_of(items)[0]);
            }
        }
        assert(forall|x: int| 0 <= x < acc.len() ==> (#[trigger] acc[x]).0 != items[0].0);
        lemma_insert_sorted_lookup(acc, items[0].0, e0, items[0].0);
        lemma_build_table_lookup_acc(rest, acc2, off + items[0].1.len(), items[0].0);
        assert(items.take(0) =~= Seq::<(Seq<u8>, Seq<u8>)>::empty());
    } else {
        lemma_build_table_lookup(rest, acc2, off + items[0].1.len(), k - 1);
        assert(rest[k - 1] == items[k]);
        assert(items.take(k).drop_first() =~= rest.take(k - 1));
        assert(items.take(k)[0] == items[0]);
        assert(payload_total(items.take(k)) == items[0].1.len() + payload_total(rest.take(k - 1)));
    }
}

/// Within the payload region, producer `k`'s payload stands at its
/// running offset.
pub proof fn lemma_payload_region_index(items: Seq<(Seq<u8>, Seq<u8>)>, k: int)
    requires
        0 <= k < items.len(),
    ensures
        payload_total(items.take(k)) + items[k].1.len() <= payload_region(items).len(),
        0 <= payload_total(items.take(k)),
        payload_region(items).subrange(
            payload_total(items.take(k)),
            payload_total(items.take(k)) + items[k].1.len(),
        ) == items[k].1,
    decreases k,
{
    lemma_payload_region_len(items);
    lemma_payload_step(items, k);
    lemma_payload_total_mono(items, k);
    lemma_payload_total_mono(items, k + 1);
    if k == 0 {
        assert(payload_region(items).subrange(0, items[0].1.len() as int) =~= items[0].1);
    } else {
        let rest = items.drop_first();
        lemma_payload_region_index(rest, k - 1);
        lemma_payload_region_len(rest);
        assert(items.take(k).drop_first() =~= rest.take(k - 1));
        assert(items.take(k)[0] == items[0]);
        let lo = payload_total(items.take(k));
        let lo2 = payload_total(rest.take(k - 1));
        let n0 = items[0].1.len() as int;
        assert(lo == n0 + lo2);
        assert(payload_region(items) == items[0].1 + payload_region(rest));
        assert(payload_region(items).subrange(lo, lo + items[k].1.len()) =~= payload_region(
            rest,
        ).subrange(lo2, lo2 + items[k].1.len())) by {
            assert(forall|x: int|
                0 <= x < payload_region(rest).len() ==> #[trigger] payload_region(items)[n0 + x]
                    == payload_region(rest)[x]);
        }
    }
}

/// What a lookup/extract of `name` against index `entries` and content `c`
/// yields.
pub enum ExtractOutcome {
    /// The payload's bytes.
    Payload(Seq<u8>),
    /// The name is not in the index.
    NotFound,
    /// The entry points outside the content.
    OutOfRange,
}

/// The outcome of extracting `name`.  A zero-length entry yields an empty
/// buffer without any read, so its offset is never inspected.
pub open spec fn extract_outcome(
    entries: Seq<(Seq<u8>, Entry)>,
    c: Seq<u8>,
    name: Seq<u8>,
) -> ExtractOutcome {
    match lookup(entries, name) {
        None => ExtractOutcome::NotFound,
        Some(e) => if e.length == 0 {
            ExtractOutcome::Payload(Seq::empty())
        } else if e.offset + e.length <= c.len() {
            ExtractOutcome::Payload(c.subrange(e.offset as int, e.offset + e.length))
        } else {
            ExtractOutcome::OutOfRange
        },
    }
}

/// **Round trip.**  For any producers with unique names that fit one
/// archive, the archive the create pipeline describes reads back to
/// exactly the index it built, and every name extracts exactly its
/// original payload — in any order, since each extraction depends only on
/// the index and the archive's bytes.
pub proof fn theorem_round_trip(items: Seq<(Seq<u8>, Seq<u8>)>)
    requires
        unique_names(names_of(items)),
        forall|k: int|
            0 <= k < items.len() ==> vstd::utf8::valid_utf8((#[trigger] items[k]).0) && items[
                k
            ].0.len() <= u64::MAX,
        items.len() <= u64::MAX,
        table_address(items) <= u64::MAX,
    ensures
        read_outcome(archive_bytes(items)) == ReadOutcome::Table(table_entries(items)),
        forall|k: int|
            0 <= k < items.len() ==> extract_outcome(
                table_entries(items),
                archive_bytes(items),
                (#[trigger] items[k]).0,
            ) == ExtractOutcome::Payload(items[k].1),
{
    let a = archive_bytes(items);
    let t = table_entries(items);
    let addr = table_address(items);
    let enc = encoded_table(t);
    let le = vstd::bytes::spec_u64_to_le_bytes(addr as u64);
    vstd::bytes::lemma_auto_spec_u64_to_from_le_bytes();
    lemma_payload_region_len(items);
    lemma_payload_total_nonneg(items);
    lemma_build_table_len(items, Seq::empty(), 28);
    assert(crate::codec::encoded_varint(t.len() as u64).len() >= 1);
    assert(a.len() == 28 + payload_total(items) + enc.len());

    // the three fixed regions of the archive
    assert(a.subrange(0, 20) =~= spec_signature());
    assert(a.subrange(20, 28) =~= le);
    assert(vstd::bytes::spec_u64_from_le_bytes(a.subrange(20, 28)) == addr as u64);

    // the index parses back to exactly the built table
    assert forall|k: int| 0 <= k < t.len() implies (#[trigger] t[k]).0.len() <= u64::MAX
        && vstd::utf8::valid_utf8(t[k].0) by {
        lemma_build_table_names(items, Seq::empty(), 28, k);
        let j = choose|j: int| 0 <= j < names_of(items).len() && #[trigger] names_of(items)[j] == t[k].0;
        assert(items[j].0 == t[k].0);
    }
    assert(crate::codec::wf_names(t));
    assert(a.subrange(addr, addr + enc.len()) =~= enc);
    crate::codec::lemma_parsed_table(a, addr, t);
    assert(read_outcome(a) == ReadOutcome::Table(t));

    // each producer's payload extracts unchanged
    assert forall|k: int| 0 <= k < items.len() implies extract_outcome(t, a, (#[trigger] items[k]).0)
        == ExtractOutcome::Payload(items[k].1) by {
        lemma_build_table_lookup(items, Seq::empty(), 28, k);
        lemma_payload_step(items, k);
        lemma_payload_total_mono(items, k);
        lemma_payload_total_mono(items, k + 1);
        let off = 28 + payload_total(items.take(k));
        let n = items[k].1.len() as int;
        let e = Entry { offset: off as u64, length: items[k].1.len() as u64 };
        assert(lookup(t, items[k].0) == Some(e));
        assert(e.offset as int == off);
        assert(e.length as int == n);
        if n == 0 {
            assert(items[k].1 =~= Seq::<u8>::empty());
        } else {
            assert(off + n <= a.len());
            lemma_payload_region_index(items, k);
            assert(a.subrange(off, off + n) =~= payload_region(items).subrange(
                payload_total(items.take(k)),
                payload_total(items.take(k)) + n,
            )) by {
                assert(forall|x: int|
                    0 <= x < payload_region(items).len() ==> a[28 + x] == #[trigger] payload_region(
                        items,
                    )[x]);
            }
        }
    }
}

/// **Signature tamper.**  Changing any single byte within the first 20
/// bytes of a readable archive makes the read pipeline fail with the
/// invalid-signature outcome, which carries the corrupted 20 bytes.
pub proof fn theorem_signature_tamper(c: Seq<u8>, i: int, b: u8)
    requires
        read_outcome(c) matches ReadOutcome::Table(_),
        0 <= i < 20,
        b != c[i],
    ensures
        read_outcome(c.update(i, b)) == ReadOutcome::BadSignature(c.update(i, b).subrange(0, 20)),
        c.update(i, b).subrange(0, 20) != spec_signature(),
{
    let t = c.update(i, b);
    assert(c.subrange(0, 20) == spec_signature());
    assert(t.subrange(0, 20)[i] == b);
    assert(spec_signature()[i] == c.subrange(0, 20)[i]);
    assert(t.subrange(0, 20) != spec_signature());
}

/// **Empty archive.**  With no producers the index address is 28 — the
/// signature and the address field alone precede the index — and the
/// archive reads back to an empty index.
pub proof fn theorem_empty_archive()
    ensures
        table_address(Seq::empty()) == 28,
        read_outcome(archive_bytes(Seq::empty())) == ReadOutcome::Table(
            Seq::<(Seq<u8>, Entry)>::empty(),
        ),
{
    let items = Seq::<(Seq<u8>, Seq<u8>)>::empty();
    assert(names_of(items) =~= Seq::<Seq<u8>>::empty());
    theorem_round_trip(items);
}

/// **Zero-length payload.**  A producer that writes no bytes gets an
/// index record with length 0, and extracting its name yields an empty
/// buffer whatever the archive's bytes hold at its offset.
pub proof fn theorem_zero_length_payload(items: Seq<(Seq<u8>, Seq<u8>)>, k: int, c: Seq<u8>)
    requires
        unique_names(names_of(items)),
        0 <= k < items.len(),
        items[k].1.len() == 0,
    ensures
        lookup(table_entries(items), items[k].0) == Some(
            Entry { offset: payload_offset(items, k) as u64, length: 0 },
        ),
        extract_outcome(table_entries(items), c, items[k].0) == ExtractOutcome::Payload(
            Seq::<u8>::empty(),
        ),
{
    lemma_build_table_lookup(items, Seq::empty(), 28, k);
}

/// **Unknown name.**  A name no record carries yields the not-found
/// outcome, whatever the archive holds.
pub proof fn theorem_unknown_name(entries: Seq<(Seq<u8>, Entry)>, c: Seq<u8>, name: Seq<u8>)
    requires
        forall|k: int| 0 <= k < entries.len() ==> (#[trigger] entries[k]).0 != name,
    ensures
        extract_outcome(entries, c, name) == ExtractOutcome::NotFound,
{
    lemma_lookup_exists(entries, name);
}

/// Among any names with a repetition there is a first position that
/// repeats an earlier name.
proof fn find_first_dup(names: Seq<Seq<u8>>, j: int)
    requires
        0 <= j < names.len(),
        exists|i: int| 0 <= i < j && names[i] == names[j],
    ensures
        exists|d: int| is_first_dup(names, d),
    decreases j,
{
    if unique_names(names.take(j)) {
        assert(is_first_dup(names, j));
    } else {
        let (x, y) = choose|x: int, y: int|
            0 <= x < y < j && #[trigger] names.take(j)[x] == #[trigger] names.take(j)[y];
        assert(names[x] == names[y]);
        find_first_dup(names, y);
    }
}

/// **Duplicate rejection.**  When two producers share a name, a first
/// repetition exists: the create pipeline stops there, and the name at
/// that position — the one its duplicate error carries — is one an
/// earlier producer already used.
pub proof fn theorem_first_duplicate(names: Seq<Seq<u8>>, i: int, j: int)
    requires
        0 <= i < j < names.len(),
        names[i] == names[j],
    ensures
        !unique_names(names),
        exists|d: int|
            is_first_dup(names, d) && (exists|e: int| 0 <= e < d && names[e] == names[d]),
{
    find_first_dup(names, j);
    let d = choose|d: int| is_first_dup(names, d);
    assert(is_first_dup(names, d) && (exists|e: int| 0 <= e < d && names[e] == names[d]));
}

} // verus!
