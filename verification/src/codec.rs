//! The serialization layer: a compact binary codec for the values the
//! record store persists — unsigned and signed scalars, strings, and
//! field-name-keyed records of strings.
//!
//! The format is internal and fixed by the spec functions here:
//! scalars are little-endian, a string is its UTF-8 byte length (as a
//! little-endian `u64`) followed by its UTF-8 bytes, and a record is
//! its entry count followed by each field name and value as strings,
//! in entry order. Decoding reconstructs exactly the encoded value and
//! fails cleanly on truncated or malformed input; the round-trip laws
//! are proved below.

use vstd::prelude::*;

use vstd::bytes::{
    lemma_auto_spec_u32_to_from_le_bytes, lemma_auto_spec_u64_to_from_le_bytes,
    spec_u32_from_le_bytes, spec_u32_to_le_bytes, spec_u64_from_le_bytes, spec_u64_to_le_bytes,
    u32_from_le_bytes, u32_to_le_bytes, u64_from_le_bytes, u64_to_le_bytes,
};
use vstd::slice::{slice_subrange, slice_to_vec};
use vstd::string::{StrSliceExecFns, StringExecFns};
use vstd::utf8::{
    decode_utf8, encode_utf8, encode_utf8_decode_utf8, encode_utf8_valid_utf8, valid_utf8,
};

use crate::types::{FieldName, StorageError};

verus! {

// ---------------------------------------------------------------------
// Scalars
// ---------------------------------------------------------------------
/// The encoding of a `u64`: its 8 bytes, little endian.
pub open spec fn spec_marshall_u64(v: u64) -> Seq<u8> {
    spec_u64_to_le_bytes(v)
}

/// The decoding of a `u64`: defined exactly on 8-byte inputs.
pub open spec fn spec_unmarshall_u64(bytes: Seq<u8>) -> Option<u64> {
    if bytes.len() == 8 {
        Some(spec_u64_from_le_bytes(bytes))
    } else {
        None
    }
}

/// The encoding of an `i32`: its two's-complement bits as 4 bytes,
/// little endian.
pub open spec fn spec_marshall_i32(v: i32) -> Seq<u8> {
    spec_u32_to_le_bytes(v as u32)
}

/// The decoding of an `i32`: defined exactly on 4-byte inputs.
pub open spec fn spec_unmarshall_i32(bytes: Seq<u8>) -> Option<i32> {
    if bytes.len() == 4 {
        Some(spec_u32_from_le_bytes(bytes) as i32)
    } else {
        None
    }
}

pub fn marshall_u64(v: u64) -> (bytes: Vec<u8>)
    ensures
        bytes@ == spec_marshall_u64(v),
{
    u64_to_le_bytes(v)
}

pub fn unmarshall_u64(data: &Vec<u8>) -> (result: Result<u64, StorageError>)
    ensures
        result is Ok <==> spec_unmarshall_u64(data@) is Some,
        result matches Ok(v) ==> spec_unmarshall_u64(data@) == Some(v),
{
    if data.len() == 8 {
        Ok(u64_from_le_bytes(data.as_slice()))
    } else {
        Err(StorageError(String::from_str("unsigned scalar payload must hold 8 bytes")))
    }
}

pub fn marshall_i32(v: i32) -> (bytes: Vec<u8>)
    ensures
        bytes@ == spec_marshall_i32(v),
{
    u32_to_le_bytes(v as u32)
}

pub fn unmarshall_i32(data: &Vec<u8>) -> (result: Result<i32, StorageError>)
    ensures
        result is Ok <==> spec_unmarshall_i32(data@) is Some,
        result matches Ok(v) ==> spec_unmarshall_i32(data@) == Some(v),
{
    if data.len() == 4 {
        Ok(u32_from_le_bytes(data.as_slice()) as i32)
    } else {
        Err(StorageError(String::from_str("signed scalar payload must hold 4 bytes")))
    }
}

// ---------------------------------------------------------------------
// Strings
// ---------------------------------------------------------------------
/// The encoding of a string: its UTF-8 byte length as a little-endian
/// `u64`, then its UTF-8 bytes.
pub open spec fn spec_marshall_str(s: Seq<char>) -> Seq<u8> {
    spec_u64_to_le_bytes(encode_utf8(s).len() as u64) + encode_utf8(s)
}

/// Reads a little-endian `u64` at `pos`; fails if fewer than 8 bytes
/// remain.
pub open spec fn spec_read_u64(bytes: Seq<u8>, pos: int) -> Option<(u64, int)> {
    if 0 <= pos && pos + 8 <= bytes.len() {
        Some((spec_u64_from_le_bytes(bytes.subrange(pos, pos + 8)), pos + 8))
    } else {
        None
    }
}

/// Reads a length-prefixed string at `pos`; fails if the input is
/// truncated or the prefixed bytes are not well-formed UTF-8.
pub open spec fn spec_read_str(bytes: Seq<u8>, pos: int) -> Option<(Seq<char>, int)> {
    match spec_read_u64(bytes, pos) {
        None => None,
        Some((n, p)) => {
            if p + n as int <= bytes.len() {
                let utf8 = bytes.subrange(p, p + n as int);
                if valid_utf8(utf8) {
                    Some((decode_utf8(utf8), p + n as int))
                } else {
                    None
                }
            } else {
                None
            }
        },
    }
}

/// The decoding of a string: a single length-prefixed string that
/// spans the whole input.
pub open spec fn spec_unmarshall_str(bytes: Seq<u8>) -> Option<Seq<char>> {
    match spec_read_str(bytes, 0) {
        None => None,
        Some((s, end)) => {
            if end == bytes.len() {
                Some(s)
            } else {
                None
            }
        },
    }
}

/// Relies on `String::from_utf8`: it succeeds exactly on well-formed
/// UTF-8 input, decoding it to the character sequence the bytes
/// encode under vstd's model of UTF-8.
#[verifier::external_body]
fn bytes_to_string(bytes: Vec<u8>) -> (result: Option<String>)
    ensures
        result is Some <==> valid_utf8(bytes@),
        result matches Some(s) ==> s@ == decode_utf8(bytes@),
{
    String::from_utf8(bytes).ok()
}

pub fn marshall_str(s: &String) -> (bytes: Vec<u8>)
    ensures
        bytes@ == spec_marshall_str(s@),
{
    let utf8: Vec<u8> = s.as_str().as_bytes_vec();
    let mut out = u64_to_le_bytes(utf8.len() as u64);
    let mut tail = utf8;
    out.append(&mut tail);
    out
}

/// Reads a little-endian `u64` at `pos`, returning it with the
/// position just past it.
fn read_u64_at(data: &Vec<u8>, pos: usize) -> (result: Option<(u64, usize)>)
    requires
        pos <= data@.len(),
    ensures
        match result {
            Some((v, next)) => {
                &&& spec_read_u64(data@, pos as int) == Some((v, next as int))
                &&& next <= data@.len()
            },
            None => spec_read_u64(data@, pos as int) is None,
        },
{
    if data.len() - pos >= 8 {
        let slice = slice_subrange(data.as_slice(), pos, pos + 8);
        Some((u64_from_le_bytes(slice), pos + 8))
    } else {
        None
    }
}

/// Reads a length-prefixed string at `pos`, returning it with the
/// position just past it.
fn read_str_at(data: &Vec<u8>, pos: usize) -> (result: Option<(String, usize)>)
    requires
        pos <= data@.len(),
    ensures
        match result {
            Some((s, next)) => {
                &&& spec_read_str(data@, pos as int) == Some((s@, next as int))
                &&& next <= data@.len()
            },
            None => spec_read_str(data@, pos as int) is None,
        },
{
    match read_u64_at(data, pos) {
        None => None,
        Some((n, p)) => {
            if n <= (data.len() - p) as u64 {
                let end = p + (n as usize);
                let utf8 = slice_to_vec(slice_subrange(data.as_slice(), p, end));
                match bytes_to_string(utf8) {
                    Some(s) => Some((s, end)),
                    None => None,
                }
            } else {
                None
            }
        },
    }
}

pub fn unmarshall_str(data: &Vec<u8>) -> (result: Result<String, StorageError>)
    ensures
        result is Ok <==> spec_unmarshall_str(data@) is Some,
        result matches Ok(s) ==> spec_unmarshall_str(data@) == Some(s@),
{
    match read_str_at(data, 0) {
        None => Err(StorageError(String::from_str("malformed string payload"))),
        Some((s, end)) => {
            if end == data.len() {
                Ok(s)
            } else {
                Err(StorageError(String::from_str("string payload has trailing bytes")))
            }
        },
    }
}

/// Reading a string from a buffer that starts with that string's
/// encoding at `pos` yields the string and stops just past it.
proof fn lemma_read_str_of_encoding(bytes: Seq<u8>, pos: int, s: Seq<char>)
    requires
        encode_utf8(s).len() <= u64::MAX,
        0 <= pos,
        pos + spec_marshall_str(s).len() <= bytes.len(),
        bytes.subrange(pos, pos + spec_marshall_str(s).len()) == spec_marshall_str(s),
    ensures
        spec_read_str(bytes, pos) == Some((s, pos + spec_marshall_str(s).len())),
{
    lemma_auto_spec_u64_to_from_le_bytes();
    let utf8 = encode_utf8(s);
    let n = utf8.len() as u64;
    let enc = spec_marshall_str(s);
    assert(enc.len() == 8 + utf8.len());
    assert(bytes.subrange(pos, pos + 8) =~= enc.subrange(0, 8));
    assert(enc.subrange(0, 8) =~= spec_u64_to_le_bytes(n));
    assert(spec_read_u64(bytes, pos) == Some((n, pos + 8)));
    assert(bytes.subrange(pos + 8, pos + 8 + n as int) =~= enc.subrange(8, enc.len() as int));
    assert(enc.subrange(8, enc.len() as int) =~= utf8);
    encode_utf8_valid_utf8(s);
    encode_utf8_decode_utf8(s);
}

/// Round-trip law for strings: decoding an encoding yields the
/// character sequence encoded, for every string whose UTF-8 form fits
/// the length prefix.
pub proof fn lemma_str_round_trip(s: Seq<char>)
    requires
        encode_utf8(s).len() <= u64::MAX,
    ensures
        spec_unmarshall_str(spec_marshall_str(s)) == Some(s),
{
    let enc = spec_marshall_str(s);
    assert(enc.subrange(0, enc.len() as int) =~= enc);
    lemma_read_str_of_encoding(enc, 0, s);
}

// ---------------------------------------------------------------------
// Records
// ---------------------------------------------------------------------
/// A record: an ephemeral mapping from field names to string values,
/// the serialization input/output of the record store. Held as a
/// sequence of entries in insertion order, with no field name twice.
#[derive(Debug, PartialEq)]
pub struct Record {
    entries: Vec<(FieldName, String)>,
}

/// The model of a list of record entries: each as a pair of field-name
/// characters and value characters, in list order.
pub open spec fn entries_view(entries: Seq<(FieldName, String)>) -> Seq<(Seq<char>, Seq<char>)> {
    entries.map_values(|e: (FieldName, String)| (e.0.0@, e.1@))
}

/// No field name occurs twice.
pub open spec fn distinct_keys(entries: Seq<(Seq<char>, Seq<char>)>) -> bool {
    forall|i: int, j: int|
        0 <= i < j < entries.len() ==> (#[trigger] entries[i]).0 != (#[trigger] entries[j]).0
}

/// Whether some entry carries the given field name.
pub open spec fn spec_record_contains(
    entries: Seq<(Seq<char>, Seq<char>)>,
    key: Seq<char>,
) -> bool {
    exists|i: int| 0 <= i < entries.len() && (#[trigger] entries[i]).0 == key
}

/// The value stored under the given field name, if any.
pub open spec fn spec_record_get(
    entries: Seq<(Seq<char>, Seq<char>)>,
    key: Seq<char>,
) -> Option<Seq<char>> {
    if spec_record_contains(entries, key) {
        let i = choose|i: int| 0 <= i < entries.len() && (#[trigger] entries[i]).0 == key;
        Some(entries[i].1)
    } else {
        None
    }
}

impl View for Record {
    type V = Seq<(Seq<char>, Seq<char>)>;

    closed spec fn view(&self) -> Seq<(Seq<char>, Seq<char>)> {
        entries_view(self.entries@)
    }
}

impl Record {
    /// Every field name occurs at most once.
    pub open spec fn wf(self) -> bool {
        distinct_keys(self@)
    }

    pub fn new() -> (record: Record)
        ensures
            record@.len() == 0,
            record.wf(),
    {
        Record { entries: Vec::new() }
    }

    pub fn len(&self) -> (n: usize)
        ensures
            n == self@.len(),
    {
        self.entries.len()
    }

    /// Binds `field` to `value`: replaces the value in place if the
    /// field is present, appends a new entry otherwise. Every other
    /// field keeps its value.
    pub fn set(&mut self, field: FieldName, value: String)
        requires
            old(self).wf(),
        ensures
            final(self).wf(),
            spec_record_get(final(self)@, field.0@) == Some(value@),
            forall|k: Seq<char>|
                k != field.0@ ==> #[trigger] spec_record_get(final(self)@, k) == spec_record_get(
                    old(self)@,
                    k,
                ),
            !spec_record_contains(old(self)@, field.0@) ==> final(self)@ == old(self)@.push(
                (field.0@, value@),
            ),
            spec_record_contains(old(self)@, field.0@) ==> exists|i: int|
                0 <= i < old(self)@.len() && old(self)@[i].0 == field.0@ && final(self)@ == old(
                    self,
                )@.update(i, (field.0@, value@)),
    {
        let n = self.entries.len();
        let mut i: usize = 0;
        while i < n
            invariant
                old(self).wf(),
                n == self.entries@.len(),
                i <= n,
                *self == *old(self),
                forall|j: int| 0 <= j < i ==> (#[trigger] self@[j]).0 != field.0@,
            decreases n - i,
        {
            if self.entries[i].0 == field {
                assert(self@[i as int].0 == field.0@);
                self.entries.set(i, (field, value));
                proof {
                    assert(self@ =~= old(self)@.update(i as int, (self@[i as int].0, value@)));
                    lemma_get_after_update(old(self)@, i as int, value@);
                }
                return ;
            }
            i += 1;
        }
        assert(!spec_record_contains(self@, field.0@));
        self.entries.push((field, value));
        proof {
            assert(self@ =~= old(self)@.push((self@.last().0, self@.last().1)));
            lemma_get_after_push(old(self)@, self@.last().0, self@.last().1);
        }
    }

    /// Point lookup of a field's value.
    pub fn get(&self, field: &FieldName) -> (result: Option<&String>)
        requires
            self.wf(),
        ensures
            match result {
                Some(v) => spec_record_get(self@, field.0@) == Some(v@),
                None => spec_record_get(self@, field.0@) is None,
            },
    {
        let n = self.entries.len();
        let mut i: usize = 0;
        while i < n
            invariant
                self.wf(),
                n == self.entries@.len(),
                i <= n,
                forall|j: int| 0 <= j < i ==> (#[trigger] self@[j]).0 != field.0@,
            decreases n - i,
        {
            if self.entries[i].0 == *field {
                assert(self@[i as int].0 == field.0@);
                assert(spec_record_get(self@, field.0@) == Some(self@[i as int].1));
                return Some(&self.entries[i].1);
            }
            i += 1;
        }
        assert(!spec_record_contains(self@, field.0@));
        None
    }
}

/// After a value is replaced in place, lookups see the new value under
/// that field and the old value under every other field.
proof fn lemma_get_after_update(entries: Seq<(Seq<char>, Seq<char>)>, at: int, value: Seq<char>)
    requires
        distinct_keys(entries),
        0 <= at < entries.len(),
    ensures
        distinct_keys(entries.update(at, (entries[at].0, value))),
        spec_record_get(entries.update(at, (entries[at].0, value)), entries[at].0) == Some(value),
        forall|k: Seq<char>|
            k != entries[at].0 ==> #[trigger] spec_record_get(
                entries.update(at, (entries[at].0, value)),
                k,
            ) == spec_record_get(entries, k),
{
    let updated = entries.update(at, (entries[at].0, value));
    assert(updated[at].0 == entries[at].0);
    assert forall|k: Seq<char>| k != entries[at].0 implies #[trigger] spec_record_get(updated, k)
        == spec_record_get(entries, k) by {
        assert(forall|i: int|
            0 <= i < entries.len() ==> (#[trigger] updated[i]).0 == entries[i].0);
        if spec_record_contains(entries, k) {
            let i = choose|i: int| 0 <= i < entries.len() && (#[trigger] entries[i]).0 == k;
            assert(updated[i].0 == k);
        }
        if spec_record_contains(updated, k) {
            let i = choose|i: int| 0 <= i < updated.len() && (#[trigger] updated[i]).0 == k;
            assert(entries[i].0 == k);
        }
    }
}

/// After a fresh field is appended, lookups see its value under that
/// field and the old value under every other field.
proof fn lemma_get_after_push(entries: Seq<(Seq<char>, Seq<char>)>, key: Seq<char>, value: Seq<char>)
    requires
        distinct_keys(entries),
        !spec_record_contains(entries, key),
    ensures
        distinct_keys(entries.push((key, value))),
        spec_record_get(entries.push((key, value)), key) == Some(value),
        forall|k: Seq<char>|
            k != key ==> #[trigger] spec_record_get(entries.push((key, value)), k)
                == spec_record_get(entries, k),
{
    let pushed = entries.push((key, value));
    assert(pushed[entries.len() as int].0 == key);
    assert forall|k: Seq<char>| k != key implies #[trigger] spec_record_get(pushed, k)
        == spec_record_get(entries, k) by {
        if spec_record_contains(entries, k) {
            let i = choose|i: int| 0 <= i < entries.len() && (#[trigger] entries[i]).0 == k;
            assert(pushed[i].0 == k);
        }
        if spec_record_contains(pushed, k) {
            let i = choose|i: int| 0 <= i < pushed.len() && (#[trigger] pushed[i]).0 == k;
            assert(i < entries.len());
            assert(entries[i].0 == k);
        }
    }
}

// ---------------------------------------------------------------------
// Record codec
// ---------------------------------------------------------------------
/// The encoding of a list of record entries: each field name and value
/// as a length-prefixed string, in list order.
pub open spec fn spec_marshall_entries(entries: Seq<(Seq<char>, Seq<char>)>) -> Seq<u8>
    decreases entries.len(),
{
    if entries.len() == 0 {
        Seq::empty()
    } else {
        spec_marshall_str(entries[0].0) + spec_marshall_str(entries[0].1) + spec_marshall_entries(
            entries.drop_first(),
        )
    }
}

/// The encoding of a record: its entry count as a little-endian `u64`,
/// then its entries.
pub open spec fn spec_marshall_record(entries: Seq<(Seq<char>, Seq<char>)>) -> Seq<u8> {
    spec_u64_to_le_bytes(entries.len() as u64) + spec_marshall_entries(entries)
}

/// Reads `count` entries starting at `pos`, each as two
/// length-prefixed strings.
pub open spec fn spec_read_entries(bytes: Seq<u8>, pos: int, count: nat) -> Option<
    (Seq<(Seq<char>, Seq<char>)>, int),
>
    decreases count,
{
    if count == 0 {
        Some((Seq::empty(), pos))
    } else {
        match spec_read_str(bytes, pos) {
            None => None,
            Some((key, p1)) => match spec_read_str(bytes, p1) {
                None => None,
                Some((value, p2)) => match spec_read_entries(bytes, p2, (count - 1) as nat) {
                    None => None,
                    Some((rest, end)) => Some((seq![(key, value)] + rest, end)),
                },
            },
        }
    }
}

/// The decoding of a record: a count, that many entries, nothing left
/// over, and no field name twice.
pub open spec fn spec_unmarshall_record(bytes: Seq<u8>) -> Option<Seq<(Seq<char>, Seq<char>)>> {
    match spec_read_u64(bytes, 0) {
        None => None,
        Some((count, p)) => match spec_read_entries(bytes, p, count as nat) {
            None => None,
            Some((entries, end)) => {
                if end == bytes.len() && distinct_keys(entries) {
                    Some(entries)
                } else {
                    None
                }
            },
        },
    }
}

/// Appending one entry to a list extends its encoding by that entry's
/// field name and value.
proof fn lemma_marshall_entries_push(
    entries: Seq<(Seq<char>, Seq<char>)>,
    entry: (Seq<char>, Seq<char>),
)
    ensures
        spec_marshall_entries(entries.push(entry)) == spec_marshall_entries(entries)
            + spec_marshall_str(entry.0) + spec_marshall_str(entry.1),
    decreases entries.len(),
{
    let pushed = entries.push(entry);
    if entries.len() == 0 {
        assert(pushed.drop_first() =~= entries);
        assert(pushed[0] == entry);
        assert(spec_marshall_entries(entries) == Seq::<u8>::empty());
        assert(spec_marshall_entries(pushed) == spec_marshall_str(entry.0) + spec_marshall_str(
            entry.1,
        ) + spec_marshall_entries(entries));
        assert(spec_marshall_entries(pushed) =~= spec_marshall_entries(entries)
            + spec_marshall_str(entry.0) + spec_marshall_str(entry.1));
    } else {
        assert(pushed[0] == entries[0]);
        assert(pushed.drop_first() =~= entries.drop_first().push(entry));
        lemma_marshall_entries_push(entries.drop_first(), entry);
        assert(spec_marshall_entries(pushed) == spec_marshall_str(entries[0].0)
            + spec_marshall_str(entries[0].1) + (spec_marshall_entries(entries.drop_first())
            + spec_marshall_str(entry.0) + spec_marshall_str(entry.1)));
        assert(spec_marshall_entries(pushed) =~= spec_marshall_entries(entries)
            + spec_marshall_str(entry.0) + spec_marshall_str(entry.1));
    }
}

/// Serializes a record to its compact binary encoding. The format can
/// represent every record, so this never fails.
pub fn marshall(record: &Record) -> (result: Result<Vec<u8>, StorageError>)
    requires
        record.wf(),
    ensures
        result is Ok,
        result matches Ok(bytes) ==> bytes@ == spec_marshall_record(record@),
{
    let n = record.entries.len();
    let mut out = u64_to_le_bytes(n as u64);
    let mut i: usize = 0;
    while i < n
        invariant
            n == record.entries@.len(),
            i <= n,
            out@ == spec_u64_to_le_bytes(n as u64) + spec_marshall_entries(record@.take(i as int)),
        decreases n - i,
    {
        let mut key_bytes = marshall_str(&record.entries[i].0.0);
        let mut value_bytes = marshall_str(&record.entries[i].1);
        out.append(&mut key_bytes);
        out.append(&mut value_bytes);
        proof {
            assert(record@.take(i + 1) =~= record@.take(i as int).push(record@[i as int]));
            lemma_marshall_entries_push(record@.take(i as int), record@[i as int]);
        }
        i += 1;
    }
    proof {
        assert(record@.take(n as int) =~= record@);
    }
    Ok(out)
}

/// Prefixes already-read entries onto the outcome of reading the
/// remaining ones.
spec fn prepend_entries(
    prefix: Seq<(Seq<char>, Seq<char>)>,
    rest: Option<(Seq<(Seq<char>, Seq<char>)>, int)>,
) -> Option<(Seq<(Seq<char>, Seq<char>)>, int)> {
    match rest {
        None => None,
        Some((entries, end)) => Some((prefix + entries, end)),
    }
}

proof fn lemma_prepend_compose(
    a: Seq<(Seq<char>, Seq<char>)>,
    b: Seq<(Seq<char>, Seq<char>)>,
    rest: Option<(Seq<(Seq<char>, Seq<char>)>, int)>,
)
    ensures
        prepend_entries(a, prepend_entries(b, rest)) == prepend_entries(a + b, rest),
{
    match rest {
        None => {},
        Some((entries, end)) => {
            assert(a + (b + entries) =~= (a + b) + entries);
        },
    }
}

/// Whether any field name occurs twice, decided by comparison.
fn keys_distinct(entries: &Vec<(FieldName, String)>) -> (result: bool)
    ensures
        result == distinct_keys(entries_view(entries@)),
{
    let n = entries.len();
    let mut i: usize = 0;
    while i < n
        invariant
            n == entries@.len(),
            i <= n,
            forall|a: int, b: int|
                0 <= a < b < entries@.len() && a < i ==> (#[trigger] entries_view(entries@)[a]).0
                    != (#[trigger] entries_view(entries@)[b]).0,
        decreases n - i,
    {
        let mut j: usize = i + 1;
        while j < n
            invariant
                n == entries@.len(),
                i < n,
                i + 1 <= j <= n,
                forall|b: int|
                    i < b < j ==> (#[trigger] entries_view(entries@)[b]).0 != entries_view(
                        entries@,
                    )[i as int].0,
            decreases n - j,
        {
            if entries[i].0 == entries[j].0 {
                assert(entries_view(entries@)[i as int].0 == entries_view(entries@)[j as int].0);
                return false;
            }
            j += 1;
        }
        i += 1;
    }
    true
}

/// Deserializes a record from its compact binary encoding, failing
/// cleanly on truncated or malformed input.
pub fn unmarshall(data: &Vec<u8>) -> (result: Result<Record, StorageError>)
    ensures
        result is Ok <==> spec_unmarshall_record(data@) is Some,
        result matches Ok(record) ==> {
            &&& spec_unmarshall_record(data@) == Some(record@)
            &&& record.wf()
        },
{
    let (count, start) = match read_u64_at(data, 0) {
        None => {
            return Err(StorageError(String::from_str("record payload is truncated")));
        },
        Some(x) => x,
    };
    let mut entries: Vec<(FieldName, String)> = Vec::new();
    let mut pos = start;
    let mut i: u64 = 0;
    proof {
        assert(entries_view(entries@) =~= Seq::<(Seq<char>, Seq<char>)>::empty());
        assert(prepend_entries(
            entries_view(entries@),
            spec_read_entries(data@, pos as int, count as nat),
        ) == spec_read_entries(data@, start as int, count as nat)) by {
            match spec_read_entries(data@, pos as int, count as nat) {
                None => {},
                Some((rest, end)) => {
                    assert(entries_view(entries@) + rest =~= rest);
                },
            }
        }
    }
    while i < count
        invariant
            i <= count,
            pos <= data@.len(),
            spec_read_u64(data@, 0) == Some((count, start as int)),
            spec_read_entries(data@, start as int, count as nat) == prepend_entries(
                entries_view(entries@),
                spec_read_entries(data@, pos as int, (count - i) as nat),
            ),
        decreases count - i,
    {
        let ghost remaining = (count - i) as nat;
        let (key, p1) = match read_str_at(data, pos) {
            None => {
                assert(spec_read_entries(data@, pos as int, remaining) is None);
                return Err(StorageError(String::from_str("record payload is truncated")));
            },
            Some(x) => x,
        };
        let (value, p2) = match read_str_at(data, p1) {
            None => {
                assert(spec_read_entries(data@, pos as int, remaining) is None);
                return Err(StorageError(String::from_str("record payload is truncated")));
            },
            Some(x) => x,
        };
        proof {
            assert(spec_read_entries(data@, pos as int, remaining) == prepend_entries(
                seq![(key@, value@)],
                spec_read_entries(data@, p2 as int, (remaining - 1) as nat),
            ));
            lemma_prepend_compose(
                entries_view(entries@),
                seq![(key@, value@)],
                spec_read_entries(data@, p2 as int, (remaining - 1) as nat),
            );
        }
        let ghost entries_before = entries@;
        entries.push((FieldName(key), value));
        proof {
            assert(entries_view(entries@) =~= entries_view(entries_before) + seq![
                (key@, value@),
            ]);
        }
        pos = p2;
        i += 1;
    }
    proof {
        assert(spec_read_entries(data@, pos as int, (count - i) as nat) == Some((
            Seq::<(Seq<char>, Seq<char>)>::empty(),
            pos as int,
        )));
        assert(entries_view(entries@) + Seq::<(Seq<char>, Seq<char>)>::empty() =~= entries_view(
            entries@,
        ));
    }
    if pos != data.len() {
        return Err(StorageError(String::from_str("record payload has trailing bytes")));
    }
    if !keys_distinct(&entries) {
        return Err(StorageError(String::from_str("record payload repeats a field name")));
    }
    let record = Record { entries };
    Ok(record)
}

// ---------------------------------------------------------------------
// Round-trip laws
// ---------------------------------------------------------------------
/// Every entry's field name and value fit the format's length prefix.
pub open spec fn entries_fit(entries: Seq<(Seq<char>, Seq<char>)>) -> bool {
    forall|i: int|
        #![trigger entries[i]]
        0 <= i < entries.len() ==> encode_utf8(entries[i].0).len() <= u64::MAX && encode_utf8(
            entries[i].1,
        ).len() <= u64::MAX
}

/// Reading entries from a buffer that holds their encoding at `pos`
/// yields exactly those entries and stops just past them.
proof fn lemma_read_entries_of_encoding(
    bytes: Seq<u8>,
    pos: int,
    entries: Seq<(Seq<char>, Seq<char>)>,
)
    requires
        entries_fit(entries),
        0 <= pos,
        pos + spec_marshall_entries(entries).len() <= bytes.len(),
        bytes.subrange(pos, pos + spec_marshall_entries(entries).len()) == spec_marshall_entries(
            entries,
        ),
    ensures
        spec_read_entries(bytes, pos, entries.len()) == Some((
            entries,
            pos + spec_marshall_entries(entries).len(),
        )),
    decreases entries.len(),
{
    if entries.len() == 0 {
        assert(entries =~= Seq::<(Seq<char>, Seq<char>)>::empty());
    } else {
        let entry = entries[0];
        let key_enc = spec_marshall_str(entry.0);
        let value_enc = spec_marshall_str(entry.1);
        let rest_enc = spec_marshall_entries(entries.drop_first());
        let enc = spec_marshall_entries(entries);
        assert(enc == key_enc + value_enc + rest_enc);
        let p1 = pos + key_enc.len();
        let p2 = p1 + value_enc.len();
        assert(bytes.subrange(pos, pos + key_enc.len()) =~= key_enc);
        lemma_read_str_of_encoding(bytes, pos, entry.0);
        assert forall|t: int| 0 <= t < value_enc.len() implies bytes.subrange(
            p1,
            p1 + value_enc.len(),
        )[t] == value_enc[t] by {
            assert(bytes.subrange(pos, pos + enc.len())[key_enc.len() + t] == enc[key_enc.len()
                + t]);
            assert(enc[key_enc.len() + t] == value_enc[t]);
        }
        assert(bytes.subrange(p1, p1 + value_enc.len()) =~= value_enc);
        lemma_read_str_of_encoding(bytes, p1, entry.1);
        assert forall|t: int| 0 <= t < rest_enc.len() implies bytes.subrange(
            p2,
            p2 + rest_enc.len(),
        )[t] == rest_enc[t] by {
            assert(bytes.subrange(pos, pos + enc.len())[key_enc.len() + value_enc.len() + t]
                == enc[key_enc.len() + value_enc.len() + t]);
            assert(enc[key_enc.len() + value_enc.len() + t] == rest_enc[t]);
        }
        assert(bytes.subrange(p2, p2 + rest_enc.len()) =~= rest_enc);
        assert forall|k: int| 0 <= k < entries.drop_first().len() implies #[trigger] entries.drop_first()[k]
            == entries[k + 1] by {}
        assert(entries_fit(entries.drop_first()));
        lemma_read_entries_of_encoding(bytes, p2, entries.drop_first());
        assert(seq![(entry.0, entry.1)] + entries.drop_first() =~= entries);
        assert(spec_read_entries(bytes, pos, entries.len()) == Some((
            entries,
            pos + enc.len(),
        )));
    }
}

/// Round-trip law for records: decoding an encoding yields the entry
/// list encoded, for every record with no repeated field name whose
/// parts fit the format's length prefixes.
pub proof fn lemma_record_round_trip(entries: Seq<(Seq<char>, Seq<char>)>)
    requires
        distinct_keys(entries),
        entries.len() <= u64::MAX,
        entries_fit(entries),
    ensures
        spec_unmarshall_record(spec_marshall_record(entries)) == Some(entries),
{
    let bytes = spec_marshall_record(entries);
    lemma_auto_spec_u64_to_from_le_bytes();
    assert(bytes.subrange(0, 8) =~= spec_u64_to_le_bytes(entries.len() as u64));
    assert(spec_read_u64(bytes, 0) == Some((entries.len() as u64, 8int)));
    assert(bytes.subrange(8, 8 + spec_marshall_entries(entries).len() as int)
        =~= spec_marshall_entries(entries));
    lemma_read_entries_of_encoding(bytes, 8, entries);
}

/// Round-trip law for `u64`: decoding an encoding yields the value
/// encoded.
pub proof fn lemma_u64_round_trip(v: u64)
    ensures
        spec_unmarshall_u64(spec_marshall_u64(v)) == Some(v),
{
    lemma_auto_spec_u64_to_from_le_bytes();
}

/// Round-trip law for `i32`: decoding an encoding yields the value
/// encoded.
pub proof fn lemma_i32_round_trip(v: i32)
    ensures
        spec_unmarshall_i32(spec_marshall_i32(v)) == Some(v),
{
    lemma_auto_spec_u32_to_from_le_bytes();
    assert((v as u32) as i32 == v) by (bit_vector);
}

} // verus!
