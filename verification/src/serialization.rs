use vstd::prelude::*;
use vstd::string::StringExecFns;
use vstd::utf8::{decode_utf8, encode_utf8, valid_utf8};

use crate::text::strings_view;

verus! {

/// Magic bytes identifying a serialized index of strings ("RFZI").
pub const FUZZY_INDEX_MAGIC: [u8; 4] = [82u8, 70u8, 90u8, 73u8];

/// Magic bytes identifying a serialized index of strings built for the web
/// ("RFUZ").
pub const FUZZY_INDEX_WASM_MAGIC: [u8; 4] = [82u8, 70u8, 85u8, 90u8];

/// Magic bytes identifying a serialized multi-key index ("RFKI").
pub const KEYED_INDEX_MAGIC: [u8; 4] = [82u8, 70u8, 75u8, 73u8];

/// Current serialization format version.
pub const SERIALIZE_VERSION: u32 = 1;

/// The four little-endian bytes of `x`.
pub open spec fn le_bytes(x: u32) -> Seq<u8> {
    seq![(x % 256) as u8, ((x / 256) % 256) as u8, ((x / 65536) % 256) as u8, (x / 16777216) as u8]
}

/// The little-endian `u32` stored at `off` in `b`.
pub open spec fn le_u32_at(b: Seq<u8>, off: int) -> u32 {
    (b[off] as int + b[off + 1] as int * 256 + b[off + 2] as int * 65536 + b[off + 3] as int
        * 16777216) as u32
}

pub(crate) fn push_u32_le(buf: &mut Vec<u8>, x: u32)
    ensures
        final(buf)@ == old(buf)@ + le_bytes(x),
{
    buf.push((x % 256) as u8);
    buf.push(((x / 256) % 256) as u8);
    buf.push(((x / 65536) % 256) as u8);
    buf.push((x / 16777216) as u8);
    proof {
        assert(final(buf)@ =~= old(buf)@ + le_bytes(x));
    }
}

pub(crate) fn push_bytes(buf: &mut Vec<u8>, b: &[u8])
    ensures
        final(buf)@ == old(buf)@ + b@,
{
    let mut i: usize = 0;
    while i < b.len()
        invariant
            i <= b.len(),
            buf@ == old(buf)@ + b@.take(i as int),
        decreases b.len() - i,
    {
        buf.push(b[i]);
        proof {
            assert(b@.take(i + 1) =~= b@.take(i as int).push(b@[i as int]));
            assert(buf@ =~= old(buf)@ + b@.take(i + 1));
        }
        i = i + 1;
    }
    proof {
        assert(b@.take(b.len() as int) =~= b@);
    }
}

/// The record of one item: its UTF-8 length as four little-endian bytes,
/// then its UTF-8 bytes.
pub open spec fn item_record(s: Seq<char>) -> Seq<u8> {
    le_bytes(encode_utf8(s).len() as u32) + encode_utf8(s)
}

/// The records of all items, in order.
pub open spec fn records(items: Seq<Seq<char>>) -> Seq<u8>
    decreases items.len(),
{
    if items.len() == 0 {
        seq![]
    } else {
        records(items.drop_last()) + item_record(items.last())
    }
}

/// The serialized form of a list of items: the magic bytes, the format
/// version and the item count (little-endian `u32` each), then one record
/// per item.
pub open spec fn serialized_items(items: Seq<Seq<char>>, magic: Seq<u8>) -> Seq<u8> {
    magic + le_bytes(SERIALIZE_VERSION) + le_bytes(items.len() as u32) + records(items)
}

/// Append the records of `items` to `buf`.
pub(crate) fn push_records(buf: &mut Vec<u8>, items: &[String])
    ensures
        final(buf)@ == old(buf)@ + records(strings_view(items@)),
{
    let ghost all = strings_view(items@);
    let ghost start = buf@;
    let mut i: usize = 0;
    while i < items.len()
        invariant
            i <= items.len(),
            all == strings_view(items@),
            buf@ == start + records(all.take(i as int)),
        decreases items.len() - i,
    {
        let bytes = items[i].as_str().as_bytes();
        push_u32_le(buf, bytes.len() as u32);
        push_bytes(buf, bytes);
        proof {
            assert(all.take(i + 1).drop_last() =~= all.take(i as int));
            assert(all.take(i + 1).last() == items@[i as int]@);
            assert(buf@ =~= start + records(all.take(i + 1)));
        }
        i = i + 1;
    }
    proof {
        assert(all.take(items.len() as int) =~= all);
    }
}

/// Serialize a list of items into the compact binary format described by
/// [`serialized_items`]. Counts and lengths are written as `u32`.
pub fn serialize_items(items: &[String], magic: &[u8; 4]) -> (r: Vec<u8>)
    ensures
        r@ == serialized_items(strings_view(items@), magic@),
{
    let mut buf: Vec<u8> = Vec::new();
    push_bytes(&mut buf, magic);
    push_u32_le(&mut buf, SERIALIZE_VERSION);
    push_u32_le(&mut buf, items.len() as u32);
    push_records(&mut buf, items);
    proof {
        assert(buf@ =~= serialized_items(strings_view(items@), magic@));
    }
    buf
}

} // verus!

verus! {

/// The text that the error of `std::str::from_utf8` shows (through
/// `Display`) for bytes that are not valid UTF-8.
pub uninterp spec fn utf8_error_text(b: Seq<u8>) -> Seq<char>;

/// Calls `std::str::from_utf8`. Its documentation: it returns `Ok` exactly
/// when the bytes are valid UTF-8, and then the string they encode. The
/// error is turned into its display text, which is named and not stated.
#[verifier::external_body]
fn str_from_utf8(b: &[u8]) -> (r: Result<&str, String>)
    ensures
        r is Ok <==> valid_utf8(b@),
        r matches Ok(s) ==> s@ == decode_utf8(b@),
        r matches Err(m) ==> m@ == utf8_error_text(b@),
{
    std::str::from_utf8(b).map_err(|e| e.to_string())
}

/// Reading `count` records from `off` on: the items read and the offset
/// after them, or the error message of the first record that fails.
pub open spec fn parse_records(b: Seq<u8>, off: int, count: nat) -> Result<
    (Seq<Seq<char>>, int),
    Seq<char>,
>
    decreases count,
{
    if count == 0 {
        Ok((seq![], off))
    } else {
        match parse_records(b, off, (count - 1) as nat) {
            Err(e) => Err(e),
            Ok((items, o)) => {
                if o + 4 > b.len() {
                    Err("Invalid data: truncated"@)
                } else {
                    let len = le_u32_at(b, o);
                    let start = o + 4;
                    if start + len > b.len() {
                        Err("Invalid data: truncated"@)
                    } else {
                        let sub = b.subrange(start, start + len);
                        if valid_utf8(sub) {
                            Ok((items.push(decode_utf8(sub)), start + len))
                        } else {
                            Err("Invalid UTF-8: "@ + utf8_error_text(sub))
                        }
                    }
                }
            },
        }
    }
}

/// What deserializing `b` with the given magic bytes yields: the items, or
/// the message of the first check that fails.
pub open spec fn deserialize_outcome(b: Seq<u8>, magic: Seq<u8>) -> Result<Seq<Seq<char>>, Seq<char>> {
    if b.len() < 12 {
        Err("Invalid data: too short"@)
    } else if b.subrange(0, 4) != magic {
        Err("Invalid data: bad magic bytes"@)
    } else if le_u32_at(b, 4) != SERIALIZE_VERSION {
        Err("Unsupported format version: expected 1, got "@ + crate::text::decimal(
            le_u32_at(b, 4) as nat,
        ))
    } else if le_u32_at(b, 8) > (b.len() - 12) / 4 {
        Err("Invalid data: item count exceeds payload size"@)
    } else {
        match parse_records(b, 12, le_u32_at(b, 8) as nat) {
            Err(e) => Err(e),
            Ok((items, off)) => if off != b.len() {
                Err("Invalid data: trailing bytes"@)
            } else {
                Ok(items)
            },
        }
    }
}

pub(crate) proof fn lemma_parse_error_persists(b: Seq<u8>, off: int, i: nat, count: nat)
    requires
        i <= count,
        parse_records(b, off, i) is Err,
    ensures
        parse_records(b, off, count) == parse_records(b, off, i),
    decreases count - i,
{
    if i < count {
        lemma_parse_error_persists(b, off, i, (count - 1) as nat);
    }
}

pub(crate) fn read_u32_le(b: &[u8], off: usize) -> (x: u32)
    requires
        off + 4 <= b@.len(),
    ensures
        x == le_u32_at(b@, off as int),
{
    let x = (b[off] as u32) + (b[off + 1] as u32) * 256 + (b[off + 2] as u32) * 65536 + (
    b[off + 3] as u32) * 16777216;
    x
}

pub(crate) fn bytes_eq(a: &[u8], b: &[u8]) -> (r: bool)
    ensures
        r == (a@ == b@),
{
    if a.len() != b.len() {
        return false;
    }
    let mut i: usize = 0;
    while i < a.len()
        invariant
            i <= a.len(),
            a@.len() == b@.len(),
            forall|k: int| 0 <= k < i ==> a@[k] == b@[k],
        decreases a.len() - i,
    {
        if a[i] != b[i] {
            return false;
        }
        i = i + 1;
    }
    proof {
        assert(a@ =~= b@);
    }
    true
}

pub(crate) fn message(s: &str) -> (r: String)
    ensures
        r@ == s@,
{
    String::from_str(s)
}

/// Read `count` records from `start` on: the items and the offset after
/// them, or the message of the first record that fails.
pub(crate) fn read_records(bytes: &[u8], start: usize, count: u32) -> (r: Result<(Vec<String>, usize), String>)
    requires
        start <= bytes@.len(),
    ensures
        match (r, parse_records(bytes@, start as int, count as nat)) {
            (Ok((v, off)), Ok((items, o))) => strings_view(v@) == items && off == o,
            (Err(m), Err(e)) => m@ == e,
            _ => false,
        },
{
    let mut offset: usize = start;
    let mut items: Vec<String> = Vec::new();
    let mut i: u32 = 0;
    proof {
        assert(strings_view(items@) =~= Seq::<Seq<char>>::empty());
    }
    while i < count
        invariant
            i <= count,
            start <= offset <= bytes@.len(),
            parse_records(bytes@, start as int, i as nat) == Ok::<(Seq<Seq<char>>, int), Seq<char>>(
                (strings_view(items@), offset as int),
            ),
        decreases count - i,
    {
        if bytes.len() < 4 || offset > bytes.len() - 4 {
            proof {
                lemma_parse_error_persists(bytes@, start as int, (i + 1) as nat, count as nat);
            }
            return Err(message("Invalid data: truncated"));
        }
        let len = read_u32_le(bytes, offset);
        offset = offset + 4;
        if len as usize > bytes.len() - offset {
            proof {
                lemma_parse_error_persists(bytes@, start as int, (i + 1) as nat, count as nat);
            }
            return Err(message("Invalid data: truncated"));
        }
        let sub = &bytes[offset..offset + len as usize];
        match str_from_utf8(sub) {
            Ok(s) => {
                let ghost before = strings_view(items@);
                items.push(String::from_str(s));
                proof {
                    assert(strings_view(items@) =~= before.push(s@));
                }
            },
            Err(e) => {
                proof {
                    lemma_parse_error_persists(bytes@, start as int, (i + 1) as nat, count as nat);
                }
                let mut m = message("Invalid UTF-8: ");
                m.append(e.as_str());
                return Err(m);
            },
        }
        offset = offset + len as usize;
        i = i + 1;
    }
    Ok((items, offset))
}

/// Deserialize a list of items from the compact binary format, or report
/// what is wrong with the bytes.
pub fn deserialize_items(bytes: &[u8], magic: &[u8; 4]) -> (r: Result<Vec<String>, String>)
    ensures
        match (r, deserialize_outcome(bytes@, magic@)) {
            (Ok(v), Ok(items)) => strings_view(v@) == items,
            (Err(m), Err(e)) => m@ == e,
            _ => false,
        },
{
    if bytes.len() < 12 {
        return Err(message("Invalid data: too short"));
    }
    if !bytes_eq(&bytes[0..4], magic) {
        return Err(message("Invalid data: bad magic bytes"));
    }
    let version = read_u32_le(bytes, 4);
    if version != SERIALIZE_VERSION {
        let mut m = message("Unsupported format version: expected 1, got ");
        let d = crate::text::u32_to_decimal(version);
        m.append(d.as_str());
        return Err(m);
    }
    let count = read_u32_le(bytes, 8);
    let max_possible = (bytes.len() - 12) / 4;
    if count as usize > max_possible {
        return Err(message("Invalid data: item count exceeds payload size"));
    }
    match read_records(bytes, 12, count) {
        Err(m) => Err(m),
        Ok((items, offset)) => {
            if offset != bytes.len() {
                return Err(message("Invalid data: trailing bytes"));
            }
            Ok(items)
        },
    }
}

} // verus!

verus! {

pub(crate) proof fn lemma_le_u32_of_bytes(x: u32)
    ensures
        le_u32_at(le_bytes(x), 0) == x,
{
    let b = le_bytes(x);
    assert(b[0] == (x % 256) as u8);
    assert(b[1] == ((x / 256) % 256) as u8);
    assert(b[2] == ((x / 65536) % 256) as u8);
    assert(b[3] == (x / 16777216) as u8);
    assert(((x % 256) as u8) as int + (((x / 256) % 256) as u8) as int * 256 + (((x / 65536)
        % 256) as u8) as int * 65536 + ((x / 16777216) as u8) as int * 16777216 == x as int)
        by (bit_vector);
}

pub(crate) proof fn lemma_bytes_of_le_u32(b: Seq<u8>, o: int)
    requires
        0 <= o,
        o + 4 <= b.len(),
    ensures
        le_bytes(le_u32_at(b, o)) == b.subrange(o, o + 4),
{
    let b0 = b[o];
    let b1 = b[o + 1];
    let b2 = b[o + 2];
    let b3 = b[o + 3];
    let x = le_u32_at(b, o);
    assert(x == (b0 as int + b1 as int * 256 + b2 as int * 65536 + b3 as int * 16777216) as u32);
    assert({
        let y = (b0 as int + b1 as int * 256 + b2 as int * 65536 + b3 as int * 16777216) as u32;
        &&& (y % 256) as u8 == b0
        &&& ((y / 256) % 256) as u8 == b1
        &&& ((y / 65536) % 256) as u8 == b2
        &&& (y / 16777216) as u8 == b3
    }) by (bit_vector);
    assert(le_bytes(x) =~= b.subrange(o, o + 4));
}

pub(crate) proof fn lemma_le_u32_shift(pre: Seq<u8>, b: Seq<u8>, rest: Seq<u8>, o: int)
    requires
        pre.len() == o,
        b.len() == 4,
    ensures
        le_u32_at(pre + b + rest, o) == le_u32_at(b, 0),
{
    let s = pre + b + rest;
    assert(s[o] == b[0]);
    assert(s[o + 1] == b[1]);
    assert(s[o + 2] == b[2]);
    assert(s[o + 3] == b[3]);
}

pub(crate) proof fn lemma_records_prefix(items: Seq<Seq<char>>, k: int)
    requires
        0 <= k <= items.len(),
    ensures
        records(items.take(k)).len() <= records(items).len(),
        records(items).subrange(0, records(items.take(k)).len() as int) == records(items.take(k)),
    decreases items.len(),
{
    if k == items.len() {
        assert(items.take(k) =~= items);
        assert(records(items).subrange(0, records(items).len() as int) =~= records(items));
    } else {
        let shorter = items.drop_last();
        lemma_records_prefix(shorter, k);
        assert(shorter.take(k) =~= items.take(k));
        let a = records(shorter);
        let p = records(items.take(k));
        assert(records(items) == a + item_record(items.last()));
        assert((a + item_record(items.last())).subrange(0, p.len() as int) =~= a.subrange(0, p.len() as int));
    }
}

pub(crate) proof fn lemma_records_len(items: Seq<Seq<char>>)
    ensures
        records(items).len() >= 4 * items.len(),
    decreases items.len(),
{
    if items.len() > 0 {
        lemma_records_len(items.drop_last());
    }
}

proof fn lemma_parse_serialized(items: Seq<Seq<char>>, magic: Seq<u8>, k: int)
    requires
        magic.len() == 4,
        0 <= k <= items.len(),
        items.len() <= u32::MAX,
        forall|i: int| 0 <= i < items.len() ==> encode_utf8(#[trigger] items[i]).len() <= u32::MAX,
    ensures
        parse_records(serialized_items(items, magic), 12, k as nat) == Ok::<(Seq<Seq<char>>, int), Seq<char>>(
            (items.take(k), 12 + records(items.take(k)).len() as int),
        ),
    decreases k,
{
    let b = serialized_items(items, magic);
    let head = magic + le_bytes(SERIALIZE_VERSION) + le_bytes(items.len() as u32);
    assert(b == head + records(items));
    assert(head.len() == 12);
    if k == 0 {
        assert(items.take(0) =~= Seq::<Seq<char>>::empty());
    } else {
        lemma_parse_serialized(items, magic, k - 1);
        let prev = items.take(k - 1);
        let cur = items.take(k);
        assert(cur.drop_last() =~= prev);
        assert(cur.last() == items[k - 1]);
        let s = items[k - 1];
        let enc = encode_utf8(s);
        let rec = item_record(s);
        assert(records(cur) == records(prev) + rec);
        lemma_records_prefix(items, k);
        let all = records(items);
        let o: int = 12 + records(prev).len() as int;
        assert(all.subrange(0, records(cur).len() as int) == records(cur));
        assert(forall|j: int| 0 <= j < rec.len() ==> b[o + j] == #[trigger] rec[j]) by {
            assert forall|j: int| 0 <= j < rec.len() implies b[o + j] == #[trigger] rec[j] by {
                assert(b[o + j] == all[records(prev).len() + j]);
                assert(all[records(prev).len() + j] == records(cur)[records(prev).len() + j]);
            }
        }
        assert(rec.len() == 4 + enc.len());
        assert(o + rec.len() <= b.len());
        let len: u32 = enc.len() as u32;
        assert(le_u32_at(b, o) == len) by {
            lemma_le_u32_of_bytes(len);
            assert(b[o] == rec[0]);
            assert(b[o + 1] == rec[1]);
            assert(b[o + 2] == rec[2]);
            assert(b[o + 3] == rec[3]);
            assert(rec[0] == le_bytes(len)[0]);
            assert(rec[1] == le_bytes(len)[1]);
            assert(rec[2] == le_bytes(len)[2]);
            assert(rec[3] == le_bytes(len)[3]);
        }
        assert(b.subrange(o + 4, o + 4 + len as int) =~= enc) by {
            assert forall|j: int| 0 <= j < enc.len() implies b.subrange(o + 4, o + 4 + len as int)[j] == enc[j] by {
                assert(b[o + 4 + j] == rec[4 + j]);
            }
        }
        vstd::utf8::encode_utf8_valid_utf8(s);
        vstd::utf8::encode_utf8_decode_utf8(s);
        assert(prev.push(s) =~= cur);
    }
}

/// Law: deserializing what [`serialize_items`] wrote gives back the same
/// items, for any magic bytes.
pub proof fn lemma_deserialize_serialized(items: Seq<Seq<char>>, magic: Seq<u8>)
    requires
        magic.len() == 4,
        items.len() <= u32::MAX,
        forall|i: int| 0 <= i < items.len() ==> encode_utf8(#[trigger] items[i]).len() <= u32::MAX,
    ensures
        deserialize_outcome(serialized_items(items, magic), magic) == Ok::<Seq<Seq<char>>, Seq<char>>(items),
{
    let b = serialized_items(items, magic);
    let n = items.len() as u32;
    lemma_parse_serialized(items, magic, items.len() as int);
    assert(items.take(items.len() as int) =~= items);
    lemma_records_len(items);
    assert(b.subrange(0, 4) =~= magic);
    lemma_le_u32_shift(magic, le_bytes(SERIALIZE_VERSION), le_bytes(n) + records(items), 4);
    assert(b =~= magic + le_bytes(SERIALIZE_VERSION) + (le_bytes(n) + records(items)));
    lemma_le_u32_of_bytes(SERIALIZE_VERSION);
    lemma_le_u32_shift(magic + le_bytes(SERIALIZE_VERSION), le_bytes(n), records(items), 8);
    lemma_le_u32_of_bytes(n);
}

proof fn lemma_parsed_records(b: Seq<u8>, k: nat, its: Seq<Seq<char>>, o: int)
    requires
        b.len() >= 12,
        parse_records(b, 12, k) == Ok::<(Seq<Seq<char>>, int), Seq<char>>((its, o)),
    ensures
        its.len() == k,
        12 <= o <= b.len(),
        b.subrange(12, o) == records(its),
    decreases k,
{
    if k == 0 {
        assert(b.subrange(12, 12) =~= records(its));
    } else {
        let (pits, po) = parse_records(b, 12, (k - 1) as nat)->Ok_0;
        lemma_parsed_records(b, (k - 1) as nat, pits, po);
        let len = le_u32_at(b, po);
        let start = po + 4;
        let sub = b.subrange(start, start + len);
        let s = decode_utf8(sub);
        assert(its == pits.push(s));
        assert(o == start + len);
        vstd::utf8::decode_utf8_encode_utf8(sub);
        assert(encode_utf8(s) == sub);
        lemma_bytes_of_le_u32(b, po);
        assert(its.drop_last() =~= pits);
        assert(records(its) == records(pits) + item_record(s));
        assert(item_record(s) =~= b.subrange(po, po + 4) + sub);
        assert(b.subrange(12, o) =~= b.subrange(12, po) + b.subrange(po, po + 4) + sub);
    }
}

/// Law: a successful deserialization only accepts the exact bytes that
/// [`serialize_items`] writes for the items it returns.
pub proof fn lemma_deserialized_is_serialized(b: Seq<u8>, magic: Seq<u8>, items: Seq<Seq<char>>)
    requires
        magic.len() == 4,
        deserialize_outcome(b, magic) == Ok::<Seq<Seq<char>>, Seq<char>>(items),
    ensures
        b == serialized_items(items, magic),
{
    let count = le_u32_at(b, 8);
    let (its, off) = parse_records(b, 12, count as nat)->Ok_0;
    lemma_parsed_records(b, count as nat, its, off);
    assert(its == items);
    lemma_bytes_of_le_u32(b, 4);
    lemma_bytes_of_le_u32(b, 8);
    assert(items.len() as u32 == count);
    assert(b =~= b.subrange(0, 4) + b.subrange(4, 8) + b.subrange(8, 12) + b.subrange(12, off));
}

} // verus!
