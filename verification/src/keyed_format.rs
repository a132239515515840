use vstd::prelude::*;
use vstd::string::StringExecFns;
use vstd::utf8::encode_utf8;

use crate::serialization::{
    bytes_eq, item_record, le_bytes, le_u32_at, lemma_le_u32_of_bytes, lemma_records_prefix,
    message, parse_records, push_bytes, push_records, push_u32_le, read_records, read_u32_le,
    records, SERIALIZE_VERSION,
};
use crate::text::{decimal, strings_view, u32_to_decimal};

verus! {

broadcast use vstd::seq_lib::group_seq_properties;

/// The eight little-endian bytes of `x`: its low half, then its high half.
pub open spec fn le_bytes64(x: u64) -> Seq<u8> {
    le_bytes((x % 0x1_0000_0000) as u32) + le_bytes((x / 0x1_0000_0000) as u32)
}

/// The little-endian `u64` stored at `off` in `b`.
pub open spec fn le_u64_at(b: Seq<u8>, off: int) -> u64 {
    (le_u32_at(b, off) as int + le_u32_at(b, off + 4) as int * 0x1_0000_0000) as u64
}

/// The bytes of all weights, in order.
pub open spec fn weight_bytes(ws: Seq<u64>) -> Seq<u8>
    decreases ws.len(),
{
    if ws.len() == 0 {
        seq![]
    } else {
        weight_bytes(ws.drop_last()) + le_bytes64(ws.last())
    }
}

/// The records of every column, column after column.
pub open spec fn column_records(cols: Seq<Seq<Seq<char>>>) -> Seq<u8>
    decreases cols.len(),
{
    if cols.len() == 0 {
        seq![]
    } else {
        column_records(cols.drop_last()) + records(cols.last())
    }
}

/// The character sequences of each column of strings.
pub open spec fn columns_view(cols: Seq<Vec<String>>) -> Seq<Seq<Seq<char>>> {
    cols.map_values(|c: Vec<String>| strings_view(c@))
}

/// The serialized form of a multi-key index: the magic bytes, the format
/// version, the number of weights and the length of the first column
/// (little-endian `u32` each), each weight as eight little-endian bytes,
/// then the records of each column in turn.
pub open spec fn serialized_keyed(cols: Seq<Seq<Seq<char>>>, weights: Seq<u64>, magic: Seq<u8>) -> Seq<u8> {
    let num_items: nat = if cols.len() == 0 {
        0
    } else {
        cols[0].len()
    };
    magic + le_bytes(SERIALIZE_VERSION) + le_bytes(weights.len() as u32) + le_bytes(num_items as u32)
        + weight_bytes(weights) + column_records(cols)
}

/// Reading `nk` columns of `ni` records each from `off` on.
pub open spec fn parse_columns(b: Seq<u8>, off: int, nk: nat, ni: nat) -> Result<
    (Seq<Seq<Seq<char>>>, int),
    Seq<char>,
>
    decreases nk,
{
    if nk == 0 {
        Ok((seq![], off))
    } else {
        match parse_columns(b, off, (nk - 1) as nat, ni) {
            Err(e) => Err(e),
            Ok((cols, o)) => match parse_records(b, o, ni) {
                Err(e) => Err(e),
                Ok((col, o2)) => Ok((cols.push(col), o2)),
            },
        }
    }
}

/// What deserializing a multi-key index yields: its columns and weights, or
/// the message of the first check that fails.
pub open spec fn deserialize_keyed_outcome(b: Seq<u8>, magic: Seq<u8>) -> Result<
    (Seq<Seq<Seq<char>>>, Seq<u64>),
    Seq<char>,
> {
    if b.len() < 16 {
        Err("Invalid data: too short"@)
    } else if b.subrange(0, 4) != magic {
        Err("Invalid data: bad magic bytes"@)
    } else if le_u32_at(b, 4) != SERIALIZE_VERSION {
        Err("Unsupported format version: expected 1, got "@ + decimal(le_u32_at(b, 4) as nat))
    } else {
        let nk = le_u32_at(b, 8);
        let ni = le_u32_at(b, 12);
        if 16 + nk * 8 > b.len() {
            Err("Invalid data: truncated weights"@)
        } else {
            let ws = Seq::new(nk as nat, |i: int| le_u64_at(b, 16 + 8 * i));
            match parse_columns(b, 16 + nk * 8, nk as nat, ni as nat) {
                Err(e) => Err(e),
                Ok((cols, off)) => if off != b.len() {
                    Err("Invalid data: trailing bytes"@)
                } else {
                    Ok((cols, ws))
                },
            }
        }
    }
}

fn push_u64_le(buf: &mut Vec<u8>, x: u64)
    ensures
        final(buf)@ == old(buf)@ + le_bytes64(x),
{
    push_u32_le(buf, (x % 0x1_0000_0000) as u32);
    push_u32_le(buf, (x / 0x1_0000_0000) as u32);
    proof {
        assert(final(buf)@ =~= old(buf)@ + le_bytes64(x));
    }
}

fn read_u64_le(b: &[u8], off: usize) -> (x: u64)
    requires
        off + 8 <= b.len(),
    ensures
        x == le_u64_at(b@, off as int),
{
    let lo = read_u32_le(b, off) as u64;
    let hi = read_u32_le(b, off + 4) as u64;
    lo + hi * 0x1_0000_0000
}

/// Serialize a multi-key index: `key_texts[k]` holds the texts of key `k`,
/// one per item, and `weight_bits` the bit patterns of the key weights.
pub fn serialize_keyed(key_texts: &[Vec<String>], weight_bits: &[u64], magic: &[u8; 4]) -> (r: Vec<u8>)
    ensures
        r@ == serialized_keyed(columns_view(key_texts@), weight_bits@, magic@),
{
    let ghost cols = columns_view(key_texts@);
    let num_items: usize = if key_texts.len() == 0 {
        0
    } else {
        key_texts[0].len()
    };
    let mut buf: Vec<u8> = Vec::new();
    push_bytes(&mut buf, magic);
    push_u32_le(&mut buf, SERIALIZE_VERSION);
    push_u32_le(&mut buf, weight_bits.len() as u32);
    push_u32_le(&mut buf, num_items as u32);
    let ghost head = buf@;
    let mut w: usize = 0;
    while w < weight_bits.len()
        invariant
            w <= weight_bits.len(),
            buf@ == head + weight_bytes(weight_bits@.take(w as int)),
        decreases weight_bits.len() - w,
    {
        push_u64_le(&mut buf, weight_bits[w]);
        proof {
            assert(weight_bits@.take(w + 1).drop_last() == weight_bits@.take(w as int));
            assert(buf@ =~= head + weight_bytes(weight_bits@.take(w + 1)));
        }
        w = w + 1;
    }
    proof {
        assert(weight_bits@.take(weight_bits.len() as int) == weight_bits@);
    }
    let ghost mid = buf@;
    let mut k: usize = 0;
    while k < key_texts.len()
        invariant
            k <= key_texts.len(),
            cols == columns_view(key_texts@),
            buf@ == mid + column_records(cols.take(k as int)),
        decreases key_texts.len() - k,
    {
        push_records(&mut buf, key_texts[k].as_slice());
        proof {
            assert(cols.take(k + 1).drop_last() == cols.take(k as int));
            assert(cols.take(k + 1).last() == strings_view(key_texts@[k as int]@));
            assert(buf@ =~= mid + column_records(cols.take(k + 1)));
        }
        k = k + 1;
    }
    proof {
        assert(cols.take(key_texts.len() as int) == cols);
        if key_texts.len() > 0 {
            assert(cols[0].len() == key_texts@[0]@.len());
        }
        assert(buf@ =~= serialized_keyed(cols, weight_bits@, magic@));
    }
    buf
}

/// Deserialize a multi-key index into its key texts and weight bit
/// patterns, or report what is wrong with the bytes.
pub fn deserialize_keyed(bytes: &[u8], magic: &[u8; 4]) -> (r: Result<(Vec<Vec<String>>, Vec<u64>), String>)
    ensures
        match (r, deserialize_keyed_outcome(bytes@, magic@)) {
            (Ok((cols, ws)), Ok((c, w))) => columns_view(cols@) == c && ws@ == w,
            (Err(m), Err(e)) => m@ == e,
            _ => false,
        },
{
    if bytes.len() < 16 {
        return Err(message("Invalid data: too short"));
    }
    if !bytes_eq(&bytes[0..4], magic) {
        return Err(message("Invalid data: bad magic bytes"));
    }
    let version = read_u32_le(bytes, 4);
    if version != SERIALIZE_VERSION {
        let mut m = message("Unsupported format version: expected 1, got ");
        let d = u32_to_decimal(version);
        m.append(d.as_str());
        return Err(m);
    }
    let num_keys = read_u32_le(bytes, 8);
    let num_items = read_u32_le(bytes, 12);
    if 16 + (num_keys as u64) * 8 > bytes.len() as u64 {
        return Err(message("Invalid data: truncated weights"));
    }
    let ghost ws_spec = Seq::new(num_keys as nat, |i: int| le_u64_at(bytes@, 16 + 8 * i));
    proof {
        assert(bytes@.subrange(0, 4) == magic@);
    }
    let mut weights: Vec<u64> = Vec::new();
    let mut offset: usize = 16;
    let mut w: u32 = 0;
    while w < num_keys
        invariant
            w <= num_keys,
            bytes@.len() == bytes.len(),
            16 + (num_keys as int) * 8 <= bytes@.len(),
            offset == 16 + 8 * w,
            weights@ == ws_spec.take(w as int),
            ws_spec == Seq::new(num_keys as nat, |i: int| le_u64_at(bytes@, 16 + 8 * i)),
        decreases num_keys - w,
    {
        let x = read_u64_le(bytes, offset);
        weights.push(x);
        proof {
            assert(weights@ =~= ws_spec.take(w + 1));
        }
        offset = offset + 8;
        w = w + 1;
    }
    proof {
        assert(ws_spec.take(num_keys as int) == ws_spec);
    }
    let mut key_texts: Vec<Vec<String>> = Vec::new();
    let mut k: u32 = 0;
    proof {
        assert(columns_view(key_texts@) =~= Seq::<Seq<Seq<char>>>::empty());
    }
    while k < num_keys
        invariant
            k <= num_keys,
            bytes@.len() >= 16,
            bytes@.subrange(0, 4) == magic@,
            le_u32_at(bytes@, 4) == SERIALIZE_VERSION,
            num_keys == le_u32_at(bytes@, 8),
            num_items == le_u32_at(bytes@, 12),
            weights@ == ws_spec,
            ws_spec == Seq::new(num_keys as nat, |i: int| le_u64_at(bytes@, 16 + 8 * i)),
            16 + (num_keys as int) * 8 <= bytes@.len(),
            offset <= bytes@.len(),
            parse_columns(bytes@, 16 + num_keys * 8, k as nat, num_items as nat) == Ok::<
                (Seq<Seq<Seq<char>>>, int),
                Seq<char>,
            >((columns_view(key_texts@), offset as int)),
        decreases num_keys - k,
    {
        match read_records(bytes, offset, num_items) {
            Err(m) => {
                proof {
                    lemma_columns_error_persists(bytes@, 16 + num_keys * 8, (k + 1) as nat, num_keys as nat, num_items as nat);
                }
                return Err(m);
            },
            Ok((col, off)) => {
                let ghost before = columns_view(key_texts@);
                key_texts.push(col);
                proof {
                    assert(columns_view(key_texts@) =~= before.push(strings_view(col@)));
                }
                offset = off;
            },
        }
        k = k + 1;
    }
    if offset != bytes.len() {
        return Err(message("Invalid data: trailing bytes"));
    }
    Ok((key_texts, weights))
}

proof fn lemma_columns_error_persists(b: Seq<u8>, off: int, i: nat, nk: nat, ni: nat)
    requires
        i <= nk,
        parse_columns(b, off, i, ni) is Err,
    ensures
        parse_columns(b, off, nk, ni) == parse_columns(b, off, i, ni),
    decreases nk - i,
{
    if i < nk {
        lemma_columns_error_persists(b, off, i, (nk - 1) as nat, ni);
    }
}

/// Reading the records of `items` where they are laid out at `p` in `b`.
proof fn lemma_parse_records_at(b: Seq<u8>, p: int, items: Seq<Seq<char>>, k: int)
    requires
        0 <= p,
        0 <= k <= items.len(),
        p + records(items).len() <= b.len(),
        b.subrange(p, p + records(items).len()) == records(items),
        forall|i: int| 0 <= i < items.len() ==> encode_utf8(#[trigger] items[i]).len() <= u32::MAX,
    ensures
        parse_records(b, p, k as nat) == Ok::<(Seq<Seq<char>>, int), Seq<char>>(
            (items.take(k), p + records(items.take(k)).len() as int),
        ),
    decreases k,
{
    if k == 0 {
        assert(items.take(0) =~= Seq::<Seq<char>>::empty());
    } else {
        lemma_parse_records_at(b, p, items, k - 1);
        let prev = items.take(k - 1);
        let cur = items.take(k);
        assert(cur.drop_last() =~= prev);
        assert(cur.last() == items[k - 1]);
        let s = items[k - 1];
        let enc = encode_utf8(s);
        let rec = item_record(s);
        assert(records(cur) == records(prev) + rec);
        lemma_records_prefix(items, k);
        let all = records(items);
        let o: int = p + records(prev).len() as int;
        assert(all.subrange(0, records(cur).len() as int) == records(cur));
        assert(forall|j: int| 0 <= j < rec.len() ==> b[o + j] == #[trigger] rec[j]) by {
            assert forall|j: int| 0 <= j < rec.len() implies b[o + j] == #[trigger] rec[j] by {
                assert(b.subrange(p, p + records(items).len())[records(prev).len() + j] == b[o + j]);
                assert(all[records(prev).len() + j] == records(cur)[records(prev).len() + j]);
            }
        }
        assert(rec.len() == 4 + enc.len());
        let len: u32 = enc.len() as u32;
        assert(le_u32_at(b, o) == len) by {
            lemma_le_u32_of_bytes(len);
            assert(b[o] == rec[0]);
            assert(b[o + 1] == rec[1]);
            assert(b[o + 2] == rec[2]);
            assert(b[o + 3] == rec[3]);
            assert(rec[0] == le_bytes(len)[0]);
            assert(rec[1] == le_bytes(len)[1]);
            assert(rec[2] == le_bytes(len)[2]);
            assert(rec[3] == le_bytes(len)[3]);
        }
        assert(b.subrange(o + 4, o + 4 + len as int) =~= enc) by {
            assert forall|j: int| 0 <= j < enc.len() implies b.subrange(o + 4, o + 4 + len as int)[j] == enc[j] by {
                assert(b[o + 4 + j] == rec[4 + j]);
            }
        }
        vstd::utf8::encode_utf8_valid_utf8(s);
        vstd::utf8::encode_utf8_decode_utf8(s);
        assert(prev.push(s) =~= cur);
    }
}

proof fn lemma_column_records_prefix(cols: Seq<Seq<Seq<char>>>, k: int)
    requires
        0 <= k <= cols.len(),
    ensures
        column_records(cols.take(k)).len() <= column_records(cols).len(),
        column_records(cols).subrange(0, column_records(cols.take(k)).len() as int) == column_records(
            cols.take(k),
        ),
    decreases cols.len(),
{
    if k == cols.len() {
        assert(cols.take(k) =~= cols);
        assert(column_records(cols).subrange(0, column_records(cols).len() as int) =~= column_records(cols));
    } else {
        let shorter = cols.drop_last();
        lemma_column_records_prefix(shorter, k);
        assert(shorter.take(k) =~= cols.take(k));
        let a = column_records(shorter);
        let q = column_records(cols.take(k));
        assert((a + records(cols.last())).subrange(0, q.len() as int) =~= a.subrange(0, q.len() as int));
    }
}

/// Reading `k` columns of `ni` records where the columns are laid out at `p`.
proof fn lemma_parse_columns_at(b: Seq<u8>, p: int, cols: Seq<Seq<Seq<char>>>, ni: nat, k: int)
    requires
        0 <= p,
        0 <= k <= cols.len(),
        p + column_records(cols).len() <= b.len(),
        b.subrange(p, p + column_records(cols).len()) == column_records(cols),
        forall|c: int| 0 <= c < cols.len() ==> (#[trigger] cols[c]).len() == ni,
        forall|c: int, i: int|
            0 <= c < cols.len() && 0 <= i < cols[c].len() ==> encode_utf8(#[trigger] cols[c][i]).len()
                <= u32::MAX,
    ensures
        parse_columns(b, p, k as nat, ni) == Ok::<(Seq<Seq<Seq<char>>>, int), Seq<char>>(
            (cols.take(k), p + column_records(cols.take(k)).len() as int),
        ),
    decreases k,
{
    if k == 0 {
        assert(cols.take(0) =~= Seq::<Seq<Seq<char>>>::empty());
    } else {
        lemma_parse_columns_at(b, p, cols, ni, k - 1);
        let prev = cols.take(k - 1);
        let cur = cols.take(k);
        assert(cur.drop_last() =~= prev);
        let col = cols[k - 1];
        assert(column_records(cur) == column_records(prev) + records(col));
        lemma_column_records_prefix(cols, k);
        let all = column_records(cols);
        let o: int = p + column_records(prev).len() as int;
        assert(b.subrange(o, o + records(col).len()) =~= records(col)) by {
            assert forall|j: int| 0 <= j < records(col).len() implies b.subrange(o, o + records(col).len())[j]
                == records(col)[j] by {
                assert(b.subrange(p, p + all.len())[column_records(prev).len() + j] == b[o + j]);
                assert(all.subrange(0, column_records(cur).len() as int)[column_records(prev).len() + j]
                    == column_records(cur)[column_records(prev).len() + j]);
            }
        }
        assert forall|i: int| 0 <= i < col.len() implies encode_utf8(#[trigger] col[i]).len() <= u32::MAX by {
            assert(encode_utf8(cols[k - 1][i]).len() <= u32::MAX);
        }
        lemma_parse_records_at(b, o, col, col.len() as int);
        assert(col.take(col.len() as int) =~= col);
        assert(prev.push(col) =~= cur);
    }
}

proof fn lemma_weight_bytes_layout(ws: Seq<u64>, i: int)
    requires
        0 <= i < ws.len(),
    ensures
        weight_bytes(ws).len() == 8 * ws.len(),
        weight_bytes(ws).subrange(8 * i, 8 * i + 8) == le_bytes64(ws[i]),
    decreases ws.len(),
{
    lemma_weight_bytes_len(ws);
    let shorter = ws.drop_last();
    lemma_weight_bytes_len(shorter);
    if i < ws.len() - 1 {
        lemma_weight_bytes_layout(shorter, i);
        assert(weight_bytes(ws).subrange(8 * i, 8 * i + 8) =~= weight_bytes(shorter).subrange(8 * i, 8 * i + 8));
    } else {
        assert(weight_bytes(ws).subrange(8 * i, 8 * i + 8) =~= le_bytes64(ws[i]));
    }
}

proof fn lemma_weight_bytes_len(ws: Seq<u64>)
    ensures
        weight_bytes(ws).len() == 8 * ws.len(),
    decreases ws.len(),
{
    if ws.len() > 0 {
        lemma_weight_bytes_len(ws.drop_last());
    }
}

proof fn lemma_le_u64_of_bytes(b: Seq<u8>, o: int, x: u64)
    requires
        0 <= o,
        o + 8 <= b.len(),
        b.subrange(o, o + 8) == le_bytes64(x),
    ensures
        le_u64_at(b, o) == x,
{
    let lo = (x % 0x1_0000_0000) as u32;
    let hi = (x / 0x1_0000_0000) as u32;
    lemma_le_u32_of_bytes(lo);
    lemma_le_u32_of_bytes(hi);
    assert(forall|j: int| 0 <= j < 8 ==> b[o + j] == #[trigger] le_bytes64(x)[j]) by {
        assert forall|j: int| 0 <= j < 8 implies b[o + j] == #[trigger] le_bytes64(x)[j] by {
            assert(b.subrange(o, o + 8)[j] == b[o + j]);
        }
    }
    assert(le_u32_at(b, o) == lo) by {
        assert(b[o] == le_bytes64(x)[0]);
        assert(b[o + 1] == le_bytes64(x)[1]);
        assert(b[o + 2] == le_bytes64(x)[2]);
        assert(b[o + 3] == le_bytes64(x)[3]);
    }
    assert(le_u32_at(b, o + 4) == hi) by {
        assert(b[o + 4] == le_bytes64(x)[4]);
        assert(b[o + 5] == le_bytes64(x)[5]);
        assert(b[o + 6] == le_bytes64(x)[6]);
        assert(b[o + 7] == le_bytes64(x)[7]);
    }
    assert(lo as int + hi as int * 0x1_0000_0000 == x as int);
}

/// Law: deserializing what [`serialize_keyed`] wrote gives back the same key
/// texts and weights, when there is one weight per column, every column
/// holds the same number of items, and counts and lengths fit in `u32`.
pub proof fn lemma_deserialize_serialized_keyed(cols: Seq<Seq<Seq<char>>>, ws: Seq<u64>, magic: Seq<u8>)
    requires
        magic.len() == 4,
        cols.len() == ws.len(),
        ws.len() <= u32::MAX,
        forall|c: int| 0 <= c < cols.len() ==> (#[trigger] cols[c]).len() == cols[0].len(),
        cols.len() > 0 ==> cols[0].len() <= u32::MAX,
        forall|c: int, i: int|
            0 <= c < cols.len() && 0 <= i < cols[c].len() ==> encode_utf8(#[trigger] cols[c][i]).len()
                <= u32::MAX,
    ensures
        deserialize_keyed_outcome(serialized_keyed(cols, ws, magic), magic) == Ok::<
            (Seq<Seq<Seq<char>>>, Seq<u64>),
            Seq<char>,
        >((cols, ws)),
{
    let ni: nat = if cols.len() == 0 {
        0
    } else {
        cols[0].len()
    };
    let nk = ws.len() as u32;
    let b = serialized_keyed(cols, ws, magic);
    let h1 = magic + le_bytes(SERIALIZE_VERSION);
    let h2 = h1 + le_bytes(nk);
    let h3 = h2 + le_bytes(ni as u32);
    let wb = weight_bytes(ws);
    let cr = column_records(cols);
    lemma_weight_bytes_len(ws);
    assert(b == h3 + wb + cr);
    assert(b.subrange(0, 4) =~= magic);
    lemma_le_u32_of_bytes(SERIALIZE_VERSION);
    lemma_le_u32_of_bytes(nk);
    lemma_le_u32_of_bytes(ni as u32);
    assert(le_u32_at(b, 4) == SERIALIZE_VERSION) by {
        assert(b[4] == le_bytes(SERIALIZE_VERSION)[0]);
        assert(b[5] == le_bytes(SERIALIZE_VERSION)[1]);
        assert(b[6] == le_bytes(SERIALIZE_VERSION)[2]);
        assert(b[7] == le_bytes(SERIALIZE_VERSION)[3]);
    }
    assert(le_u32_at(b, 8) == nk) by {
        assert(b[8] == le_bytes(nk)[0]);
        assert(b[9] == le_bytes(nk)[1]);
        assert(b[10] == le_bytes(nk)[2]);
        assert(b[11] == le_bytes(nk)[3]);
    }
    assert(le_u32_at(b, 12) == ni as u32) by {
        assert(b[12] == le_bytes(ni as u32)[0]);
        assert(b[13] == le_bytes(ni as u32)[1]);
        assert(b[14] == le_bytes(ni as u32)[2]);
        assert(b[15] == le_bytes(ni as u32)[3]);
    }
    let p: int = 16 + 8 * (ws.len() as int);
    assert(b.subrange(p, p + cr.len()) =~= cr);
    lemma_parse_columns_at(b, p, cols, ni, cols.len() as int);
    assert(cols.take(cols.len() as int) =~= cols);
    let parsed_ws = Seq::new(nk as nat, |i: int| le_u64_at(b, 16 + 8 * i));
    assert(parsed_ws =~= ws) by {
        assert forall|i: int| 0 <= i < ws.len() implies parsed_ws[i] == ws[i] by {
            lemma_weight_bytes_layout(ws, i);
            assert(b.subrange(16 + 8 * i, 16 + 8 * i + 8) =~= wb.subrange(8 * i, 8 * i + 8));
            lemma_le_u64_of_bytes(b, 16 + 8 * i, ws[i]);
        }
    }
}

} // verus!
