//! The binary format of rows.
//!
//! ```text
//! [rowid:8][num_cols:2]
//! num_cols times [col_id:2][data_offset:2], ascending in col_id
//! num_cols times [type_tag:1][value_bytes]
//! ```

use crate::bytes;
use crate::bytes::{
    append, bits_of_i64, bytes_u16, bytes_u32, bytes_u64, copy_slice, i64_from_bits, read_u16,
    read_u32, read_u64,
};
use crate::error::{corruption, Result};
use crate::value::{Value, ValueView};
use vstd::prelude::*;

verus! {

// Type tags
pub const TAG_NULL: u8 = 0;

pub const TAG_TEXT: u8 = 1;

pub const TAG_INTEGER: u8 = 2;

pub const TAG_REAL: u8 = 3;

pub const TAG_BLOB: u8 = 4;

pub const TAG_BOOLEAN: u8 = 5;

/// The low 16 bits of a number.
pub open spec fn low16(n: int) -> u16 {
    (n % 0x1_0000) as u16
}

/// The low 32 bits of a number.
pub open spec fn low32(n: int) -> u32 {
    (n % 0x1_0000_0000) as u32
}

/// The bytes of a string or blob, with their length in front.
pub open spec fn counted(b: Seq<u8>) -> Seq<u8> {
    bytes::le32(low32(b.len() as int)) + b
}

/// The encoding of a value: a type tag and the value.
pub open spec fn value_bytes(v: ValueView) -> Seq<u8> {
    match v {
        ValueView::Null => seq![TAG_NULL],
        ValueView::Text(s) => seq![TAG_TEXT] + counted(vstd::utf8::encode_utf8(s)),
        ValueView::Integer(i) => seq![TAG_INTEGER] + bytes::le64(bytes::i64_bits(i)),
        ValueView::Real(r) => seq![TAG_REAL] + bytes::le64(r),
        ValueView::Blob(b) => seq![TAG_BLOB] + counted(b),
        ValueView::Boolean(b) => seq![
            TAG_BOOLEAN,
            if b {
                1u8
            } else {
                0u8
            },
        ],
    }
}

/// The number of leading columns whose id is at most `id`.
pub open spec fn rank(cols: Seq<(u16, ValueView)>, id: u16) -> int
    decreases cols.len(),
{
    if cols.len() == 0 {
        0
    } else if cols.last().0 <= id {
        cols.len() as int
    } else {
        rank(cols.drop_last(), id)
    }
}

/// The columns in ascending order of their ids; columns with the same id keep
/// their order.
pub open spec fn by_id(cols: Seq<(u16, ValueView)>) -> Seq<(u16, ValueView)>
    decreases cols.len(),
{
    if cols.len() == 0 {
        cols
    } else {
        let s = by_id(cols.drop_last());
        s.insert(rank(s, cols.last().0), cols.last())
    }
}

/// The encoded values, one after another.
pub open spec fn data_of(cols: Seq<(u16, ValueView)>) -> Seq<u8>
    decreases cols.len(),
{
    if cols.len() == 0 {
        Seq::empty()
    } else {
        data_of(cols.drop_last()) + value_bytes(cols.last().1)
    }
}

/// The directory: ids and the offsets of their values.
pub open spec fn dir_of(cols: Seq<(u16, ValueView)>) -> Seq<u8>
    decreases cols.len(),
{
    if cols.len() == 0 {
        Seq::empty()
    } else {
        dir_of(cols.drop_last()) + (bytes::le16(cols.last().0) + bytes::le16(
            low16(data_of(cols.drop_last()).len() as int),
        ))
    }
}

/// A row made of columns in the given order.
pub open spec fn layout(rowid: u64, cols: Seq<(u16, ValueView)>) -> Seq<u8> {
    bytes::le64(rowid) + bytes::le16(low16(cols.len() as int)) + dir_of(cols) + data_of(cols)
}

/// The encoding of a row.
pub open spec fn row_bytes(rowid: u64, cols: Seq<(u16, ValueView)>) -> Seq<u8> {
    layout(rowid, by_id(cols))
}

/// What the given columns hold.
pub open spec fn cols_view(cols: Seq<(u16, &Value)>) -> Seq<(u16, ValueView)> {
    cols.map_values(|c: (u16, &Value)| (c.0, c.1@))
}

/// What the given columns hold.
pub open spec fn owned_cols_view(cols: Seq<(u16, Value)>) -> Seq<(u16, ValueView)> {
    cols.map_values(|c: (u16, Value)| (c.0, c.1@))
}

/// The columns fit the format: their number, the offsets of their values, and
/// the lengths of text and blobs fit the fields that hold them.
pub open spec fn cols_fit(cols: Seq<(u16, ValueView)>) -> bool {
    &&& cols.len() < 0x1_0000
    &&& forall|i: int|
        0 <= i < cols.len() ==> (#[trigger] data_of(cols.take(i))).len() < 0x1_0000
    &&& forall|i: int| 0 <= i < cols.len() ==> value_fits((#[trigger] cols[i]).1)
}

/// Every column starts at an offset that fits its field, and so does the number of
/// columns.
pub open spec fn starts_fit(cols: Seq<(u16, ValueView)>) -> bool {
    &&& cols.len() < 0x1_0000
    &&& forall|i: int|
        0 <= i < cols.len() ==> (#[trigger] data_of(cols.take(i))).len() < 0x1_0000
}

/// The length of a text or blob fits its field.
pub open spec fn value_fits(v: ValueView) -> bool {
    match v {
        ValueView::Text(s) => vstd::utf8::encode_utf8(s).len() < 0x1_0000_0000,
        ValueView::Blob(b) => b.len() < 0x1_0000_0000,
        _ => true,
    }
}

// ---------------------------------------------------------------------------
// Reading rows
// ---------------------------------------------------------------------------

/// The value at the start of `d` and its encoded length, if `d` starts with one.
pub open spec fn parse_value(d: Seq<u8>) -> Option<(ValueView, int)> {
    if d.len() < 1 {
        None
    } else if d[0] == TAG_NULL {
        Some((ValueView::Null, 1))
    } else if d[0] == TAG_TEXT {
        if d.len() < 5 || d.len() < 5 + bytes::get_u32(d, 1) || !vstd::utf8::valid_utf8(
            d.subrange(5, 5 + bytes::get_u32(d, 1)),
        ) {
            None
        } else {
            Some(
                (
                    ValueView::Text(
                        vstd::utf8::decode_utf8(d.subrange(5, 5 + bytes::get_u32(d, 1))),
                    ),
                    5 + bytes::get_u32(d, 1),
                ),
            )
        }
    } else if d[0] == TAG_INTEGER {
        if d.len() < 9 {
            None
        } else {
            Some((ValueView::Integer(bytes::i64_of_bits(bytes::get_u64(d, 1))), 9))
        }
    } else if d[0] == TAG_REAL {
        if d.len() < 9 {
            None
        } else {
            Some((ValueView::Real(bytes::get_u64(d, 1)), 9))
        }
    } else if d[0] == TAG_BLOB {
        if d.len() < 5 || d.len() < 5 + bytes::get_u32(d, 1) {
            None
        } else {
            Some(
                (
                    ValueView::Blob(d.subrange(5, 5 + bytes::get_u32(d, 1))),
                    5 + bytes::get_u32(d, 1),
                ),
            )
        }
    } else if d[0] == TAG_BOOLEAN {
        if d.len() < 2 {
            None
        } else {
            Some((ValueView::Boolean(d[1] != 0), 2))
        }
    } else {
        None
    }
}

/// The number of columns of a row.
pub open spec fn num_cols(d: Seq<u8>) -> int {
    bytes::get_u16(d, 8) as int
}

/// The id in directory entry `i`.
pub open spec fn entry_id(d: Seq<u8>, i: int) -> u16 {
    bytes::get_u16(d, 10 + 4 * i)
}

/// The offset in directory entry `i`.
pub open spec fn entry_off(d: Seq<u8>, i: int) -> u16 {
    bytes::get_u16(d, 12 + 4 * i)
}

/// Where the column data starts.
pub open spec fn data_start(d: Seq<u8>) -> int {
    10 + 4 * num_cols(d)
}

/// Where the value of directory entry `i` starts.
pub open spec fn value_start(d: Seq<u8>, i: int) -> int {
    data_start(d) + entry_off(d, i)
}

/// Where the value of directory entry `i` ends: where the next one starts.
pub open spec fn value_end(d: Seq<u8>, i: int) -> int {
    if i + 1 < num_cols(d) {
        value_start(d, i + 1)
    } else {
        d.len() as int
    }
}

/// The value of directory entry `i`.
pub open spec fn entry_value(d: Seq<u8>, i: int) -> Option<ValueView> {
    if value_start(d, i) > d.len() {
        None
    } else {
        match parse_value(d.subrange(value_start(d, i), d.len() as int)) {
            Some((v, _)) => Some(v),
            None => None,
        }
    }
}

/// The header and the directory are there.
pub open spec fn dir_complete(d: Seq<u8>) -> bool {
    d.len() >= 10 && d.len() >= data_start(d)
}

/// The row can be decoded.
pub open spec fn decodable(d: Seq<u8>) -> bool {
    dir_complete(d) && forall|i: int| 0 <= i < num_cols(d) ==> (#[trigger] entry_value(d, i)) is Some
}

/// The columns of a row that can be decoded.
pub open spec fn decoded_cols(d: Seq<u8>) -> Seq<(u16, ValueView)> {
    Seq::new(num_cols(d) as nat, |i: int| (entry_id(d, i), entry_value(d, i)->0))
}

/// How a search of the directory ends.
pub enum Lookup {
    At(int),
    Absent,
    Truncated,
}

/// Binary search of the directory between `lo` and `hi`.
pub open spec fn search_dir(d: Seq<u8>, id: u16, lo: int, hi: int) -> Lookup
    decreases hi - lo,
{
    if lo >= hi {
        Lookup::Absent
    } else {
        let mid = lo + (hi - lo) / 2;
        if 14 + 4 * mid > d.len() {
            Lookup::Truncated
        } else if entry_id(d, mid) < id {
            search_dir(d, id, mid + 1, hi)
        } else if entry_id(d, mid) > id {
            search_dir(d, id, lo, mid)
        } else {
            Lookup::At(mid)
        }
    }
}

/// Where a column stands in the directory.
pub open spec fn lookup(d: Seq<u8>, id: u16) -> Lookup {
    if d.len() < 10 {
        Lookup::Truncated
    } else {
        search_dir(d, id, 0, num_cols(d))
    }
}

/// `String::from_utf8` accepts exactly the well-formed UTF-8 byte strings and
/// returns the string that they encode.
#[verifier::external_body]
pub(crate) fn string_from_utf8(v: Vec<u8>) -> (r: Option<String>)
    ensures
        r is Some <==> vstd::utf8::valid_utf8(v@),
        r matches Some(s) ==> s@ == vstd::utf8::decode_utf8(v@),
{
    String::from_utf8(v).ok()
}

/// `Ok` if `need` bytes are there from `offset` on.
fn ensure_bytes(data: &[u8], offset: usize, need: usize) -> (r: Result<()>)
    requires
        offset + need <= usize::MAX,
    ensures
        r is Ok <==> offset + need <= data@.len(),
        r matches Err(e) ==> e is Corruption,
{
    if offset + need > data.len() {
        Err(corruption("truncated row"))
    } else {
        Ok(())
    }
}

/// Decodes the value at the start of `data`; returns it with its encoded length.
pub fn decode_value(data: &[u8]) -> (r: Result<(Value, usize)>)
    ensures
        r is Ok <==> parse_value(data@) is Some,
        r matches Ok(p) ==> parse_value(data@) == Some((p.0@, p.1 as int)),
        r matches Err(e) ==> e is Corruption,
{
    let n: usize = data.len();
    if n < 1 {
        return Err(corruption("truncated row"));
    }
    let tag: u8 = data[0];
    if tag == TAG_NULL {
        Ok((Value::Null, 1))
    } else if tag == TAG_TEXT {
        if n < 5 {
            return Err(corruption("truncated row"));
        }
        let len: usize = read_u32(data, 1) as usize;
        if n - 5 < len {
            return Err(corruption("truncated row"));
        }
        match string_from_utf8(copy_slice(&data[5..5 + len])) {
            Some(s) => Ok((Value::Text(s), 5 + len)),
            None => Err(corruption("invalid utf8")),
        }
    } else if tag == TAG_INTEGER {
        if n < 9 {
            return Err(corruption("truncated row"));
        }
        Ok((Value::Integer(i64_from_bits(read_u64(data, 1))), 9))
    } else if tag == TAG_REAL {
        if n < 9 {
            return Err(corruption("truncated row"));
        }
        Ok((Value::Real(read_u64(data, 1)), 9))
    } else if tag == TAG_BLOB {
        if n < 5 {
            return Err(corruption("truncated row"));
        }
        let len: usize = read_u32(data, 1) as usize;
        if n - 5 < len {
            return Err(corruption("truncated row"));
        }
        Ok((Value::Blob(copy_slice(&data[5..5 + len])), 5 + len))
    } else if tag == TAG_BOOLEAN {
        if n < 2 {
            return Err(corruption("truncated row"));
        }
        Ok((Value::Boolean(data[1] != 0), 2))
    } else {
        Err(corruption("unknown type tag"))
    }
}

/// A decoded row: the rowid and all column values.
pub struct DecodedRow {
    pub id: u64,
    pub columns: Vec<(u16, Value)>,
}

/// Decodes a full row.
pub fn decode_row(data: &[u8]) -> (r: Result<DecodedRow>)
    ensures
        r is Ok <==> decodable(data@),
        r matches Ok(row) ==> {
            &&& row.id == bytes::get_u64(data@, 0)
            &&& owned_cols_view(row.columns@) == decoded_cols(data@)
        },
        r matches Err(e) ==> e is Corruption,
{
    let len: usize = data.len();
    ensure_bytes(data, 0, 8)?;
    let id: u64 = read_u64(data, 0);
    ensure_bytes(data, 8, 2)?;
    let n: usize = read_u16(data, 8) as usize;
    ensure_bytes(data, 10, n * 4)?;
    let start: usize = 10 + n * 4;
    let mut columns: Vec<(u16, Value)> = Vec::new();
    let mut i: usize = 0;
    while i < n
        invariant
            i <= n == num_cols(data@) < 0x1_0000,
            len == data@.len(),
            dir_complete(data@),
            start == data_start(data@),
            owned_cols_view(columns@) =~= decoded_cols(data@).take(i as int),
            columns@.len() == i,
            forall|j: int| 0 <= j < i ==> (#[trigger] entry_value(data@, j)) is Some,
        decreases n - i,
    {
        let entry: usize = 10 + i * 4;
        let col_id: u16 = read_u16(data, entry);
        let off: usize = read_u16(data, entry + 2) as usize;
        if start + off > len {
            assert(entry_value(data@, i as int) is None);
            return Err(corruption("column offset out of range"));
        }
        match decode_value(&data[start + off..len]) {
            Err(e) => {
                assert(entry_value(data@, i as int) is None);
                return Err(e);
            },
            Ok((v, _)) => {
                let ghost before = columns@;
                columns.push((col_id, v));
                assert(owned_cols_view(columns@) =~= owned_cols_view(before).push((col_id, v@)));
                assert(decoded_cols(data@).take(i + 1) =~= decoded_cols(data@).take(i as int).push(
                    decoded_cols(data@)[i as int],
                ));
            },
        }
        i += 1;
    }
    assert(decoded_cols(data@).take(n as int) =~= decoded_cols(data@));
    Ok(DecodedRow { id, columns })
}

/// The rowid of a row.
pub fn extract_id(data: &[u8]) -> (r: Result<u64>)
    ensures
        r is Ok <==> data@.len() >= 8,
        r matches Ok(id) ==> id == bytes::get_u64(data@, 0),
        r matches Err(e) ==> e is Corruption,
{
    ensure_bytes(data, 0, 8)?;
    Ok(read_u64(data, 0))
}

/// Searches the directory.
fn find_entry(data: &[u8], target: u16) -> (r: Result<Option<usize>>)
    ensures
        match lookup(data@, target) {
            Lookup::At(i) => r matches Ok(Some(j)) && i == j && 0 <= i < num_cols(data@)
                && data@.len() >= 14 + 4 * i && data@.len() >= 10,
            Lookup::Absent => r matches Ok(None),
            Lookup::Truncated => r matches Err(e) && e is Corruption,
        },
{
    ensure_bytes(data, 0, 8)?;
    ensure_bytes(data, 8, 2)?;
    let n: usize = read_u16(data, 8) as usize;
    let mut lo: usize = 0;
    let mut hi: usize = n;
    while lo < hi
        invariant
            lo <= hi <= n < 0x1_0000,
            data@.len() >= 10,
            n == num_cols(data@),
            lookup(data@, target) == search_dir(data@, target, lo as int, hi as int),
        decreases hi - lo,
    {
        let mid: usize = lo + (hi - lo) / 2;
        let entry: usize = 10 + mid * 4;
        ensure_bytes(data, entry, 4)?;
        let col_id: u16 = read_u16(data, entry);
        if col_id < target {
            lo = mid + 1;
        } else if col_id > target {
            hi = mid;
        } else {
            return Ok(Some(mid));
        }
    }
    Ok(None)
}

/// The raw bytes (tag and value) of a column, without decoding them: the part
/// of `data` from where the value starts to where the next one does. `None` if
/// the row has no such column.
pub fn extract_column_raw(data: &[u8], target_col_id: u16) -> (r: Result<Option<&[u8]>>)
    ensures
        match lookup(data@, target_col_id) {
            Lookup::Truncated => r matches Err(e) && e is Corruption,
            Lookup::Absent => r matches Ok(None),
            Lookup::At(i) => if raw_ok(data@, i) {
                r matches Ok(Some(s)) && s@ == data@.subrange(
                    value_start(data@, i),
                    value_end(data@, i),
                )
            } else {
                r matches Err(e) && e is Corruption
            },
        },
{
    match find_entry(data, target_col_id) {
        Err(e) => Err(e),
        Ok(None) => Ok(None),
        Ok(Some(i)) => {
            let (start, end): (usize, usize) = entry_bounds(data, i)?;
            Ok(Some(&data[start..end]))
        },
    }
}

/// The bounds of entry `i` lie in order within the row, and the directory
/// entry that ends it is there.
pub open spec fn raw_ok(d: Seq<u8>, i: int) -> bool {
    &&& i + 1 < num_cols(d) ==> d.len() >= 18 + 4 * i
    &&& value_start(d, i) <= value_end(d, i) <= d.len()
}

/// Where entry `i` starts and ends.
fn entry_bounds(data: &[u8], i: usize) -> (r: Result<(usize, usize)>)
    requires
        i < num_cols(data@),
        data@.len() >= 14 + 4 * i,
        data@.len() >= 10,
    ensures
        r is Ok <==> raw_ok(data@, i as int),
        r matches Ok(b) ==> b.0 == value_start(data@, i as int) && b.1 == value_end(
            data@,
            i as int,
        ),
        r matches Err(e) ==> e is Corruption,
{
    let len: usize = data.len();
    let n: usize = read_u16(data, 8) as usize;
    let data_at: usize = 10 + n * 4;
    let start: usize = data_at + read_u16(data, 12 + i * 4) as usize;
    let end: usize = if i + 1 < n {
        if len < 18 + i * 4 {
            return Err(corruption("truncated row"));
        }
        data_at + read_u16(data, 16 + i * 4) as usize
    } else {
        len
    };
    if start <= end && end <= len {
        Ok((start, end))
    } else {
        Err(corruption("column offset out of range"))
    }
}

/// The value of a column; `None` if the row has no such column.
pub fn extract_column(data: &[u8], target_col_id: u16) -> (r: Result<Option<Value>>)
    ensures
        match column_of(data@, target_col_id) {
            None => r matches Err(e) && e is Corruption,
            Some(None) => r matches Ok(None),
            Some(Some(v)) => r matches Ok(Some(x)) && x@ == v,
        },
{
    match find_entry(data, target_col_id) {
        Err(e) => Err(e),
        Ok(None) => Ok(None),
        Ok(Some(i)) => {
            let len: usize = data.len();
            let n: usize = read_u16(data, 8) as usize;
            let start: usize = 10 + n * 4 + read_u16(data, 12 + i * 4) as usize;
            if start > len {
                return Err(corruption("column offset out of range"));
            }
            match decode_value(&data[start..len]) {
                Err(e) => Err(e),
                Ok((v, _)) => Ok(Some(v)),
            }
        },
    }
}

/// The value of a column: `None` if the row is malformed, `Some(None)` if it has
/// no such column.
pub open spec fn column_of(d: Seq<u8>, id: u16) -> Option<Option<ValueView>> {
    match lookup(d, id) {
        Lookup::Truncated => None,
        Lookup::Absent => Some(None),
        Lookup::At(i) => match entry_value(d, i) {
            None => None,
            Some(v) => Some(Some(v)),
        },
    }
}

// ---------------------------------------------------------------------------
// Writing rows
// ---------------------------------------------------------------------------

/// Appends a 32-bit length and the bytes.
fn append_counted(buf: &mut Vec<u8>, b: &[u8])
    ensures
        final(buf)@ == old(buf)@ + counted(b@),
{
    let n: usize = b.len();
    let len: u32 = (n as u64 % 0x1_0000_0000) as u32;
    let l = bytes_u32(len);
    append(buf, l.as_slice());
    append(buf, b);
    assert(buf@ =~= old(buf)@ + counted(b@));
}

/// Appends the encoding of a value.
fn encode_value(buf: &mut Vec<u8>, val: &Value)
    ensures
        final(buf)@ == old(buf)@ + value_bytes(val@),
{
    match val {
        Value::Null => {
            buf.push(TAG_NULL);
        },
        Value::Text(s) => {
            buf.push(TAG_TEXT);
            append_counted(buf, s.as_str().as_bytes());
        },
        Value::Integer(i) => {
            buf.push(TAG_INTEGER);
            let b = bytes_u64(bits_of_i64(*i));
            append(buf, b.as_slice());
        },
        Value::Real(r) => {
            buf.push(TAG_REAL);
            let b = bytes_u64(*r);
            append(buf, b.as_slice());
        },
        Value::Blob(b) => {
            buf.push(TAG_BLOB);
            append_counted(buf, b.as_slice());
        },
        Value::Boolean(b) => {
            buf.push(TAG_BOOLEAN);
            buf.push(
                if *b {
                    1
                } else {
                    0
                },
            );
        },
    }
    assert(buf@ =~= old(buf)@ + value_bytes(val@));
}

/// The encoding of a single value (tag and value).
pub fn encode_value_to_vec(val: &Value) -> (buf: Vec<u8>)
    ensures
        buf@ == value_bytes(val@),
{
    let mut buf: Vec<u8> = Vec::new();
    encode_value(&mut buf, val);
    assert(buf@ =~= value_bytes(val@));
    buf
}

/// The columns in ascending order of their ids.
fn sort_columns<'a>(columns: &[(u16, &'a Value)]) -> (sorted: Vec<(u16, &'a Value)>)
    ensures
        cols_view(sorted@) == by_id(cols_view(columns@)),
        sorted@.len() == columns@.len(),
{
    let mut sorted: Vec<(u16, &'a Value)> = Vec::new();
    let mut i: usize = 0;
    assert(cols_view(columns@).take(0) =~= Seq::empty());
    assert(cols_view(sorted@) =~= Seq::empty());
    while i < columns.len()
        invariant
            i <= columns@.len(),
            sorted@.len() == i,
            cols_view(sorted@) == by_id(cols_view(columns@).take(i as int)),
        decreases columns@.len() - i,
    {
        let c: (u16, &'a Value) = columns[i];
        let ghost view = cols_view(sorted@);
        let mut pos: usize = sorted.len();
        assert(view.take(pos as int) =~= view);
        while pos > 0 && sorted[pos - 1].0 > c.0
            invariant
                pos <= sorted@.len(),
                view == cols_view(sorted@),
                rank(view, c.0) == rank(view.take(pos as int), c.0),
            decreases pos,
        {
            assert(view.take(pos as int).last().0 == sorted@[pos - 1].0);
            assert(view.take(pos as int).drop_last() =~= view.take(pos - 1));
            pos -= 1;
        }
        proof {
            if pos > 0 {
                assert(view.take(pos as int).last().0 == sorted@[pos - 1].0);
            }
            assert(rank(view, c.0) == pos);
            let next = cols_view(columns@).take(i + 1);
            assert(next.drop_last() =~= cols_view(columns@).take(i as int));
            assert(next.last() == (c.0, c.1@));
        }
        let ghost before = sorted@;
        sorted.insert(pos, c);
        assert(cols_view(sorted@) =~= cols_view(before).insert(pos as int, (c.0, c.1@)));
        i += 1;
    }
    assert(cols_view(columns@).take(i as int) =~= cols_view(columns@));
    sorted
}

/// Encodes a row: the rowid, the number of columns, a directory of ids and
/// value offsets in ascending order of ids, and the values.
pub fn encode_row(rowid: u64, columns: &[(u16, &Value)]) -> (buf: Vec<u8>)
    ensures
        buf@ == row_bytes(rowid, cols_view(columns@)),
{
    let sorted: Vec<(u16, &Value)> = sort_columns(columns);
    let ghost cols = cols_view(sorted@);
    let n: usize = sorted.len();
    let mut dir: Vec<u8> = Vec::new();
    let mut data: Vec<u8> = Vec::new();
    let mut i: usize = 0;
    assert(cols.take(0) =~= Seq::empty());
    while i < n
        invariant
            i <= n == sorted@.len(),
            cols == cols_view(sorted@),
            dir@ == dir_of(cols.take(i as int)),
            data@ == data_of(cols.take(i as int)),
        decreases n - i,
    {
        let c: (u16, &Value) = sorted[i];
        proof {
            assert(cols.take(i + 1).drop_last() =~= cols.take(i as int));
            assert(cols.take(i + 1).last() == (c.0, c.1@));
        }
        let ghost d0 = dir@;
        let off: u16 = (data.len() % 0x1_0000) as u16;
        let a = bytes_u16(c.0);
        append(&mut dir, a.as_slice());
        let b = bytes_u16(off);
        append(&mut dir, b.as_slice());
        assert(dir@ =~= d0 + (bytes::le16(c.0) + bytes::le16(off)));
        encode_value(&mut data, c.1);
        i += 1;
    }
    assert(cols.take(n as int) =~= cols);
    let mut buf: Vec<u8> = Vec::new();
    let a = bytes_u64(rowid);
    append(&mut buf, a.as_slice());
    let b = bytes_u16((n % 0x1_0000) as u16);
    append(&mut buf, b.as_slice());
    append(&mut buf, dir.as_slice());
    append(&mut buf, data.as_slice());
    assert(buf@ =~= layout(rowid, cols));
    buf
}

/// Whether every column of a row starts at an offset that fits its field.
pub fn check_starts(columns: &[(u16, &Value)]) -> (r: bool)
    ensures
        r == starts_fit(by_id(cols_view(columns@))),
{
    let sorted: Vec<(u16, &Value)> = sort_columns(columns);
    let ghost cols = cols_view(sorted@);
    let n: usize = sorted.len();
    if n >= 0x1_0000 {
        return false;
    }
    let mut data: Vec<u8> = Vec::new();
    let mut i: usize = 0;
    assert(cols.take(0) =~= Seq::empty());
    while i < n
        invariant
            i <= n == sorted@.len() < 0x1_0000,
            cols == cols_view(sorted@),
            cols == by_id(cols_view(columns@)),
            data@ == data_of(cols.take(i as int)),
            forall|j: int| 0 <= j < i ==> (#[trigger] data_of(cols.take(j))).len() < 0x1_0000,
        decreases n - i,
    {
        if data.len() >= 0x1_0000 {
            assert(data_of(cols.take(i as int)).len() >= 0x1_0000);
            return false;
        }
        let c: (u16, &Value) = sorted[i];
        proof {
            assert(cols.take(i + 1).drop_last() =~= cols.take(i as int));
            assert(cols.take(i + 1).last() == (c.0, c.1@));
        }
        encode_value(&mut data, c.1);
        i += 1;
    }
    true
}

/// The row with the value of directory entry `i` replaced by `nv`: later
/// values move, and their offsets with them.
pub open spec fn is_patched(d: Seq<u8>, i: int, nv: Seq<u8>, r: Seq<u8>) -> bool {
    let s = value_start(d, i);
    let e = value_end(d, i);
    let raw = d.subrange(0, s) + nv + d.subrange(e, d.len() as int);
    &&& r.len() == raw.len()
    &&& forall|j: int| i < j < num_cols(d) ==> (#[trigger] entry_off(r, j)) == entry_off(d, j) + (
    nv.len() - (e - s))
    &&& forall|k: int| 0 <= k < r.len() && !in_later_offset(d, i, k) ==> r[k] == raw[k]
}

/// Byte `k` belongs to the offset field of a directory entry behind entry `i`.
pub open spec fn in_later_offset(d: Seq<u8>, i: int, k: int) -> bool {
    10 + 4 * (i + 1) <= k < data_start(d) && (k - 10) % 4 >= 2
}

/// Every offset behind entry `i` still fits once it moved.
pub open spec fn offsets_fit(d: Seq<u8>, i: int, nv: Seq<u8>) -> bool {
    forall|j: int|
        i < j < num_cols(d) ==> 0 <= (#[trigger] entry_off(d, j)) + (nv.len() - (value_end(d, i)
            - value_start(d, i))) < 0x1_0000
}

/// A patch replaces the value of a column that is there.
pub open spec fn patch_ok(d: Seq<u8>, i: int, nv: Seq<u8>) -> bool {
    dir_complete(d) && raw_ok(d, i) && offsets_fit(d, i, nv)
}

/// Replaces the value of one column in an encoded row, without decoding it.
/// A row without that column comes back unchanged.
#[verifier::rlimit(60)]
pub fn patch_row(data: &[u8], target_col_id: u16, new_val: &Value) -> (r: Result<Vec<u8>>)
    ensures
        match lookup(data@, target_col_id) {
            Lookup::Truncated => r matches Err(e) && e is Corruption,
            Lookup::Absent => r matches Ok(v) && v@ == data@,
            Lookup::At(i) => if patch_ok(data@, i, value_bytes(new_val@)) {
                r matches Ok(v) && is_patched(data@, i, value_bytes(new_val@), v@)
            } else {
                r matches Err(e) && e is Corruption
            },
        },
{
    let idx: usize = match find_entry(data, target_col_id) {
        Err(e) => {
            return Err(e);
        },
        Ok(None) => {
            return Ok(copy_slice(data));
        },
        Ok(Some(i)) => i,
    };
    let len: usize = data.len();
    let n: usize = read_u16(data, 8) as usize;
    if len < 10 + n * 4 {
        return Err(corruption("truncated row"));
    }
    let (start, end): (usize, usize) = match entry_bounds(data, idx) {
        Err(e) => {
            return Err(e);
        },
        Ok(b) => b,
    };
    let new_encoded: Vec<u8> = encode_value_to_vec(new_val);
    let old_len: usize = end - start;
    let new_len: usize = new_encoded.len();

    let mut result: Vec<u8> = Vec::new();
    append(&mut result, &data[0..start]);
    append(&mut result, new_encoded.as_slice());
    append(&mut result, &data[end..len]);
    let ghost d = data@;
    let ghost nv = value_bytes(new_val@);
    let ghost raw = result@;
    assert(raw =~= d.subrange(0, start as int) + nv + d.subrange(end as int, d.len() as int));
    assert forall|k: int| 0 <= k < start implies raw[k] == d[k] by {}

    let mut i: usize = idx + 1;
    while i < n
        invariant
            idx < i <= n == num_cols(d),
            idx < n < 0x1_0000,
            lookup(data@, target_col_id) == Lookup::At(idx as int),
            nv == value_bytes(new_val@),
            d == data@,
            d.len() == len >= 10 + 4 * n,
            start == value_start(d, idx as int),
            end == value_end(d, idx as int),
            start <= end <= len,
            old_len == end - start,
            new_len == nv.len(),
            raw.len() == start + nv.len() + (len - end),
            forall|k: int| 0 <= k < start ==> #[trigger] raw[k] == d[k],
            result@.len() == raw.len(),
            start >= 10 + 4 * n,
            forall|j: int|
                idx < j < i ==> 0 <= (#[trigger] entry_off(d, j)) + (nv.len() - (end - start))
                    < 0x1_0000,
            forall|j: int|
                idx < j < i ==> (#[trigger] entry_off(result@, j)) == entry_off(d, j) + (nv.len() - (
                end - start)),
            forall|k: int|
                0 <= k < raw.len() && !(10 + 4 * (idx + 1) <= k < 10 + 4 * i && (k - 10) % 4 >= 2)
                    ==> result@[k] == raw[k],
        decreases n - i,
    {
        let at: usize = 12 + i * 4;
        let moved: i128 = read_u16(data, at) as i128 + new_len as i128 - old_len as i128;
        if moved < 0 || moved > 0xFFFF {
            assert(!(0 <= entry_off(d, i as int) + (nv.len() - (end - start)) < 0x1_0000));
            return Err(corruption("row offset overflow during patch"));
        }
        let new_off: u16 = moved as u16;
        let b = bytes_u16(new_off);
        let ghost before = result@;
        result.set(at, b[0]);
        result.set(at + 1, b[1]);
        proof {
            assert(result@.subrange(at as int, at + 2) =~= bytes::le16(new_off));
            bytes::get_u16_of(result@, at as int, new_off);
            assert forall|j: int| idx < j < i + 1 implies (#[trigger] entry_off(result@, j))
                == entry_off(d, j) + (nv.len() - (end - start)) by {
                if j < i {
                    assert(result@[12 + 4 * j] == before[12 + 4 * j]);
                    assert(result@[13 + 4 * j] == before[13 + 4 * j]);
                    assert(entry_off(result@, j) == entry_off(before, j));
                }
            }
        }
        i += 1;
    }
    assert(is_patched(d, idx as int, nv, result@)) by {
        assert forall|k: int| 0 <= k < result@.len() && !in_later_offset(d, idx as int, k) implies result@[
            k
        ] == raw[k] by {}
    }
    assert(offsets_fit(d, idx as int, nv));
    Ok(result)
}

/// The column can be replaced, or is not there.
pub open spec fn can_patch(d: Seq<u8>, id: u16, v: ValueView) -> bool {
    match lookup(d, id) {
        Lookup::Truncated => false,
        Lookup::Absent => true,
        Lookup::At(i) => patch_ok(d, i, value_bytes(v)),
    }
}

/// `r` is `d` with one column replaced.
pub open spec fn patch_step(d: Seq<u8>, id: u16, v: ValueView, r: Seq<u8>) -> bool {
    match lookup(d, id) {
        Lookup::Truncated => false,
        Lookup::Absent => r == d,
        Lookup::At(i) => patch_ok(d, i, value_bytes(v)) && is_patched(d, i, value_bytes(v), r),
    }
}

/// `r` is `d` after the given patches, one after another.
pub open spec fn patches_to(d: Seq<u8>, ps: Seq<(u16, ValueView)>, r: Seq<u8>) -> bool
    decreases ps.len(),
{
    if ps.len() == 0 {
        r == d
    } else {
        exists|m: Seq<u8>|
            patches_to(d, ps.drop_last(), m) && #[trigger] patch_step(
                m,
                ps.last().0,
                ps.last().1,
                r,
            )
    }
}

/// Patch `k` cannot be applied to what the patches before it made of `d`.
pub open spec fn patch_fails(d: Seq<u8>, ps: Seq<(u16, ValueView)>, k: int) -> bool {
    exists|m: Seq<u8>| #[trigger]
        patches_to(d, ps.take(k), m) && !can_patch(m, ps[k].0, ps[k].1)
}

/// Replaces several columns in an encoded row, one after another.
pub fn patch_row_multi(data: &[u8], patches: &[(u16, &Value)]) -> (r: Result<Vec<u8>>)
    ensures
        r matches Ok(v) ==> patches_to(data@, cols_view(patches@), v@),
        r matches Err(e) ==> e is Corruption && exists|k: int|
            0 <= k < patches@.len() && #[trigger] patch_fails(data@, cols_view(patches@), k),
{
    let mut result: Vec<u8> = copy_slice(data);
    let mut i: usize = 0;
    let ghost ps = cols_view(patches@);
    assert(ps.take(0) =~= Seq::empty());
    assert(patches_to(data@, ps.take(0), result@));
    while i < patches.len()
        invariant
            i <= patches@.len(),
            ps == cols_view(patches@),
            patches_to(data@, ps.take(i as int), result@),
        decreases patches@.len() - i,
    {
        let p: (u16, &Value) = patches[i];
        let ghost m = result@;
        assert(ps[i as int] == (p.0, p.1@));
        match patch_row(result.as_slice(), p.0, p.1) {
            Err(e) => {
                assert(!can_patch(m, ps[i as int].0, ps[i as int].1));
                assert(patch_fails(data@, ps, i as int));
                return Err(e);
            },
            Ok(v) => {
                result = v;
            },
        }
        proof {
            let next = ps.take(i + 1);
            assert(next.drop_last() =~= ps.take(i as int));
            assert(next.last() == ps[i as int]);
            assert(patch_step(m, next.last().0, next.last().1, result@));
            assert(patches_to(data@, next.drop_last(), m));
            assert(patches_to(data@, next, result@));
        }
        i += 1;
    }
    assert(ps.take(i as int) =~= ps);
    Ok(result)
}

// ---------------------------------------------------------------------------
// Laws of the row format
// ---------------------------------------------------------------------------

/// A value is read back from its encoding, whatever follows it.
pub proof fn value_round_trip(v: ValueView, rest: Seq<u8>)
    requires
        value_fits(v),
    ensures
        parse_value(value_bytes(v) + rest) == Some((v, value_bytes(v).len() as int)),
{
    let d = value_bytes(v) + rest;
    match v {
        ValueView::Null => {
            assert(d[0] == TAG_NULL);
        },
        ValueView::Text(s) => {
            let b = vstd::utf8::encode_utf8(s);
            counted_reads(TAG_TEXT, b, rest);
            assert(d =~= seq![TAG_TEXT] + counted(b) + rest);
            vstd::utf8::encode_utf8_valid_utf8(s);
            vstd::utf8::encode_utf8_decode_utf8(s);
        },
        ValueView::Integer(i) => {
            let u = bytes::i64_bits(i);
            bytes::le64_round_trip(u);
            bytes::i64_bits_round_trip(i);
            assert(d.subrange(1, 9) =~= bytes::le64(u));
            bytes::get_u64_of(d, 1, u);
        },
        ValueView::Real(r) => {
            bytes::le64_round_trip(r);
            assert(d.subrange(1, 9) =~= bytes::le64(r));
            bytes::get_u64_of(d, 1, r);
        },
        ValueView::Blob(b) => {
            counted_reads(TAG_BLOB, b, rest);
            assert(d =~= seq![TAG_BLOB] + counted(b) + rest);
        },
        ValueView::Boolean(b) => {
            assert(d[0] == TAG_BOOLEAN);
        },
    }
}

proof fn counted_reads(tag: u8, b: Seq<u8>, rest: Seq<u8>)
    requires
        b.len() < 0x1_0000_0000,
    ensures
        ({
            let d = seq![tag] + counted(b) + rest;
            &&& d[0] == tag
            &&& d.len() >= 5 + b.len()
            &&& bytes::get_u32(d, 1) == b.len()
            &&& d.subrange(5, 5 + b.len() as int) == b
            &&& (seq![tag] + counted(b)).len() == 5 + b.len()
        }),
{
    let d = seq![tag] + counted(b) + rest;
    let n = low32(b.len() as int);
    bytes::le32_round_trip(n);
    assert(d.subrange(1, 5) =~= bytes::le32(n));
    bytes::get_u32_of(d, 1, n);
    assert(d.subrange(5, 5 + b.len() as int) =~= b);
}

/// The offset of value `i`.
pub open spec fn offset_of(cols: Seq<(u16, ValueView)>, i: int) -> int {
    data_of(cols.take(i)).len() as int
}

/// The value of column `i` stands at its offset, and the next one behind it.
proof fn data_at(cols: Seq<(u16, ValueView)>, i: int)
    requires
        0 <= i < cols.len(),
    ensures
        offset_of(cols, i + 1) == offset_of(cols, i) + value_bytes(cols[i].1).len(),
        offset_of(cols, i + 1) <= data_of(cols).len(),
        data_of(cols).subrange(offset_of(cols, i), offset_of(cols, i + 1)) == value_bytes(
            cols[i].1,
        ),
    decreases cols.len(),
{
    let init = cols.drop_last();
    assert(cols.take(i + 1).drop_last() =~= cols.take(i));
    assert(cols.take(i + 1).last() == cols[i]);
    if i == cols.len() - 1 {
        assert(cols.take(i + 1) =~= cols);
        assert(cols.take(i) =~= init);
        assert(data_of(cols).subrange(offset_of(cols, i), offset_of(cols, i + 1)) =~= value_bytes(
            cols[i].1,
        ));
    } else {
        data_at(init, i);
        assert(init.take(i) =~= cols.take(i));
        assert(init.take(i + 1) =~= cols.take(i + 1));
        assert(data_of(cols).subrange(offset_of(cols, i), offset_of(cols, i + 1)) =~= data_of(
            init,
        ).subrange(offset_of(cols, i), offset_of(cols, i + 1)));
    }
}

/// Entry `i` of the directory.
proof fn dir_at(cols: Seq<(u16, ValueView)>, i: int)
    requires
        0 <= i < cols.len(),
    ensures
        dir_of(cols).len() == 4 * cols.len(),
        dir_of(cols).subrange(4 * i, 4 * i + 2) == bytes::le16(cols[i].0),
        dir_of(cols).subrange(4 * i + 2, 4 * i + 4) == bytes::le16(low16(offset_of(cols, i))),
    decreases cols.len(),
{
    let init = cols.drop_last();
    dir_len(init);
    dir_len(cols);
    if i == cols.len() - 1 {
        assert(cols.take(i) =~= init);
        assert(dir_of(cols).subrange(4 * i, 4 * i + 2) =~= bytes::le16(cols[i].0));
        assert(dir_of(cols).subrange(4 * i + 2, 4 * i + 4) =~= bytes::le16(
            low16(offset_of(cols, i)),
        ));
    } else {
        dir_at(init, i);
        assert(init.take(i) =~= cols.take(i));
        assert(dir_of(cols).subrange(4 * i, 4 * i + 2) =~= dir_of(init).subrange(4 * i, 4 * i + 2));
        assert(dir_of(cols).subrange(4 * i + 2, 4 * i + 4) =~= dir_of(init).subrange(
            4 * i + 2,
            4 * i + 4,
        ));
    }
}

proof fn dir_len(cols: Seq<(u16, ValueView)>)
    ensures
        dir_of(cols).len() == 4 * cols.len(),
    decreases cols.len(),
{
    if cols.len() > 0 {
        dir_len(cols.drop_last());
    }
}

/// What a reader sees of a row made of the given columns.
#[verifier::spinoff_prover]
#[verifier::rlimit(40)]
pub proof fn layout_reads(rowid: u64, cols: Seq<(u16, ValueView)>)
    requires
        cols_fit(cols),
    ensures
        ({
            let d = layout(rowid, cols);
            &&& bytes::get_u64(d, 0) == rowid
            &&& num_cols(d) == cols.len()
            &&& d.len() == data_start(d) + data_of(cols).len()
            &&& dir_complete(d)
            &&& d.subrange(data_start(d), d.len() as int) == data_of(cols)
            &&& forall|i: int|
                0 <= i < cols.len() ==> (#[trigger] entry_id(d, i)) == cols[i].0 && entry_off(d, i)
                    == offset_of(cols, i)
        }),
{
    let d = layout(rowid, cols);
    let n = cols.len() as int;
    bytes::le64_round_trip(rowid);
    bytes::le16_round_trip(low16(n));
    dir_len(cols);
    assert(d.subrange(0, 8) =~= bytes::le64(rowid));
    bytes::get_u64_of(d, 0, rowid);
    assert(d.subrange(8, 10) =~= bytes::le16(low16(n)));
    bytes::get_u16_of(d, 8, low16(n));
    assert(d.subrange(10 + 4 * n, d.len() as int) =~= data_of(cols));
    assert forall|i: int| 0 <= i < cols.len() implies (#[trigger] entry_id(d, i)) == cols[i].0
        && entry_off(d, i) == offset_of(cols, i) by {
        dir_at(cols, i);
        assert(d.subrange(10 + 4 * i, 12 + 4 * i) =~= dir_of(cols).subrange(4 * i, 4 * i + 2));
        assert(d.subrange(12 + 4 * i, 14 + 4 * i) =~= dir_of(cols).subrange(4 * i + 2, 4 * i + 4));
        bytes::get_u16_of(d, 10 + 4 * i, cols[i].0);
        bytes::get_u16_of(d, 12 + 4 * i, low16(offset_of(cols, i)));
        assert(data_of(cols.take(i)).len() < 0x1_0000);
    }
}

/// The value of directory entry `i` is that of column `i`.
proof fn layout_value(rowid: u64, cols: Seq<(u16, ValueView)>, i: int)
    requires
        cols_fit(cols),
        0 <= i < cols.len(),
    ensures
        entry_value(layout(rowid, cols), i) == Some(cols[i].1),
        value_start(layout(rowid, cols), i) == data_start(layout(rowid, cols)) + offset_of(cols, i),
        value_end(layout(rowid, cols), i) == data_start(layout(rowid, cols)) + offset_of(
            cols,
            i + 1,
        ),
        raw_ok(layout(rowid, cols), i),
{
    let d = layout(rowid, cols);
    layout_reads(rowid, cols);
    data_at(cols, i);
    assert(entry_id(d, i) == cols[i].0);
    let s = value_start(d, i);
    let e = data_start(d) + offset_of(cols, i + 1);
    let tail = d.subrange(s, d.len() as int);
    let data = d.subrange(data_start(d), d.len() as int);
    let rest = d.subrange(e, d.len() as int);
    assert(tail =~= value_bytes(cols[i].1) + rest) by {
        let vb = data.subrange(offset_of(cols, i), offset_of(cols, i + 1));
        assert(vb == value_bytes(cols[i].1));
        assert forall|k: int| 0 <= k < tail.len() implies tail[k] == (value_bytes(cols[i].1) + rest)[k] by {
            if k < vb.len() {
                assert(tail[k] == vb[k]);
            }
        }
    }
    value_round_trip(cols[i].1, rest);
    if i + 1 < cols.len() {
        assert(entry_id(d, i + 1) == cols[i + 1].0);
    } else {
        assert(cols.take(i + 1) =~= cols);
    }
}

/// Decoding an encoded row gives back the rowid and the columns, ordered by id.
pub proof fn row_round_trip(rowid: u64, cols: Seq<(u16, ValueView)>)
    requires
        cols_fit(by_id(cols)),
    ensures
        decodable(row_bytes(rowid, cols)),
        bytes::get_u64(row_bytes(rowid, cols), 0) == rowid,
        decoded_cols(row_bytes(rowid, cols)) == by_id(cols),
{
    let cs = by_id(cols);
    let d = row_bytes(rowid, cols);
    layout_reads(rowid, cs);
    assert forall|i: int| 0 <= i < num_cols(d) implies (#[trigger] entry_value(d, i)) is Some by {
        layout_value(rowid, cs, i);
    }
    assert(decoded_cols(d) =~= cs) by {
        assert forall|i: int| 0 <= i < cs.len() implies decoded_cols(d)[i] == cs[i] by {
            layout_value(rowid, cs, i);
            assert(entry_id(d, i) == cs[i].0);
        }
    }
}

/// Ids ascend.
pub open spec fn ids_ascend(cols: Seq<(u16, ValueView)>) -> bool {
    forall|i: int, j: int| 0 <= i <= j < cols.len() ==> (#[trigger] cols[i]).0 <= (#[trigger] cols[j]).0
}

/// No two columns have the same id.
pub open spec fn ids_distinct(cols: Seq<(u16, ValueView)>) -> bool {
    forall|i: int, j: int|
        0 <= i < j < cols.len() ==> (#[trigger] cols[i]).0 != (#[trigger] cols[j]).0
}

pub proof fn rank_spec(cols: Seq<(u16, ValueView)>, id: u16)
    requires
        ids_ascend(cols),
    ensures
        0 <= rank(cols, id) <= cols.len(),
        forall|i: int| 0 <= i < rank(cols, id) ==> (#[trigger] cols[i]).0 <= id,
        forall|i: int| rank(cols, id) <= i < cols.len() ==> (#[trigger] cols[i]).0 > id,
    decreases cols.len(),
{
    if cols.len() > 0 && cols.last().0 > id {
        let init = cols.drop_last();
        assert forall|i: int, j: int| 0 <= i <= j < init.len() implies (#[trigger] init[i]).0 <= (
        #[trigger] init[j]).0 by {
            assert(init[i] == cols[i] && init[j] == cols[j]);
        }
        rank_spec(init, id);
        assert forall|i: int| 0 <= i < rank(cols, id) implies (#[trigger] cols[i]).0 <= id by {
            assert(init[i] == cols[i]);
        }
        assert forall|i: int| rank(cols, id) <= i < cols.len() implies (#[trigger] cols[i]).0 > id by {
            if i < init.len() {
                assert(init[i] == cols[i]);
            }
        }
    }
}

/// Ordering by id orders the columns and neither adds nor loses any.
pub proof fn by_id_sorts(cols: Seq<(u16, ValueView)>)
    ensures
        ids_ascend(by_id(cols)),
        by_id(cols).to_multiset() == cols.to_multiset(),
        by_id(cols).len() == cols.len(),
    decreases cols.len(),
{
    broadcast use vstd::seq_lib::group_to_multiset_ensures;

    if cols.len() > 0 {
        let init = cols.drop_last();
        let c = cols.last();
        by_id_sorts(init);
        let s = by_id(init);
        rank_spec(s, c.0);
        let r = s.insert(rank(s, c.0), c);
        let k = rank(s, c.0);
        assert forall|i: int, j: int| 0 <= i <= j < r.len() implies (#[trigger] r[i]).0 <= (
        #[trigger] r[j]).0 by {
            if i < k {
                assert(r[i] == s[i]);
            } else if i > k {
                assert(r[i] == s[i - 1]);
            }
            if j < k {
                assert(r[j] == s[j]);
            } else if j > k {
                assert(r[j] == s[j - 1]);
            }
        }
        vstd::seq_lib::to_multiset_insert(s, k, c);
        vstd::seq_lib::to_multiset_build(init, c);
        assert(cols =~= init.push(c));
    }
}

/// Columns that ascend are in order already.
pub proof fn by_id_of_sorted(cols: Seq<(u16, ValueView)>)
    requires
        ids_ascend(cols),
    ensures
        by_id(cols) == cols,
    decreases cols.len(),
{
    if cols.len() > 0 {
        let init = cols.drop_last();
        assert forall|i: int, j: int| 0 <= i <= j < init.len() implies (#[trigger] init[i]).0 <= (
        #[trigger] init[j]).0 by {
            assert(init[i] == cols[i] && init[j] == cols[j]);
        }
        by_id_of_sorted(init);
        if init.len() > 0 {
            assert(init.last() == cols[init.len() - 1]);
            assert(cols[init.len() - 1].0 <= cols[cols.len() - 1].0);
        }
        assert(rank(init, cols.last().0) == init.len());
        assert(init.insert(init.len() as int, cols.last()) =~= cols);
    }
}

proof fn search_finds(d: Seq<u8>, id: u16, lo: int, hi: int)
    requires
        0 <= lo <= hi <= num_cols(d),
        dir_complete(d),
        forall|i: int, j: int|
            0 <= i < j < num_cols(d) ==> (#[trigger] entry_id(d, i)) < (#[trigger] entry_id(d, j)),
        forall|i: int| 0 <= i < lo ==> (#[trigger] entry_id(d, i)) < id,
        forall|i: int| hi <= i < num_cols(d) ==> (#[trigger] entry_id(d, i)) > id,
    ensures
        match search_dir(d, id, lo, hi) {
            Lookup::At(i) => 0 <= i < num_cols(d) && entry_id(d, i) == id,
            Lookup::Absent => forall|i: int|
                0 <= i < num_cols(d) ==> (#[trigger] entry_id(d, i)) != id,
            Lookup::Truncated => false,
        },
    decreases hi - lo,
{
    if lo < hi {
        let mid = lo + (hi - lo) / 2;
        if entry_id(d, mid) < id {
            search_finds(d, id, mid + 1, hi);
        } else if entry_id(d, mid) > id {
            search_finds(d, id, lo, mid);
        }
    }
}

/// The row can be decoded, no column stands twice in its directory, which ascends, and
/// the directory leads to the values one after the other.
pub open spec fn well_laid(d: Seq<u8>) -> bool {
    &&& decodable(d)
    &&& forall|i: int| 0 <= i < num_cols(d) ==> #[trigger] raw_ok(d, i)
    &&& forall|i: int, j: int|
        0 <= i < j < num_cols(d) ==> (#[trigger] entry_id(d, i)) < (#[trigger] entry_id(d, j))
}

/// Of a row that is well laid out, extracting a column and decoding all columns show the
/// same: a value is extracted under a number exactly if it is decoded under it.
pub proof fn extracted_is_decoded(d: Seq<u8>, id: u16, x: ValueView)
    requires
        well_laid(d),
    ensures
        column_of(d, id) is Some,
        lookup(d, id) matches Lookup::At(i) ==> raw_ok(d, i),
        column_of(d, id) == Some(Some(x)) <==> decoded_cols(d).contains((id, x)),
{
    search_finds(d, id, 0, num_cols(d));
    let cols = decoded_cols(d);
    if let Lookup::At(i) = lookup(d, id) {
        assert(cols[i] == (id, entry_value(d, i)->0));
        assert(entry_value(d, i) is Some);
    }
    if cols.contains((id, x)) {
        let j = choose|j: int| 0 <= j < cols.len() && cols[j] == (id, x);
        assert(entry_id(d, j) == id);
        if let Lookup::At(i) = lookup(d, id) {
            if i < j {
                assert(entry_id(d, i) < entry_id(d, j));
            } else if j < i {
                assert(entry_id(d, j) < entry_id(d, i));
            }
        }
    }
}

/// An encoded row of distinct columns is well laid out.
pub proof fn encoded_well_laid(rowid: u64, cols: Seq<(u16, ValueView)>)
    requires
        cols_fit(by_id(cols)),
        ids_distinct(by_id(cols)),
    ensures
        well_laid(row_bytes(rowid, cols)),
{
    let d = row_bytes(rowid, cols);
    let cs = by_id(cols);
    row_round_trip(rowid, cols);
    by_id_sorts(cols);
    assert forall|i: int, j: int| 0 <= i < j < num_cols(d) implies (#[trigger] entry_id(d, i)) < (
    #[trigger] entry_id(d, j)) by {
        assert(decoded_cols(d)[i] == cs[i] && decoded_cols(d)[j] == cs[j]);
        assert(cs[i].0 <= cs[j].0 && cs[i].0 != cs[j].0);
    }
    layout_reads(rowid, cs);
    assert forall|i: int| 0 <= i < num_cols(d) implies #[trigger] raw_ok(d, i) by {
        layout_value(rowid, cs, i);
    }
}

/// In a row made of columns with ascending, distinct ids the search finds
/// exactly the columns that are there.
pub proof fn layout_lookup(rowid: u64, cols: Seq<(u16, ValueView)>, id: u16)
    requires
        cols_fit(cols),
        ids_ascend(cols),
        ids_distinct(cols),
    ensures
        match lookup(layout(rowid, cols), id) {
            Lookup::At(i) => 0 <= i < cols.len() && cols[i].0 == id,
            Lookup::Absent => forall|i: int| 0 <= i < cols.len() ==> (#[trigger] cols[i]).0 != id,
            Lookup::Truncated => false,
        },
{
    let d = layout(rowid, cols);
    layout_reads(rowid, cols);
    assert forall|i: int, j: int| 0 <= i < j < num_cols(d) implies (#[trigger] entry_id(d, i)) < (
    #[trigger] entry_id(d, j)) by {
        assert(cols[i].0 <= cols[j].0 && cols[i].0 != cols[j].0);
    }
    search_finds(d, id, 0, num_cols(d));
    if lookup(d, id) is Absent {
        assert forall|i: int| 0 <= i < cols.len() implies (#[trigger] cols[i]).0 != id by {
            assert(entry_id(d, i) == cols[i].0);
        }
    }
}

/// Extracting a column of an encoded row gives the value that was encoded under
/// its id, and nothing for an id that was not.
pub proof fn column_round_trip(rowid: u64, cols: Seq<(u16, ValueView)>, id: u16)
    requires
        cols_fit(by_id(cols)),
        ids_distinct(by_id(cols)),
    ensures
        match column_of(row_bytes(rowid, cols), id) {
            None => false,
            Some(None) => forall|i: int| 0 <= i < cols.len() ==> (#[trigger] cols[i]).0 != id,
            Some(Some(v)) => cols.contains((id, v)),
        },
{
    broadcast use vstd::seq_lib::group_to_multiset_ensures;

    let cs = by_id(cols);
    let d = row_bytes(rowid, cols);
    by_id_sorts(cols);
    layout_lookup(rowid, cs, id);
    match lookup(d, id) {
        Lookup::At(i) => {
            layout_value(rowid, cs, i);
            assert(cs[i] == (id, cs[i].1));
            assert(cs.to_multiset().count(cs[i]) > 0) by {
                cs.to_multiset_ensures();
                assert(cs.contains(cs[i]));
            }
            cols.to_multiset_ensures();
            assert(cols.contains(cs[i]));
        },
        Lookup::Absent => {
            assert forall|i: int| 0 <= i < cols.len() implies (#[trigger] cols[i]).0 != id by {
                cols.to_multiset_ensures();
                cs.to_multiset_ensures();
                assert(cols.contains(cols[i]));
                assert(cols.to_multiset().count(cols[i]) > 0);
                assert(cs.contains(cols[i]));
                let j = choose|j: int| 0 <= j < cs.len() && cs[j] == cols[i];
                assert(cs[j].0 != id);
            }
        },
        Lookup::Truncated => {},
    }
}

/// Replacing the value of a column in an encoded row gives the encoding of the
/// row with that column replaced.
pub proof fn patch_is_reencoding(
    rowid: u64,
    cols: Seq<(u16, ValueView)>,
    i: int,
    v: ValueView,
    r: Seq<u8>,
)
    requires
        cols_fit(cols),
        0 <= i < cols.len(),
        cols_fit(cols.update(i, (cols[i].0, v))),
        is_patched(layout(rowid, cols), i, value_bytes(v), r),
    ensures
        patch_ok(layout(rowid, cols), i, value_bytes(v)),
        r == layout(rowid, cols.update(i, (cols[i].0, v))),
{
    let w = layout(rowid, cols.update(i, (cols[i].0, v)));
    patch_fits(rowid, cols, i, v);
    assert forall|k: int| 0 <= k < w.len() implies r[k] == w[k] by {
        patched_byte(rowid, cols, i, v, r, k);
    }
    assert(r =~= w);
}

#[verifier::spinoff_prover]
proof fn patch_fits(rowid: u64, cols: Seq<(u16, ValueView)>, i: int, v: ValueView)
    requires
        cols_fit(cols),
        0 <= i < cols.len(),
        cols_fit(cols.update(i, (cols[i].0, v))),
    ensures
        patch_ok(layout(rowid, cols), i, value_bytes(v)),
        layout(rowid, cols.update(i, (cols[i].0, v))).len() == layout(rowid, cols).len()
            + value_bytes(v).len() - (value_end(layout(rowid, cols), i) - value_start(
            layout(rowid, cols),
            i,
        )),
{
    let d = layout(rowid, cols);
    let cs = cols.update(i, (cols[i].0, v));
    let w = layout(rowid, cs);
    let nv = value_bytes(v);
    layout_reads(rowid, cols);
    layout_reads(rowid, cs);
    layout_value(rowid, cols, i);
    data_at(cols, i);
    update_offset(cols, i, v, cols.len() as int);
    assert(cols.take(cols.len() as int) =~= cols);
    assert(cs.take(cols.len() as int) =~= cs);
    assert forall|j: int| i < j < num_cols(d) implies 0 <= (#[trigger] entry_off(d, j)) + (nv.len()
        - (value_end(d, i) - value_start(d, i))) < 0x1_0000 by {
        assert(entry_id(w, j) == cs[j].0 && entry_id(d, j) == cols[j].0);
        update_offset(cols, i, v, j);
    }
}

#[verifier::spinoff_prover]
#[verifier::rlimit(40)]
proof fn patched_byte(
    rowid: u64,
    cols: Seq<(u16, ValueView)>,
    i: int,
    v: ValueView,
    r: Seq<u8>,
    k: int,
)
    requires
        cols_fit(cols),
        0 <= i < cols.len(),
        cols_fit(cols.update(i, (cols[i].0, v))),
        is_patched(layout(rowid, cols), i, value_bytes(v), r),
        0 <= k < layout(rowid, cols.update(i, (cols[i].0, v))).len(),
    ensures
        r[k] == layout(rowid, cols.update(i, (cols[i].0, v)))[k],
{
    let d = layout(rowid, cols);
    let cs = cols.update(i, (cols[i].0, v));
    let w = layout(rowid, cs);
    let nv = value_bytes(v);
    let n = cols.len() as int;
    let head = 10 + 4 * n;
    layout_reads(rowid, cols);
    layout_reads(rowid, cs);
    layout_value(rowid, cols, i);
    let s = value_start(d, i);
    let e = value_end(d, i);
    let raw = d.subrange(0, s) + nv + d.subrange(e, d.len() as int);
    if in_later_offset(d, i, k) {
        let j = (k - 10) / 4;
        assert(i < j < n);
        assert(entry_id(w, j) == cs[j].0 && entry_id(d, j) == cols[j].0);
        update_offset(cols, i, v, j);
        data_at(cols, i);
        assert(entry_off(r, j) == entry_off(w, j));
        le16_bytes_equal(r, w, 12 + 4 * j);
        assert(k == 12 + 4 * j || k == 12 + 4 * j + 1);
    } else if k < head {
        assert(raw[k] == d[k]);
        same_head(rowid, cols, i, v, k);
    } else {
        update_data(cols, i, v);
        let data = data_of(cols);
        let data2 = data_of(cs);
        assert(data == d.subrange(head, d.len() as int));
        assert(data2 == w.subrange(head, w.len() as int));
        assert(w[k] == data2[k - head]);
        if k < s {
            assert(raw[k] == d[k]);
            assert(data[k - head] == d[k]);
        } else if k < s + nv.len() {
            assert(raw[k] == nv[k - s]);
        } else {
            let m = e + (k - s - nv.len());
            assert(raw[k] == d[m]);
            assert(data[m - head] == d[m]);
        }
    }
}

/// Two places with the same 16-bit number hold the same bytes.
proof fn le16_bytes_equal(a: Seq<u8>, b: Seq<u8>, off: int)
    requires
        bytes::get_u16(a, off) == bytes::get_u16(b, off),
    ensures
        a[off] == b[off],
        a[off + 1] == b[off + 1],
{
}

/// The data once the value of column `i` was replaced.
proof fn update_data(cols: Seq<(u16, ValueView)>, i: int, v: ValueView)
    requires
        0 <= i < cols.len(),
    ensures
        data_of(cols.update(i, (cols[i].0, v))) == data_of(cols).subrange(0, offset_of(cols, i))
            + value_bytes(v) + data_of(cols).subrange(
            offset_of(cols, i + 1),
            data_of(cols).len() as int,
        ),
        offset_of(cols, i) <= offset_of(cols, i + 1) <= data_of(cols).len(),
    decreases cols.len(),
{
    let cs = cols.update(i, (cols[i].0, v));
    let init = cols.drop_last();
    data_at(cols, i);
    if i == cols.len() - 1 {
        assert(cs.drop_last() =~= init);
        assert(cols.take(i) =~= init);
        assert(cols.take(i + 1) =~= cols);
        assert(data_of(cs) =~= data_of(cols).subrange(0, offset_of(cols, i)) + value_bytes(v)
            + data_of(cols).subrange(offset_of(cols, i + 1), data_of(cols).len() as int));
    } else {
        update_data(init, i, v);
        assert(cs.drop_last() =~= init.update(i, (init[i].0, v)));
        assert(cs.last() == cols.last());
        assert(init.take(i) =~= cols.take(i));
        assert(init.take(i + 1) =~= cols.take(i + 1));
        assert(data_of(cs) =~= data_of(cols).subrange(0, offset_of(cols, i)) + value_bytes(v)
            + data_of(cols).subrange(offset_of(cols, i + 1), data_of(cols).len() as int));
    }
}

/// Offsets behind the replaced value move by the difference in length.
proof fn update_offset(cols: Seq<(u16, ValueView)>, i: int, v: ValueView, j: int)
    requires
        0 <= i < j <= cols.len(),
    ensures
        offset_of(cols.update(i, (cols[i].0, v)), j) == offset_of(cols, j) + (value_bytes(v).len()
            - value_bytes(cols[i].1).len()),
    decreases j,
{
    let cs = cols.update(i, (cols[i].0, v));
    data_at(cols, j - 1);
    data_at(cs, j - 1);
    if j - 1 == i {
        assert(cs.take(i) =~= cols.take(i));
    } else {
        update_offset(cols, i, v, j - 1);
    }
}

/// Before the data, the two rows differ in later offsets only.
proof fn same_head(rowid: u64, cols: Seq<(u16, ValueView)>, i: int, v: ValueView, k: int)
    requires
        cols_fit(cols),
        0 <= i < cols.len(),
        cols_fit(cols.update(i, (cols[i].0, v))),
        0 <= k < 10 + 4 * cols.len(),
        !in_later_offset(layout(rowid, cols), i, k),
    ensures
        layout(rowid, cols)[k] == layout(rowid, cols.update(i, (cols[i].0, v)))[k],
{
    let cs = cols.update(i, (cols[i].0, v));
    let d = layout(rowid, cols);
    let w = layout(rowid, cs);
    layout_reads(rowid, cols);
    layout_reads(rowid, cs);
    dir_len(cols);
    dir_len(cs);
    if k >= 10 {
        let j = (k - 10) / 4;
        assert(0 <= j < cols.len());
        dir_at(cols, j);
        dir_at(cs, j);
        assert(entry_id(d, j) == cols[j].0 && entry_id(w, j) == cs[j].0);
        le16_bytes_equal(d, w, 10 + 4 * j);
        if j <= i {
            assert(cs.take(j) =~= cols.take(j));
            le16_bytes_equal(d, w, 12 + 4 * j);
        }
    } else {
        assert(d[k] == (bytes::le64(rowid) + bytes::le16(low16(cols.len() as int)))[k]);
        assert(w[k] == (bytes::le64(rowid) + bytes::le16(low16(cs.len() as int)))[k]);
    }
}

/// A patch fixes every byte of the row.
proof fn patched_unique(d: Seq<u8>, i: int, nv: Seq<u8>, a: Seq<u8>, b: Seq<u8>)
    requires
        is_patched(d, i, nv, a),
        is_patched(d, i, nv, b),
        0 <= i,
    ensures
        a == b,
{
    assert forall|k: int| 0 <= k < a.len() implies a[k] == b[k] by {
        if in_later_offset(d, i, k) {
            let j = (k - 10) / 4;
            assert(i < j < num_cols(d));
            assert(entry_off(a, j) == entry_off(b, j));
            let at = 12 + 4 * j;
            assert(k == at || k == at + 1);
            assert(bytes::get_u16(a, at) == a[at] + 0x100 * a[at + 1]);
            assert(bytes::get_u16(b, at) == b[at] + 0x100 * b[at + 1]);
        }
    }
    assert(a =~= b);
}

/// Patches made one after the other have one outcome.
pub proof fn patches_unique(d: Seq<u8>, ps: Seq<(u16, ValueView)>, a: Seq<u8>, b: Seq<u8>)
    requires
        patches_to(d, ps, a),
        patches_to(d, ps, b),
    ensures
        a == b,
    decreases ps.len(),
{
    if ps.len() > 0 {
        let m1 = choose|m: Seq<u8>|
            patches_to(d, ps.drop_last(), m) && #[trigger] patch_step(
                m,
                ps.last().0,
                ps.last().1,
                a,
            );
        let m2 = choose|m: Seq<u8>|
            patches_to(d, ps.drop_last(), m) && #[trigger] patch_step(
                m,
                ps.last().0,
                ps.last().1,
                b,
            );
        patches_unique(d, ps.drop_last(), m1, m2);
        match lookup(m1, ps.last().0) {
            Lookup::At(i) => {
                lookup_within(m1, ps.last().0);
                patched_unique(m1, i, value_bytes(ps.last().1), a, b);
            },
            _ => {},
        }
    }
}

proof fn search_within(d: Seq<u8>, id: u16, lo: int, hi: int)
    requires
        0 <= lo,
    ensures
        search_dir(d, id, lo, hi) matches Lookup::At(i) ==> lo <= i < hi,
    decreases hi - lo,
{
    if lo < hi {
        let mid = lo + (hi - lo) / 2;
        search_within(d, id, mid + 1, hi);
        search_within(d, id, lo, mid);
    }
}

/// A column that is found is one of those of the row.
proof fn lookup_within(d: Seq<u8>, id: u16)
    ensures
        lookup(d, id) matches Lookup::At(i) ==> 0 <= i < num_cols(d),
{
    if d.len() >= 10 {
        search_within(d, id, 0, num_cols(d));
    }
}

/// Where all patches can be made, none of them fails.
pub proof fn patches_succeed(d: Seq<u8>, ps: Seq<(u16, ValueView)>, r: Seq<u8>, k: int)
    requires
        patches_to(d, ps, r),
        0 <= k < ps.len(),
    ensures
        !patch_fails(d, ps, k),
    decreases ps.len(),
{
    let m = choose|m: Seq<u8>|
        patches_to(d, ps.drop_last(), m) && #[trigger] patch_step(m, ps.last().0, ps.last().1, r);
    assert(ps.drop_last() =~= ps.take(ps.len() - 1));
    if k == ps.len() - 1 {
        if patch_fails(d, ps, k) {
            let m2 = choose|m2: Seq<u8>| #[trigger]
                patches_to(d, ps.take(k), m2) && !can_patch(m2, ps[k].0, ps[k].1);
            patches_unique(d, ps.take(k), m, m2);
        }
    } else {
        patches_succeed(d, ps.drop_last(), m, k);
        assert(ps.drop_last().take(k) =~= ps.take(k));
        if patch_fails(d, ps, k) {
            let m2 = choose|m2: Seq<u8>| #[trigger]
                patches_to(d, ps.take(k), m2) && !can_patch(m2, ps[k].0, ps[k].1);
            assert(patches_to(d, ps.drop_last().take(k), m2));
            assert(patch_fails(d, ps.drop_last(), k));
        }
    }
}

/// Patches keep the number of the row.
pub proof fn patches_keep_id(d: Seq<u8>, ps: Seq<(u16, ValueView)>, r: Seq<u8>)
    requires
        patches_to(d, ps, r),
        d.len() >= 8,
    ensures
        r.len() >= 8,
        bytes::get_u64(r, 0) == bytes::get_u64(d, 0),
    decreases ps.len(),
{
    if ps.len() > 0 {
        let m = choose|m: Seq<u8>|
            patches_to(d, ps.drop_last(), m) && #[trigger] patch_step(
                m,
                ps.last().0,
                ps.last().1,
                r,
            );
        patches_keep_id(d, ps.drop_last(), m);
        match lookup(m, ps.last().0) {
            Lookup::At(i) => {
                lookup_within(m, ps.last().0);
                let nv = value_bytes(ps.last().1);
                let s = value_start(m, i);
                assert(s >= 10);
                assert forall|k: int| 0 <= k < 8 implies #[trigger] r[0 + k] == m[0 + k] by {
                    assert(!in_later_offset(m, i, k));
                    let raw = m.subrange(0, s) + nv + m.subrange(value_end(m, i), m.len() as int);
                    assert(raw[k] == m[k]);
                }
                bytes::get_agree(r, 0, m, 0, 8);
            },
            _ => {},
        }
    }
}

}
