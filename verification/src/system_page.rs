//! The system page: the registry of tables as the bytes of page zero.
//!
//! After the page header it holds the magic number, the number the next table
//! gets, the number of tables, and then each table in turn.

use crate::bytes;
use crate::bytes::{append, bytes_u16, bytes_u32, bytes_u64, copy_slice, read_u16, read_u32, read_u64};
use crate::error::{corruption, Result};
use crate::page;
use crate::page::{Page, PAGE_SIZE};
use crate::row;
use crate::row::string_from_utf8;
use crate::table;
use crate::table::{IndexMeta, IndexView, TableMeta, TableView};
use crate::value::{ColumnDef, ColumnView, Type};
use vstd::prelude::*;

verus! {

pub const SYSTEM_PAGE_MAGIC: u32 = 0xB00D_5150;

/// Where the payload of a system page ends: before the checksum.
pub const SYSTEM_PAGE_PAYLOAD: usize = 4092;

/// The tag of a type.
pub open spec fn tag_of(t: Type) -> u8 {
    match t {
        Type::Text => 1,
        Type::Integer => 2,
        Type::Real => 3,
        Type::Blob => 4,
        Type::Boolean => 5,
    }
}

/// The type of a tag.
pub open spec fn type_of_tag(tag: u8) -> Option<Type> {
    if tag == 1 {
        Some(Type::Text)
    } else if tag == 2 {
        Some(Type::Integer)
    } else if tag == 3 {
        Some(Type::Real)
    } else if tag == 4 {
        Some(Type::Blob)
    } else if tag == 5 {
        Some(Type::Boolean)
    } else {
        None
    }
}

/// The tag of a type.
pub fn type_to_tag(t: Type) -> (tag: u8)
    ensures
        tag == tag_of(t),
        type_of_tag(tag) == Some(t),
{
    match t {
        Type::Text => 1,
        Type::Integer => 2,
        Type::Real => 3,
        Type::Blob => 4,
        Type::Boolean => 5,
    }
}

/// The type of a tag.
pub fn tag_to_type(tag: u8) -> (r: Result<Type>)
    ensures
        r is Ok <==> type_of_tag(tag) is Some,
        r matches Ok(t) ==> type_of_tag(tag) == Some(t),
        r matches Err(e) ==> e is Corruption,
{
    match tag {
        1 => Ok(Type::Text),
        2 => Ok(Type::Integer),
        3 => Ok(Type::Real),
        4 => Ok(Type::Blob),
        5 => Ok(Type::Boolean),
        _ => Err(corruption("unknown type tag")),
    }
}

/// The byte of a flag.
pub open spec fn flag(b: bool) -> u8 {
    if b {
        1
    } else {
        0
    }
}

/// A string with its length in front.
pub open spec fn text_bytes(s: Seq<char>) -> Seq<u8> {
    let b = vstd::utf8::encode_utf8(s);
    bytes::le16(row::low16(b.len() as int)) + b
}

/// The bytes of a column.
pub open spec fn column_bytes(c: ColumnView) -> Seq<u8> {
    text_bytes(c.name) + seq![tag_of(c.col_type), flag(c.nullable), flag(c.unique)]
}

/// The bytes of an index.
pub open spec fn index_bytes(ix: IndexView) -> Seq<u8> {
    text_bytes(ix.name) + (text_bytes(table::leading(ix)) + bytes::le32(ix.root_page))
}

/// Byte strings, one after the other.
pub open spec fn joined(parts: Seq<Seq<u8>>) -> Seq<u8>
    decreases parts.len(),
{
    if parts.len() == 0 {
        Seq::empty()
    } else {
        joined(parts.drop_last()) + parts.last()
    }
}

/// The bytes of each column.
pub open spec fn column_parts(v: Seq<ColumnView>) -> Seq<Seq<u8>> {
    v.map_values(|c: ColumnView| column_bytes(c))
}

/// The bytes of each index.
pub open spec fn index_parts(v: Seq<IndexView>) -> Seq<Seq<u8>> {
    v.map_values(|ix: IndexView| index_bytes(ix))
}

/// The counters at the start of a table.
pub open spec fn table_head(t: TableView) -> Seq<u8> {
    bytes::le32(t.table_id) + bytes::le32(t.root_page) + bytes::le64(t.row_count) + bytes::le64(
        t.next_rowid,
    )
}

/// The bytes of a table.
#[verifier::opaque]
pub open spec fn table_bytes(t: TableView) -> Seq<u8> {
    table_head(t) + (text_bytes(t.name) + (bytes::le16(row::low16(t.columns.len() as int)) + (joined(
        column_parts(t.columns),
    ) + (bytes::le16(row::low16(t.indexes.len() as int)) + (joined(index_parts(t.indexes)) + seq![
        flag(t.encrypted),
    ])))))
}

/// The bytes of each table.
pub open spec fn table_parts(v: Seq<TableView>) -> Seq<Seq<u8>> {
    v.map_values(|t: TableView| table_bytes(t))
}

/// What a system page holds after its header.
pub open spec fn registry_bytes(v: Seq<TableView>, next_id: u32) -> Seq<u8> {
    bytes::le32(SYSTEM_PAGE_MAGIC) + (bytes::le32(next_id) + (bytes::le16(row::low16(v.len() as int))
        + joined(table_parts(v))))
}

/// The tables fit into one system page.
pub open spec fn registry_fits(v: Seq<TableView>, next_id: u32) -> bool {
    16 + registry_bytes(v, next_id).len() <= SYSTEM_PAGE_PAYLOAD
}

/// The page holds the byte string at that offset.
#[verifier::opaque]
pub open spec fn holds_at(d: Seq<u8>, at: int, b: Seq<u8>) -> bool {
    &&& 0 <= at
    &&& at + b.len() <= d.len()
    &&& forall|i: int| 0 <= i < b.len() ==> d[at + i] == #[trigger] b[i]
}

proof fn holds_parts(d: Seq<u8>, at: int, a: Seq<u8>, b: Seq<u8>)
    requires
        holds_at(d, at, a + b),
    ensures
        holds_at(d, at, a),
        holds_at(d, at + a.len(), b),
{
    reveal(holds_at);
    assert forall|i: int| 0 <= i < a.len() implies d[at + i] == #[trigger] a[i] by {
        assert((a + b)[i] == a[i]);
    }
    assert forall|i: int| 0 <= i < b.len() implies d[at + a.len() + i] == #[trigger] b[i] by {
        assert((a + b)[a.len() + i] == b[i]);
    }
}

proof fn holds_numbers(d: Seq<u8>, at: int)
    ensures
        forall|v: u16| #[trigger] holds_at(d, at, bytes::le16(v)) ==> bytes::get_u16(d, at) == v,
        forall|v: u32| #[trigger] holds_at(d, at, bytes::le32(v)) ==> bytes::get_u32(d, at) == v,
        forall|v: u64| #[trigger] holds_at(d, at, bytes::le64(v)) ==> bytes::get_u64(d, at) == v,
{
    reveal(holds_at);
    assert forall|v: u16| #[trigger] holds_at(d, at, bytes::le16(v)) implies bytes::get_u16(d, at)
        == v by {
        bytes::le16_round_trip(v);
        assert(d.subrange(at, at + 2) =~= bytes::le16(v));
        bytes::get_u16_of(d, at, v);
    }
    assert forall|v: u32| #[trigger] holds_at(d, at, bytes::le32(v)) implies bytes::get_u32(d, at)
        == v by {
        bytes::le32_round_trip(v);
        assert(d.subrange(at, at + 4) =~= bytes::le32(v));
        bytes::get_u32_of(d, at, v);
    }
    assert forall|v: u64| #[trigger] holds_at(d, at, bytes::le64(v)) implies bytes::get_u64(d, at)
        == v by {
        bytes::le64_round_trip(v);
        assert(d.subrange(at, at + 8) =~= bytes::le64(v));
        bytes::get_u64_of(d, at, v);
    }
}

proof fn holds_byte(d: Seq<u8>, at: int, b: Seq<u8>, i: int)
    requires
        holds_at(d, at, b),
        0 <= i < b.len(),
    ensures
        d[at + i] == b[i],
        0 <= at + i < d.len(),
{
    reveal(holds_at);
}

/// The first of several byte strings stands first.
proof fn joined_front(parts: Seq<Seq<u8>>)
    requires
        parts.len() > 0,
    ensures
        joined(parts) == parts[0] + joined(parts.drop_first()),
    decreases parts.len(),
{
    if parts.len() == 1 {
        assert(parts.drop_last().len() == 0);
        assert(parts.drop_first().len() == 0);
        assert(joined(parts.drop_last()) =~= Seq::<u8>::empty());
        assert(joined(parts.drop_first()) =~= Seq::<u8>::empty());
        assert(joined(parts) =~= parts[0] + joined(parts.drop_first()));
    } else {
        joined_front(parts.drop_last());
        assert(parts.drop_last().drop_first() =~= parts.drop_first().drop_last());
        assert(joined(parts) =~= parts[0] + joined(parts.drop_first()));
    }
}

proof fn joined_push(parts: Seq<Seq<u8>>, b: Seq<u8>)
    ensures
        joined(parts.push(b)) == joined(parts) + b,
{
    assert(parts.push(b).drop_last() =~= parts);
}

/// The string at an offset and where it ends, if `extra` more bytes follow it
/// within the payload.
pub open spec fn text_at(d: Seq<u8>, at: int, extra: int) -> Option<(Seq<char>, int)> {
    let n = bytes::get_u16(d, at);
    if at + 2 > SYSTEM_PAGE_PAYLOAD || at + 2 + n + extra > SYSTEM_PAGE_PAYLOAD
        || !vstd::utf8::valid_utf8(d.subrange(at + 2, at + 2 + n)) {
        None
    } else {
        Some((vstd::utf8::decode_utf8(d.subrange(at + 2, at + 2 + n)), at + 2 + n))
    }
}

/// The column at an offset and where it ends.
pub open spec fn column_at(d: Seq<u8>, at: int) -> Option<(ColumnView, int)> {
    match text_at(d, at, 3) {
        None => None,
        Some((name, e)) => match type_of_tag(d[e]) {
            None => None,
            Some(t) => Some(
                (
                    ColumnView {
                        name,
                        col_type: t,
                        nullable: d[e + 1] != 0,
                        unique: d[e + 2] != 0,
                        default: None,
                        dropped: false,
                    },
                    e + 3,
                ),
            ),
        },
    }
}

/// The columns at an offset and where they end.
pub open spec fn columns_at(d: Seq<u8>, at: int, n: nat) -> Option<(Seq<ColumnView>, int)>
    decreases n,
{
    if n == 0 {
        Some((Seq::empty(), at))
    } else {
        match column_at(d, at) {
            None => None,
            Some((c, e)) => match columns_at(d, e, (n - 1) as nat) {
                None => None,
                Some((rest, e2)) => Some((seq![c] + rest, e2)),
            },
        }
    }
}

/// The index at an offset and where it ends.
pub open spec fn index_at(d: Seq<u8>, at: int) -> Option<(IndexView, int)> {
    match text_at(d, at, 0) {
        None => None,
        Some((name, e)) => match text_at(d, e, 4) {
            None => None,
            Some((column, e2)) => Some(
                (
                    IndexView {
                        name,
                        columns: seq![column],
                        unique: false,
                        root_page: bytes::get_u32(d, e2),
                    },
                    e2 + 4,
                ),
            ),
        },
    }
}

/// The indexes at an offset and where they end.
pub open spec fn indexes_at(d: Seq<u8>, at: int, n: nat) -> Option<(Seq<IndexView>, int)>
    decreases n,
{
    if n == 0 {
        Some((Seq::empty(), at))
    } else {
        match index_at(d, at) {
            None => None,
            Some((ix, e)) => match indexes_at(d, e, (n - 1) as nat) {
                None => None,
                Some((rest, e2)) => Some((seq![ix] + rest, e2)),
            },
        }
    }
}

/// The columns with their count in front.
pub open spec fn column_list_at(d: Seq<u8>, at: int) -> Option<(Seq<ColumnView>, int)> {
    if at + 2 > SYSTEM_PAGE_PAYLOAD {
        None
    } else {
        columns_at(d, at + 2, bytes::get_u16(d, at) as nat)
    }
}

/// The indexes with their count in front.
pub open spec fn index_list_at(d: Seq<u8>, at: int) -> Option<(Seq<IndexView>, int)> {
    if at + 2 > SYSTEM_PAGE_PAYLOAD {
        None
    } else {
        indexes_at(d, at + 2, bytes::get_u16(d, at) as nat)
    }
}

/// The table at an offset and where it ends. A table that ends with the
/// payload, without the last flag, is not encrypted.
#[verifier::opaque]
pub open spec fn table_at(d: Seq<u8>, at: int) -> Option<(TableView, int)> {
    if at + 24 > SYSTEM_PAGE_PAYLOAD {
        None
    } else {
        match text_at(d, at + 24, 0) {
            None => None,
            Some((name, e)) => match column_list_at(d, e) {
                None => None,
                Some((columns, e2)) => match index_list_at(d, e2) {
                    None => None,
                    Some((indexes, e3)) => Some(
                        (
                            TableView {
                                name,
                                table_id: bytes::get_u32(d, at),
                                columns,
                                root_page: bytes::get_u32(d, at + 4),
                                row_count: bytes::get_u64(d, at + 8),
                                next_rowid: bytes::get_u64(d, at + 16),
                                indexes,
                                encrypted: e3 < SYSTEM_PAGE_PAYLOAD && d[e3] != 0,
                                key: None,
                            },
                            if e3 < SYSTEM_PAGE_PAYLOAD {
                                e3 + 1
                            } else {
                                e3
                            },
                        ),
                    ),
                },
            },
        }
    }
}

/// The tables at an offset and where they end.
pub open spec fn tables_at(d: Seq<u8>, at: int, n: nat) -> Option<(Seq<TableView>, int)>
    decreases n,
{
    if n == 0 {
        Some((Seq::empty(), at))
    } else {
        match table_at(d, at) {
            None => None,
            Some((t, e)) => match tables_at(d, e, (n - 1) as nat) {
                None => None,
                Some((rest, e2)) => Some((seq![t] + rest, e2)),
            },
        }
    }
}

/// The registry that a system page holds: its tables and the next number.
pub open spec fn registry_at(d: Seq<u8>) -> Option<(Seq<TableView>, u32)> {
    if bytes::get_u32(d, 16) != SYSTEM_PAGE_MAGIC {
        None
    } else {
        match tables_at(d, 26, bytes::get_u16(d, 24) as nat) {
            None => None,
            Some((v, _)) => Some((v, bytes::get_u32(d, 20))),
        }
    }
}

/// Checks that writing `needed` bytes at `offset` stays within the payload.
pub fn check_sys_page_bounds(offset: usize, needed: usize) -> (r: Result<()>)
    ensures
        r is Ok <==> offset + needed <= SYSTEM_PAGE_PAYLOAD,
        r matches Err(e) ==> e is Corruption,
{
    if offset > SYSTEM_PAGE_PAYLOAD || needed > SYSTEM_PAGE_PAYLOAD - offset {
        return Err(corruption("system page overflow: metadata exceeds 4KB page"));
    }
    Ok(())
}

fn append_text(buf: &mut Vec<u8>, s: &str)
    ensures
        final(buf)@ == old(buf)@ + text_bytes(s@),
{
    let b = s.as_bytes();
    let n = bytes_u16((b.len() % 0x1_0000) as u16);
    append(buf, n.as_slice());
    append(buf, b);
    assert(buf@ =~= old(buf)@ + text_bytes(s@));
}

fn append_column(buf: &mut Vec<u8>, c: &ColumnDef)
    ensures
        final(buf)@ == old(buf)@ + column_bytes(c@),
{
    append_text(buf, c.name.as_str());
    buf.push(type_to_tag(c.col_type));
    buf.push(
        if c.nullable {
            1
        } else {
            0
        },
    );
    buf.push(
        if c.unique {
            1
        } else {
            0
        },
    );
    assert(buf@ =~= old(buf)@ + column_bytes(c@));
}

fn append_index(buf: &mut Vec<u8>, ix: &IndexMeta)
    ensures
        final(buf)@ == old(buf)@ + index_bytes(ix@),
{
    append_text(buf, ix.name.as_str());
    let column = ix.leading_column();
    append_text(buf, column.as_str());
    let root = bytes_u32(ix.root_page);
    append(buf, root.as_slice());
    assert(buf@ =~= old(buf)@ + index_bytes(ix@));
}

fn append_columns(buf: &mut Vec<u8>, v: &Vec<ColumnDef>)
    ensures
        final(buf)@ == old(buf)@ + joined(column_parts(table::columns_view(v@))),
{
    let ghost parts = column_parts(table::columns_view(v@));
    let n: usize = v.len();
    let mut i: usize = 0;
    assert(buf@ =~= old(buf)@ + joined(parts.take(0)));
    while i < n
        invariant
            i <= n,
            n == v@.len(),
            parts == column_parts(table::columns_view(v@)),
            buf@ == old(buf)@ + joined(parts.take(i as int)),
        decreases n - i,
    {
        append_column(buf, &v[i]);
        proof {
            assert(parts.take(i + 1) =~= parts.take(i as int).push(parts[i as int]));
            joined_push(parts.take(i as int), parts[i as int]);
            assert(parts[i as int] == column_bytes(v@[i as int]@));
            assert(buf@ =~= old(buf)@ + joined(parts.take(i + 1)));
        }
        i += 1;
    }
    assert(parts.take(n as int) =~= parts);
}

fn append_indexes(buf: &mut Vec<u8>, v: &Vec<IndexMeta>)
    ensures
        final(buf)@ == old(buf)@ + joined(index_parts(table::indexes_view(v@))),
{
    let ghost parts = index_parts(table::indexes_view(v@));
    let n: usize = v.len();
    let mut i: usize = 0;
    assert(buf@ =~= old(buf)@ + joined(parts.take(0)));
    while i < n
        invariant
            i <= n,
            n == v@.len(),
            parts == index_parts(table::indexes_view(v@)),
            buf@ == old(buf)@ + joined(parts.take(i as int)),
        decreases n - i,
    {
        append_index(buf, &v[i]);
        proof {
            assert(parts.take(i + 1) =~= parts.take(i as int).push(parts[i as int]));
            joined_push(parts.take(i as int), parts[i as int]);
            assert(parts[i as int] == index_bytes(v@[i as int]@));
            assert(buf@ =~= old(buf)@ + joined(parts.take(i + 1)));
        }
        i += 1;
    }
    assert(parts.take(n as int) =~= parts);
}

fn append_table(buf: &mut Vec<u8>, t: &TableMeta)
    ensures
        final(buf)@ == old(buf)@ + table_bytes(t@),
{
    let a = bytes_u32(t.table_id);
    append(buf, a.as_slice());
    let b = bytes_u32(t.root_page);
    append(buf, b.as_slice());
    let c = bytes_u64(t.row_count);
    append(buf, c.as_slice());
    let d = bytes_u64(t.next_rowid);
    append(buf, d.as_slice());
    append_text(buf, t.name.as_str());
    let e = bytes_u16((t.columns.len() % 0x1_0000) as u16);
    append(buf, e.as_slice());
    append_columns(buf, &t.columns);
    let f = bytes_u16((t.indexes.len() % 0x1_0000) as u16);
    append(buf, f.as_slice());
    append_indexes(buf, &t.indexes);
    buf.push(
        if t.encrypted {
            1
        } else {
            0
        },
    );
    proof {
        reveal(table_bytes);
        assert(buf@ =~= old(buf)@ + table_bytes(t@));
    }
}

/// Serialize the table registry into a system page.
pub fn serialize_system_page(metas: &[TableMeta], next_table_id: u32) -> (r: Result<Page>)
    ensures
        r is Ok <==> registry_fits(table::tables_view(metas@), next_table_id),
        r matches Ok(p) ==> {
            let b = registry_bytes(table::tables_view(metas@), next_table_id);
            &&& page::flags_of(p.data@) == page::PAGE_SYSTEM
            &&& page::magic_of(p.data@) == page::MAGIC
            &&& page::checksum_ok(p.data@)
            &&& holds_at(p.data@, 16, b)
            &&& forall|i: int| 16 + b.len() <= i < SYSTEM_PAGE_PAYLOAD ==> p.data@[i] == 0
        },
        r matches Err(e) ==> e is Corruption,
{
    let ghost v = table::tables_view(metas@);
    let ghost parts = table_parts(v);
    let mut buf: Vec<u8> = Vec::new();
    let a = bytes_u32(SYSTEM_PAGE_MAGIC);
    append(&mut buf, a.as_slice());
    let b = bytes_u32(next_table_id);
    append(&mut buf, b.as_slice());
    let n: usize = metas.len();
    let c = bytes_u16((n % 0x1_0000) as u16);
    append(&mut buf, c.as_slice());
    let ghost head = buf@;
    let mut i: usize = 0;
    assert(buf@ =~= head + joined(parts.take(0)));
    while i < n
        invariant
            i <= n,
            n == metas@.len(),
            v == table::tables_view(metas@),
            parts == table_parts(v),
            buf@ == head + joined(parts.take(i as int)),
        decreases n - i,
    {
        append_table(&mut buf, &metas[i]);
        proof {
            assert(parts.take(i + 1) =~= parts.take(i as int).push(parts[i as int]));
            joined_push(parts.take(i as int), parts[i as int]);
            assert(parts[i as int] == table_bytes(metas@[i as int]@));
            assert(buf@ =~= head + joined(parts.take(i + 1)));
        }
        i += 1;
    }
    assert(parts.take(n as int) =~= parts);
    assert(buf@ =~= registry_bytes(v, next_table_id));
    check_sys_page_bounds(16, buf.len())?;
    let mut p = Page::new_system();
    let ghost before = p.data@;
    p.put(16, buf.as_slice());
    proof {
        page::same_but_fields(before, p.data@, 16, buf@.len() as int);
    }
    let ghost filled = p.data@;
    p.update_checksum();
    proof {
        reveal(holds_at);
        assert forall|k: int| 0 <= k < buf@.len() implies p.data@[16 + k] == #[trigger] buf@[k] by {
            assert(filled.subrange(16, 16 + buf@.len() as int)[k] == buf@[k]);
        }
    }
    Ok(p)
}

fn read_text(data: &[u8; PAGE_SIZE], at: usize, extra: usize) -> (r: Result<(String, usize)>)
    requires
        at <= SYSTEM_PAGE_PAYLOAD,
        extra <= 4,
    ensures
        match text_at(data@, at as int, extra as int) {
            Some((s, e)) => r matches Ok(x) && x.0@ == s && x.1 == e && e + extra
                <= SYSTEM_PAGE_PAYLOAD,
            None => r matches Err(err) && err is Corruption,
        },
{
    if at + 2 > SYSTEM_PAGE_PAYLOAD {
        return Err(corruption("system page truncated at a name length"));
    }
    let n: usize = read_u16(data.as_slice(), at) as usize;
    if at + 2 + n + extra > SYSTEM_PAGE_PAYLOAD {
        return Err(corruption("system page truncated at a name"));
    }
    let part = copy_slice(&data[at + 2..at + 2 + n]);
    assert(part@ =~= data@.subrange(at + 2, at + 2 + n));
    match string_from_utf8(part) {
        Some(s) => Ok((s, at + 2 + n)),
        None => Err(corruption("invalid utf8 in system page")),
    }
}

fn read_column(data: &[u8; PAGE_SIZE], at: usize) -> (r: Result<(ColumnDef, usize)>)
    requires
        at <= SYSTEM_PAGE_PAYLOAD,
    ensures
        match column_at(data@, at as int) {
            Some((c, e)) => r matches Ok(x) && x.0@ == c && x.1 == e && e <= SYSTEM_PAGE_PAYLOAD,
            None => r matches Err(err) && err is Corruption,
        },
{
    let (name, e): (String, usize) = read_text(data, at, 3)?;
    let t = tag_to_type(data[e])?;
    let mut c = ColumnDef::new(name.as_str(), t);
    if data[e + 1] == 0 {
        c = c.not_null();
    }
    if data[e + 2] != 0 {
        c = c.unique();
    }
    Ok((c, e + 3))
}

fn read_columns(data: &[u8; PAGE_SIZE], at: usize) -> (r: Result<(Vec<ColumnDef>, usize)>)
    requires
        at <= SYSTEM_PAGE_PAYLOAD,
    ensures
        match column_list_at(data@, at as int) {
            Some((v, e)) => r matches Ok(x) && table::columns_view(x.0@) == v && x.1 == e && e
                <= SYSTEM_PAGE_PAYLOAD,
            None => r matches Err(err) && err is Corruption,
        },
{
    if at + 2 > SYSTEM_PAGE_PAYLOAD {
        return Err(corruption("system page truncated at column count"));
    }
    let n: usize = read_u16(data.as_slice(), at) as usize;
    let mut v: Vec<ColumnDef> = Vec::new();
    let mut e: usize = at + 2;
    let mut i: usize = 0;
    let ghost want = columns_at(data@, at + 2, n as nat);
    assert(table::columns_view(v@) =~= Seq::<ColumnView>::empty());
    assert(match want {
        Some((rest, e2)) => Seq::<ColumnView>::empty() + rest =~= rest,
        None => true,
    });
    while i < n
        invariant
            i <= n,
            e <= SYSTEM_PAGE_PAYLOAD,
            at + 2 <= SYSTEM_PAGE_PAYLOAD,
            n == bytes::get_u16(data@, at as int),
            want == columns_at(data@, at + 2, n as nat),
            want == match columns_at(data@, e as int, (n - i) as nat) {
                Some((rest, e2)) => Some((table::columns_view(v@) + rest, e2)),
                None => None,
            },
        decreases n - i,
    {
        let ghost done = v@;
        let (c, e1): (ColumnDef, usize) = read_column(data, e)?;
        v.push(c);
        proof {
            assert(table::columns_view(v@) =~= table::columns_view(done).push(c@));
            match columns_at(data@, e1 as int, (n - i - 1) as nat) {
                Some((rest, e2)) => {
                    assert(table::columns_view(done) + (seq![c@] + rest) =~= table::columns_view(v@)
                        + rest);
                },
                None => {},
            }
        }
        e = e1;
        i += 1;
    }
    assert(table::columns_view(v@) + Seq::<ColumnView>::empty() =~= table::columns_view(v@));
    Ok((v, e))
}

fn read_index(data: &[u8; PAGE_SIZE], at: usize) -> (r: Result<(IndexMeta, usize)>)
    requires
        at <= SYSTEM_PAGE_PAYLOAD,
    ensures
        match index_at(data@, at as int) {
            Some((ix, e)) => r matches Ok(x) && x.0@ == ix && x.1 == e && e <= SYSTEM_PAGE_PAYLOAD,
            None => r matches Err(err) && err is Corruption,
        },
{
    let (name, e): (String, usize) = read_text(data, at, 0)?;
    let (column, e2): (String, usize) = read_text(data, e, 4)?;
    let root_page: u32 = read_u32(data.as_slice(), e2);
    let mut columns: Vec<String> = Vec::new();
    columns.push(column);
    assert(table::texts(columns@) =~= seq![column@]);
    Ok((IndexMeta { name, columns, unique: false, root_page }, e2 + 4))
}

fn read_indexes(data: &[u8; PAGE_SIZE], at: usize) -> (r: Result<(Vec<IndexMeta>, usize)>)
    requires
        at <= SYSTEM_PAGE_PAYLOAD,
    ensures
        match index_list_at(data@, at as int) {
            Some((v, e)) => r matches Ok(x) && table::indexes_view(x.0@) == v && x.1 == e && e
                <= SYSTEM_PAGE_PAYLOAD,
            None => r matches Err(err) && err is Corruption,
        },
{
    if at + 2 > SYSTEM_PAGE_PAYLOAD {
        return Err(corruption("system page truncated at index count"));
    }
    let n: usize = read_u16(data.as_slice(), at) as usize;
    let mut v: Vec<IndexMeta> = Vec::new();
    let mut e: usize = at + 2;
    let mut i: usize = 0;
    let ghost want = indexes_at(data@, at + 2, n as nat);
    assert(table::indexes_view(v@) =~= Seq::<IndexView>::empty());
    assert(match want {
        Some((rest, e2)) => Seq::<IndexView>::empty() + rest =~= rest,
        None => true,
    });
    while i < n
        invariant
            i <= n,
            e <= SYSTEM_PAGE_PAYLOAD,
            at + 2 <= SYSTEM_PAGE_PAYLOAD,
            n == bytes::get_u16(data@, at as int),
            want == indexes_at(data@, at + 2, n as nat),
            want == match indexes_at(data@, e as int, (n - i) as nat) {
                Some((rest, e2)) => Some((table::indexes_view(v@) + rest, e2)),
                None => None,
            },
        decreases n - i,
    {
        let ghost done = v@;
        let (ix, e1): (IndexMeta, usize) = read_index(data, e)?;
        v.push(ix);
        proof {
            assert(table::indexes_view(v@) =~= table::indexes_view(done).push(ix@));
            match indexes_at(data@, e1 as int, (n - i - 1) as nat) {
                Some((rest, e2)) => {
                    assert(table::indexes_view(done) + (seq![ix@] + rest) =~= table::indexes_view(
                        v@,
                    ) + rest);
                },
                None => {},
            }
        }
        e = e1;
        i += 1;
    }
    assert(table::indexes_view(v@) + Seq::<IndexView>::empty() =~= table::indexes_view(v@));
    Ok((v, e))
}

fn read_table(data: &[u8; PAGE_SIZE], at: usize) -> (r: Result<(TableMeta, usize)>)
    requires
        at <= SYSTEM_PAGE_PAYLOAD,
    ensures
        match table_at(data@, at as int) {
            Some((t, e)) => r matches Ok(x) && x.0@ == t && x.1 == e && e <= SYSTEM_PAGE_PAYLOAD,
            None => r matches Err(err) && err is Corruption,
        },
{
    proof {
        reveal(table_at);
    }
    if at + 24 > SYSTEM_PAGE_PAYLOAD {
        return Err(corruption("system page truncated in table header"));
    }
    let table_id: u32 = read_u32(data.as_slice(), at);
    let root_page: u32 = read_u32(data.as_slice(), at + 4);
    let row_count: u64 = read_u64(data.as_slice(), at + 8);
    let next_rowid: u64 = read_u64(data.as_slice(), at + 16);
    let (name, e): (String, usize) = read_text(data, at + 24, 0)?;
    let (columns, e2): (Vec<ColumnDef>, usize) = read_columns(data, e)?;
    let mut meta = TableMeta::new(name, table_id, columns, root_page);
    meta.row_count = row_count;
    meta.next_rowid = next_rowid;
    let (indexes, e3): (Vec<IndexMeta>, usize) = read_indexes(data, e2)?;
    meta.indexes = indexes;
    if e3 < SYSTEM_PAGE_PAYLOAD {
        meta.encrypted = data[e3] != 0;
        Ok((meta, e3 + 1))
    } else {
        Ok((meta, e3))
    }
}

/// Deserialize the table registry from a system page: the tables and the
/// number the next table gets.
pub fn deserialize_system_page(page: &Page) -> (r: Result<(Vec<TableMeta>, u32)>)
    ensures
        match registry_at(page.data@) {
            Some((v, next)) => r matches Ok(x) && table::tables_view(x.0@) == v && x.1 == next,
            None => r matches Err(e) && e is Corruption,
        },
{
    let data = &page.data;
    if read_u32(data.as_slice(), 16) != SYSTEM_PAGE_MAGIC {
        return Err(corruption("bad system page magic"));
    }
    let next_table_id: u32 = read_u32(data.as_slice(), 20);
    let n: usize = read_u16(data.as_slice(), 24) as usize;
    let mut v: Vec<TableMeta> = Vec::new();
    let mut e: usize = 26;
    let mut i: usize = 0;
    let ghost want = tables_at(data@, 26, n as nat);
    assert(table::tables_view(v@) =~= Seq::<TableView>::empty());
    assert(match want {
        Some((rest, e2)) => Seq::<TableView>::empty() + rest =~= rest,
        None => true,
    });
    while i < n
        invariant
            i <= n,
            e <= SYSTEM_PAGE_PAYLOAD,
            bytes::get_u32(page.data@, 16) == SYSTEM_PAGE_MAGIC,
            data@ == page.data@,
            n == bytes::get_u16(page.data@, 24),
            want == tables_at(data@, 26, n as nat),
            want == match tables_at(data@, e as int, (n - i) as nat) {
                Some((rest, e2)) => Some((table::tables_view(v@) + rest, e2)),
                None => None,
            },
        decreases n - i,
    {
        let ghost done = v@;
        let (t, e1): (TableMeta, usize) = read_table(data, e)?;
        v.push(t);
        proof {
            assert(table::tables_view(v@) =~= table::tables_view(done).push(t@));
            match tables_at(data@, e1 as int, (n - i - 1) as nat) {
                Some((rest, e2)) => {
                    assert(table::tables_view(done) + (seq![t@] + rest) =~= table::tables_view(v@)
                        + rest);
                },
                None => {},
            }
        }
        e = e1;
        i += 1;
    }
    assert(table::tables_view(v@) + Seq::<TableView>::empty() =~= table::tables_view(v@));
    Ok((v, next_table_id))
}

/// What a system page can hold of a table: columns without defaults, indexes
/// on one column that are not unique, and no key.
pub open spec fn persistent(t: TableView) -> bool {
    &&& t.key is None
    &&& forall|i: int|
        0 <= i < t.columns.len() ==> (#[trigger] t.columns[i]).default is None
            && !t.columns[i].dropped
    &&& forall|i: int|
        0 <= i < t.indexes.len() ==> (#[trigger] t.indexes[i]).columns.len() == 1
            && !t.indexes[i].unique
}

proof fn text_round_trip(d: Seq<u8>, at: int, s: Seq<char>, extra: int)
    requires
        holds_at(d, at, text_bytes(s)),
        at + text_bytes(s).len() + extra <= SYSTEM_PAGE_PAYLOAD,
        d.len() == 4096,
        extra >= 0,
    ensures
        text_at(d, at, extra) == Some((s, at + text_bytes(s).len())),
{
    reveal(holds_at);
    let b = vstd::utf8::encode_utf8(s);
    bytes::le16_round_trip(row::low16(b.len() as int));
    holds_parts(d, at, bytes::le16(row::low16(b.len() as int)), b);
    holds_numbers(d, at);
    assert(bytes::get_u16(d, at) == b.len());
    assert(d.subrange(at + 2, at + 2 + b.len()) =~= b);
    vstd::utf8::encode_utf8_decode_utf8(s);
    vstd::utf8::encode_utf8_valid_utf8(s);
}

proof fn column_round_trip(d: Seq<u8>, at: int, c: ColumnView)
    requires
        holds_at(d, at, column_bytes(c)),
        at + column_bytes(c).len() <= SYSTEM_PAGE_PAYLOAD,
        d.len() == 4096,
        c.default is None,
        !c.dropped,
    ensures
        column_at(d, at) == Some((c, at + column_bytes(c).len())),
{
    let tail = seq![tag_of(c.col_type), flag(c.nullable), flag(c.unique)];
    holds_parts(d, at, text_bytes(c.name), tail);
    text_round_trip(d, at, c.name, 3);
    let e = at + text_bytes(c.name).len();
    holds_byte(d, e, tail, 0);
    holds_byte(d, e, tail, 1);
    holds_byte(d, e, tail, 2);
}

proof fn columns_round_trip(d: Seq<u8>, at: int, v: Seq<ColumnView>)
    requires
        holds_at(d, at, joined(column_parts(v))),
        at + joined(column_parts(v)).len() <= SYSTEM_PAGE_PAYLOAD,
        d.len() == 4096,
        forall|i: int| 0 <= i < v.len() ==> (#[trigger] v[i]).default is None && !v[i].dropped,
    ensures
        columns_at(d, at, v.len()) == Some((v, at + joined(column_parts(v)).len())),
        v.len() <= joined(column_parts(v)).len(),
    decreases v.len(),
{
    if v.len() > 0 {
        let parts = column_parts(v);
        let rest = v.drop_first();
        joined_front(parts);
        assert(parts.drop_first() =~= column_parts(rest));
        holds_parts(d, at, parts[0], joined(column_parts(rest)));
        column_round_trip(d, at, v[0]);
        assert forall|i: int| 0 <= i < rest.len() implies (#[trigger] rest[i]).default is None
            && !rest[i].dropped by {
            assert(rest[i] == v[i + 1]);
        }
        columns_round_trip(d, at + parts[0].len(), rest);
        assert(seq![v[0]] + rest =~= v);
    } else {
        assert(v =~= Seq::empty());
    }
}

proof fn index_round_trip(d: Seq<u8>, at: int, ix: IndexView)
    requires
        holds_at(d, at, index_bytes(ix)),
        at + index_bytes(ix).len() <= SYSTEM_PAGE_PAYLOAD,
        d.len() == 4096,
        ix.columns.len() == 1,
        !ix.unique,
    ensures
        index_at(d, at) == Some((ix, at + index_bytes(ix).len())),
{
    let a = text_bytes(ix.name);
    let b = text_bytes(table::leading(ix));
    let c = bytes::le32(ix.root_page);
    bytes::le32_round_trip(ix.root_page);
    holds_parts(d, at, a, b + c);
    holds_parts(d, at + a.len(), b, c);
    text_round_trip(d, at, ix.name, 0);
    text_round_trip(d, at + a.len(), table::leading(ix), 4);
    holds_numbers(d, at + a.len() + b.len());
    assert(seq![table::leading(ix)] =~= ix.columns);
}

proof fn indexes_round_trip(d: Seq<u8>, at: int, v: Seq<IndexView>)
    requires
        holds_at(d, at, joined(index_parts(v))),
        at + joined(index_parts(v)).len() <= SYSTEM_PAGE_PAYLOAD,
        d.len() == 4096,
        forall|i: int| 0 <= i < v.len() ==> (#[trigger] v[i]).columns.len() == 1 && !v[i].unique,
    ensures
        indexes_at(d, at, v.len()) == Some((v, at + joined(index_parts(v)).len())),
        v.len() <= joined(index_parts(v)).len(),
    decreases v.len(),
{
    if v.len() > 0 {
        let parts = index_parts(v);
        let rest = v.drop_first();
        joined_front(parts);
        assert(parts.drop_first() =~= index_parts(rest));
        holds_parts(d, at, parts[0], joined(index_parts(rest)));
        index_round_trip(d, at, v[0]);
        assert forall|i: int| 0 <= i < rest.len() implies (#[trigger] rest[i]).columns.len() == 1
            && !rest[i].unique by {
            assert(rest[i] == v[i + 1]);
        }
        indexes_round_trip(d, at + parts[0].len(), rest);
        assert(seq![v[0]] + rest =~= v);
    } else {
        assert(v =~= Seq::empty());
    }
}

proof fn head_round_trip(d: Seq<u8>, at: int, t: TableView)
    requires
        holds_at(d, at, table_head(t)),
    ensures
        table_head(t).len() == 24,
        bytes::get_u32(d, at) == t.table_id,
        bytes::get_u32(d, at + 4) == t.root_page,
        bytes::get_u64(d, at + 8) == t.row_count,
        bytes::get_u64(d, at + 16) == t.next_rowid,
{
    bytes::le32_round_trip(t.table_id);
    bytes::le32_round_trip(t.root_page);
    bytes::le64_round_trip(t.row_count);
    bytes::le64_round_trip(t.next_rowid);
    let h1 = bytes::le32(t.table_id) + bytes::le32(t.root_page);
    let h2 = h1 + bytes::le64(t.row_count);
    holds_parts(d, at, h2, bytes::le64(t.next_rowid));
    holds_parts(d, at, h1, bytes::le64(t.row_count));
    holds_parts(d, at, bytes::le32(t.table_id), bytes::le32(t.root_page));
    holds_numbers(d, at);
    holds_numbers(d, at + 4);
    holds_numbers(d, at + 8);
    holds_numbers(d, at + 16);
}

/// Byte strings behind each other are each where the ones before it end.
proof fn holds_chain(
    d: Seq<u8>,
    at: int,
    a: Seq<u8>,
    b: Seq<u8>,
    c: Seq<u8>,
    e: Seq<u8>,
    f: Seq<u8>,
    g: Seq<u8>,
    h: Seq<u8>,
)
    requires
        holds_at(d, at, a + (b + (c + (e + (f + (g + h)))))),
    ensures
        holds_at(d, at, a),
        holds_at(d, at + a.len(), b),
        holds_at(d, at + a.len() + b.len(), c),
        holds_at(d, at + a.len() + b.len() + c.len(), e),
        holds_at(d, at + a.len() + b.len() + c.len() + e.len(), f),
        holds_at(d, at + a.len() + b.len() + c.len() + e.len() + f.len(), g),
        holds_at(d, at + a.len() + b.len() + c.len() + e.len() + f.len() + g.len(), h),
        (a + (b + (c + (e + (f + (g + h)))))).len() == a.len() + b.len() + c.len() + e.len()
            + f.len() + g.len() + h.len(),
{
    holds_parts(d, at, a, b + (c + (e + (f + (g + h)))));
    holds_parts(d, at + a.len(), b, c + (e + (f + (g + h))));
    holds_parts(d, at + a.len() + b.len(), c, e + (f + (g + h)));
    holds_parts(d, at + a.len() + b.len() + c.len(), e, f + (g + h));
    holds_parts(d, at + a.len() + b.len() + c.len() + e.len(), f, g + h);
    holds_parts(d, at + a.len() + b.len() + c.len() + e.len() + f.len(), g, h);
}

/// The number that a list's length is written as.
proof fn count_round_trip(d: Seq<u8>, at: int, n: nat)
    requires
        holds_at(d, at, bytes::le16(row::low16(n as int))),
        n < 0x1_0000,
    ensures
        bytes::get_u16(d, at) == n,
        bytes::le16(row::low16(n as int)).len() == 2,
{
    bytes::le16_round_trip(row::low16(n as int));
    holds_numbers(d, at);
}

/// The columns of a table are read back.
proof fn column_list_round_trip(d: Seq<u8>, at: int, v: Seq<ColumnView>)
    requires
        holds_at(d, at, bytes::le16(row::low16(v.len() as int))),
        holds_at(d, at + 2, joined(column_parts(v))),
        at + 2 + joined(column_parts(v)).len() <= SYSTEM_PAGE_PAYLOAD,
        0 <= at,
        d.len() == 4096,
        forall|i: int| 0 <= i < v.len() ==> (#[trigger] v[i]).default is None && !v[i].dropped,
    ensures
        column_list_at(d, at) == Some((v, at + 2 + joined(column_parts(v)).len())),
{
    columns_round_trip(d, at + 2, v);
    count_round_trip(d, at, v.len());
}

/// The indexes of a table are read back.
proof fn index_list_round_trip(d: Seq<u8>, at: int, v: Seq<IndexView>)
    requires
        holds_at(d, at, bytes::le16(row::low16(v.len() as int))),
        holds_at(d, at + 2, joined(index_parts(v))),
        at + 2 + joined(index_parts(v)).len() <= SYSTEM_PAGE_PAYLOAD,
        0 <= at,
        d.len() == 4096,
        forall|i: int| 0 <= i < v.len() ==> (#[trigger] v[i]).columns.len() == 1 && !v[i].unique,
    ensures
        index_list_at(d, at) == Some((v, at + 2 + joined(index_parts(v)).len())),
{
    indexes_round_trip(d, at + 2, v);
    count_round_trip(d, at, v.len());
}

/// A table's parts, where they stand.
proof fn table_laid_out(d: Seq<u8>, at: int, t: TableView)
    requires
        holds_at(d, at, table_bytes(t)),
    ensures
        ({
            let e = at + 24 + text_bytes(t.name).len();
            let e2 = e + 2 + joined(column_parts(t.columns)).len();
            let e3 = e2 + 2 + joined(index_parts(t.indexes)).len();
            &&& holds_at(d, at, table_head(t))
            &&& holds_at(d, at + 24, text_bytes(t.name))
            &&& holds_at(d, e, bytes::le16(row::low16(t.columns.len() as int)))
            &&& holds_at(d, e + 2, joined(column_parts(t.columns)))
            &&& holds_at(d, e2, bytes::le16(row::low16(t.indexes.len() as int)))
            &&& holds_at(d, e2 + 2, joined(index_parts(t.indexes)))
            &&& holds_at(d, e3, seq![flag(t.encrypted)])
            &&& at + table_bytes(t).len() == e3 + 1
        }),
{
    reveal(table_bytes);
    let nc = bytes::le16(row::low16(t.columns.len() as int));
    let ni = bytes::le16(row::low16(t.indexes.len() as int));
    bytes::le16_round_trip(row::low16(t.columns.len() as int));
    bytes::le16_round_trip(row::low16(t.indexes.len() as int));
    holds_chain(
        d,
        at,
        table_head(t),
        text_bytes(t.name),
        nc,
        joined(column_parts(t.columns)),
        ni,
        joined(index_parts(t.indexes)),
        seq![flag(t.encrypted)],
    );
    head_round_trip(d, at, t);
}

#[verifier::spinoff_prover]
#[verifier::rlimit(80)]
proof fn table_round_trip(d: Seq<u8>, at: int, t: TableView)
    requires
        holds_at(d, at, table_bytes(t)),
        at + table_bytes(t).len() <= SYSTEM_PAGE_PAYLOAD,
        0 <= at,
        d.len() == 4096,
        persistent(t),
    ensures
        table_at(d, at) == Some((t, at + table_bytes(t).len())),
        table_bytes(t).len() > 0,
{
    table_laid_out(d, at, t);
    let e = at + 24 + text_bytes(t.name).len();
    let e2 = e + 2 + joined(column_parts(t.columns)).len();
    let e3 = e2 + 2 + joined(index_parts(t.indexes)).len();
    head_round_trip(d, at, t);
    text_round_trip(d, at + 24, t.name, 0);
    column_list_round_trip(d, e, t.columns);
    index_list_round_trip(d, e2, t.indexes);
    holds_byte(d, e3, seq![flag(t.encrypted)], 0);
    assert(d[e3] == flag(t.encrypted));
    reveal(table_at);
}

proof fn tables_round_trip(d: Seq<u8>, at: int, v: Seq<TableView>)
    requires
        holds_at(d, at, joined(table_parts(v))),
        at + joined(table_parts(v)).len() <= SYSTEM_PAGE_PAYLOAD,
        0 <= at,
        d.len() == 4096,
        forall|i: int| 0 <= i < v.len() ==> persistent(#[trigger] v[i]),
    ensures
        tables_at(d, at, v.len()) == Some((v, at + joined(table_parts(v)).len())),
        v.len() <= joined(table_parts(v)).len(),
    decreases v.len(),
{
    if v.len() > 0 {
        let parts = table_parts(v);
        let rest = v.drop_first();
        joined_front(parts);
        assert(parts.drop_first() =~= table_parts(rest));
        holds_parts(d, at, parts[0], joined(table_parts(rest)));
        table_round_trip(d, at, v[0]);
        assert forall|i: int| 0 <= i < rest.len() implies persistent(#[trigger] rest[i]) by {
            assert(rest[i] == v[i + 1]);
        }
        tables_round_trip(d, at + parts[0].len(), rest);
        assert(seq![v[0]] + rest =~= v);
    } else {
        assert(v =~= Seq::empty());
    }
}

/// A system page gives back the registry that was written to it.
pub proof fn registry_round_trip(d: Seq<u8>, v: Seq<TableView>, next_id: u32)
    requires
        d.len() == 4096,
        registry_fits(v, next_id),
        holds_at(d, 16, registry_bytes(v, next_id)),
        forall|i: int| 0 <= i < v.len() ==> persistent(#[trigger] v[i]),
    ensures
        registry_at(d) == Some((v, next_id)),
{
    registry_laid_out(d, v, next_id);
    tables_round_trip(d, 26, v);
    count_round_trip(d, 24, v.len());
}

/// A registry's parts, where they stand.
proof fn registry_laid_out(d: Seq<u8>, v: Seq<TableView>, next_id: u32)
    requires
        holds_at(d, 16, registry_bytes(v, next_id)),
    ensures
        bytes::get_u32(d, 16) == SYSTEM_PAGE_MAGIC,
        bytes::get_u32(d, 20) == next_id,
        holds_at(d, 24, bytes::le16(row::low16(v.len() as int))),
        holds_at(d, 26, joined(table_parts(v))),
        registry_bytes(v, next_id).len() == 10 + joined(table_parts(v)).len(),
{
    let a = bytes::le32(SYSTEM_PAGE_MAGIC);
    let b = bytes::le32(next_id);
    let c = bytes::le16(row::low16(v.len() as int));
    let rest = joined(table_parts(v));
    bytes::le32_round_trip(SYSTEM_PAGE_MAGIC);
    bytes::le32_round_trip(next_id);
    bytes::le16_round_trip(row::low16(v.len() as int));
    holds_parts(d, 16, a, b + (c + rest));
    holds_parts(d, 20, b, c + rest);
    holds_parts(d, 24, c, rest);
    holds_numbers(d, 16);
    holds_numbers(d, 20);
}

}
