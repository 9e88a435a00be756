//! Operations on one table within a set of tables, whatever the pages they work
//! on: those of a database, or those of a transaction.

use crate::btree;
use crate::btree_node;
use crate::btree_writer;
use crate::btree_writer::BTreeWriter;
use crate::bytes;
use crate::error::{owned, BoogyError, Result};
use crate::file;
use crate::file::WriteGuard;
use crate::index;
use crate::row;
use crate::row::{check_starts, encode_row};
use crate::store;
use crate::store::{delete_row, insert_row, update_row};
use crate::table;
use crate::table::{IndexView, TableMeta, TableView};
use crate::value;
use crate::value::{real_is_nan, same_text, ColumnView, Value, ValueView};
use vstd::prelude::*;

verus! {

/// A table in order: readable rows, indexes in step, counters right, and no part
/// in the system page.
#[verifier::opaque]
pub open spec fn table_sound(m: Map<u32, Seq<u8>>, v: TableView) -> bool {
    let rows = store::table_rows(m, v);
    &&& store::table_ok(m, v)
    &&& m.contains_key(0)
    &&& crate::page::flags_of(m[0]) != crate::page::PAGE_OVERFLOW
    &&& !store::table_page(m, v, 0)
    &&& forall|k: u64| #[trigger] rows.contains_key(k) ==> k < v.next_rowid
    &&& rows.dom().finite()
    &&& v.row_count == rows.dom().len()
}

/// Two tables share no page.
pub open spec fn separate(m: Map<u32, Seq<u8>>, a: TableView, b: TableView) -> bool {
    forall|q: u32| !(#[trigger] store::table_page(m, a, q) && store::table_page(m, b, q))
}

/// Tables in order that share no page and have different names.
pub open spec fn forest_ok(m: Map<u32, Seq<u8>>, ts: Seq<TableView>) -> bool {
    &&& table::table_names_of(ts).no_duplicates()
    &&& forall|i: int| 0 <= i < ts.len() ==> table_sound(m, #[trigger] ts[i])
    &&& forall|i: int, j: int|
        0 <= i < ts.len() && 0 <= j < ts.len() && i != j ==> separate(
            m,
            #[trigger] ts[i],
            #[trigger] ts[j],
        )
}

/// The rows of the table at a place.
pub open spec fn rows_at(m: Map<u32, Seq<u8>>, ts: Seq<TableView>, i: int) -> Map<u64, Seq<u8>> {
    store::table_rows(m, ts[i])
}

/// All tables but one have the rows they had.
pub open spec fn others_same(
    m: Map<u32, Seq<u8>>,
    m2: Map<u32, Seq<u8>>,
    ts: Seq<TableView>,
    ts2: Seq<TableView>,
    i: int,
) -> bool {
    &&& ts2.len() == ts.len()
    &&& forall|j: int|
        0 <= j < ts.len() && j != i ==> #[trigger] ts2[j] == ts[j] && rows_at(m2, ts2, j) == rows_at(
            m,
            ts,
            j,
        )
}

/// The tables in order that share no page with one stay as they were, and share none
/// with it still.
pub open spec fn others_kept(
    m: Map<u32, Seq<u8>>,
    m2: Map<u32, Seq<u8>>,
    ts: Seq<TableView>,
    ts2: Seq<TableView>,
    i: int,
) -> bool {
    &&& ts2.len() == ts.len()
    &&& forall|j: int| 0 <= j < ts.len() && j != i ==> #[trigger] ts2[j] == ts[j]
    &&& forall|j: int|
        0 <= j < ts.len() && j != i && table_sound(m, #[trigger] ts[j]) && separate(
            m,
            ts[j],
            ts[i],
        ) ==> table_sound(m2, ts[j]) && rows_at(m2, ts2, j) == rows_at(m, ts, j) && separate(
            m2,
            ts[j],
            ts2[i],
        )
}

/// A table that changes within its own pages leaves the other tables as they were.
pub proof fn table_step(
    m: Map<u32, Seq<u8>>,
    m2: Map<u32, Seq<u8>>,
    ts: Seq<TableView>,
    i: int,
    v2: TableView,
)
    requires
        0 <= i < ts.len(),
        table_sound(m, ts[i]),
        table_sound(m2, v2),
        store::only_table(m, m2, ts[i], v2),
    ensures
        others_kept(m, m2, ts, ts.update(i, v2), i),
{
    let ts2 = ts.update(i, v2);
    reveal(store::only_table);
    assert forall|j: int|
        0 <= j < ts.len() && j != i && table_sound(m, #[trigger] ts[j]) && separate(
            m,
            ts[j],
            ts[i],
        ) implies table_sound(m2, ts[j]) && rows_at(m2, ts2, j) == rows_at(m, ts, j) && separate(
        m2,
        ts[j],
        ts2[i],
    ) by {
        reveal(table_sound);
        reveal(store::table_ok);
        let w = ts[j];
        table_pages_exist(m, w);
        assert forall|q: u32| #[trigger] store::table_page(m, w, q) implies m2.contains_key(q)
            && m2[q] == m[q] by {
            assert(!store::table_page(m, ts[i], q));
            assert(m.contains_key(q));
        }
        store::table_kept(m, m2, w, store::table_rows(m, w), store::table_rows(m, w), 0);
        assert forall|q: u32| !(#[trigger] store::table_page(m2, w, q) && store::table_page(
            m2,
            v2,
            q,
        )) by {
            if store::table_page(m2, w, q) && store::table_page(m2, v2, q) {
                assert(store::table_page(m, w, q));
                assert(store::table_page(m, ts[i], q));
            }
        }
    }
}

/// Tables in order stay in order when one of them changes within its own pages.
pub proof fn forest_step(
    m: Map<u32, Seq<u8>>,
    m2: Map<u32, Seq<u8>>,
    ts: Seq<TableView>,
    i: int,
    v2: TableView,
)
    requires
        forest_ok(m, ts),
        0 <= i < ts.len(),
        v2.name == ts[i].name,
        table_sound(m2, v2),
        store::only_table(m, m2, ts[i], v2),
    ensures
        forest_ok(m2, ts.update(i, v2)),
        others_same(m, m2, ts, ts.update(i, v2), i),
{
    let ts2 = ts.update(i, v2);
    reveal(store::only_table);
    assert(table::table_names_of(ts2) =~= table::table_names_of(ts));
    assert forall|j: int| 0 <= j < ts.len() && j != i implies table_sound(m2, #[trigger] ts2[j])
        && store::table_rows(m2, ts[j]) == store::table_rows(m, ts[j]) && (forall|q: u32| #[trigger]
        store::table_page(m2, ts[j], q) == store::table_page(m, ts[j], q)) by {
        reveal(table_sound);
        reveal(store::table_ok);
        let w = ts[j];
        assert(table_sound(m, w));
        assert(separate(m, ts[j], ts[i]));
        table_pages_exist(m, w);
        assert forall|q: u32| #[trigger] store::table_page(m, w, q) implies m2.contains_key(q)
            && m2[q] == m[q] by {
            assert(!store::table_page(m, ts[i], q));
            assert(m.contains_key(q));
        }
        store::table_kept(m, m2, w, store::table_rows(m, w), store::table_rows(m, w), 0);
        assert(table_sound(m, ts[i]));
    }
    assert forall|j: int| 0 <= j < ts2.len() implies table_sound(m2, #[trigger] ts2[j]) by {}
    assert forall|a: int, b: int|
        0 <= a < ts2.len() && 0 <= b < ts2.len() && a != b implies separate(
        m2,
        #[trigger] ts2[a],
        #[trigger] ts2[b],
    ) by {
        assert(separate(m, ts[a], ts[b]));
        assert forall|q: u32| !(#[trigger] store::table_page(m2, ts2[a], q) && store::table_page(
            m2,
            ts2[b],
            q,
        )) by {
            if store::table_page(m2, ts2[a], q) && store::table_page(m2, ts2[b], q) {
                if a == i {
                    assert(ts2[b] == ts[b]);
                    assert(store::table_page(m, ts[b], q));
                    reveal(table_sound);
                    assert(table_sound(m, ts[b]));
                    table_pages_exist(m, ts[b]);
                    assert(store::table_page(m, ts[a], q));
                } else if b == i {
                    assert(ts2[a] == ts[a]);
                    assert(store::table_page(m, ts[a], q));
                    reveal(table_sound);
                    assert(table_sound(m, ts[a]));
                    table_pages_exist(m, ts[a]);
                    assert(store::table_page(m, ts[b], q));
                } else {
                    assert(ts2[a] == ts[a]);
                    assert(ts2[b] == ts[b]);
                    assert(store::table_page(m, ts[a], q));
                    assert(store::table_page(m, ts[b], q));
                }
            }
        }
    }
}

/// The pages of a table exist and hold no part of a row.
pub proof fn table_pages_exist(m: Map<u32, Seq<u8>>, v: TableView)
    requires
        store::table_ok(m, v),
    ensures
        forall|q: u32| #[trigger]
            store::table_page(m, v, q) ==> m.contains_key(q) && crate::page::flags_of(m[q])
                != crate::page::PAGE_OVERFLOW && m[q].len() == 4096,
{
    reveal(store::table_ok);
    let rows = store::table_rows(m, v);
    store::row_pages_exist(m, v.root_page);
    assert forall|q: u32| #[trigger] store::table_page(m, v, q) implies m.contains_key(q)
        && crate::page::flags_of(m[q]) != crate::page::PAGE_OVERFLOW && m[q].len() == 4096 by {
        if !store::row_page(m, v.root_page, q) {
            let i = choose|i: int|
                0 <= i < v.indexes.len() && #[trigger] store::key_page(m, v.indexes[i].root_page, q);
            assert(store::staged(m, v, rows, rows, 0, i));
            reveal(store::index_matches);
            store::key_pages_exist(m, v.indexes[i].root_page);
        }
    }
}

/// Tables in order stay in order when only pages that belong to none of them
/// change, and none of those holds part of a row.
pub proof fn forest_kept(m: Map<u32, Seq<u8>>, m2: Map<u32, Seq<u8>>, ts: Seq<TableView>)
    requires
        forest_ok(m, ts),
        crate::btree_writer::overflow_kept(m, m2),
        m.contains_key(0) ==> m2.contains_key(0) && crate::page::flags_of(m2[0])
            != crate::page::PAGE_OVERFLOW,
        forall|i: int, q: u32|
            0 <= i < ts.len() && #[trigger] store::table_page(m, ts[i], q) ==> m2.contains_key(q)
                && m2[q] == m[q],
    ensures
        forest_ok(m2, ts),
        forall|i: int|
            0 <= i < ts.len() ==> #[trigger] rows_at(m2, ts, i) == rows_at(m, ts, i),
{
    assert forall|j: int| 0 <= j < ts.len() implies table_sound(m2, #[trigger] ts[j]) && rows_at(
        m2,
        ts,
        j,
    ) == rows_at(m, ts, j) && (forall|q: u32| #[trigger]
        store::table_page(m2, ts[j], q) == store::table_page(m, ts[j], q)) by {
        reveal(table_sound);
        reveal(store::table_ok);
        let w = ts[j];
        assert(table_sound(m, w));
        store::table_kept(m, m2, w, store::table_rows(m, w), store::table_rows(m, w), 0);
    }
    assert forall|a: int, b: int|
        0 <= a < ts.len() && 0 <= b < ts.len() && a != b implies separate(
        m2,
        #[trigger] ts[a],
        #[trigger] ts[b],
    ) by {
        assert(separate(m, ts[a], ts[b]));
        assert(table_sound(m2, ts[a]));
        assert(table_sound(m2, ts[b]));
        assert forall|q: u32| !(#[trigger] store::table_page(m2, ts[a], q) && store::table_page(
            m2,
            ts[b],
            q,
        )) by {
            assert(store::table_page(m2, ts[a], q) == store::table_page(m, ts[a], q));
            assert(store::table_page(m2, ts[b], q) == store::table_page(m, ts[b], q));
        }
    }
    assert forall|i: int| 0 <= i < ts.len() implies #[trigger] rows_at(m2, ts, i) == rows_at(
        m,
        ts,
        i,
    ) by {
        assert(table_sound(m2, ts[i]));
    }
}

// ---------------------------------------------------------------------------
// What is checked before a change
// ---------------------------------------------------------------------------

/// The table is encrypted and no key was given for it.
pub open spec fn locked(v: TableView) -> bool {
    v.encrypted && v.key is None
}

/// Checks that an encrypted table has been unlocked.
pub fn check_table_accessible(meta: &TableMeta, table: &str) -> (r: Result<()>)
    ensures
        r is Ok <==> !locked(meta@),
        r matches Err(e) ==> (e matches BoogyError::TableLocked(t) && t@ == table@),
{
    if meta.encrypted {
        match &meta.cipher {
            None => {
                return Err(BoogyError::TableLocked(owned(table)));
            },
            Some(_) => {},
        }
    }
    Ok(())
}

/// Named values.
pub open spec fn data_view(data: Seq<(&str, Value)>) -> Seq<(Seq<char>, ValueView)> {
    data.map_values(|p: (&str, Value)| (p.0@, p.1@))
}

/// The names in a list of named values.
pub open spec fn data_names(data: Seq<(Seq<char>, ValueView)>) -> Seq<Seq<char>> {
    data.map_values(|p: (Seq<char>, ValueView)| p.0)
}

/// The first value given for a column suits the index on it: it is null, or of
/// the type of the column, not NaN and without null bytes.
pub open spec fn index_type_ok(
    columns: Seq<ColumnView>,
    ix: IndexView,
    data: Seq<(Seq<char>, ValueView)>,
) -> bool {
    match table::place(data_names(data), table::leading(ix)) {
        None => true,
        Some(i) => suits(columns, ix, data[i].1),
    }
}

/// The value suits an index.
pub open spec fn suits(columns: Seq<ColumnView>, ix: IndexView, v: ValueView) -> bool {
    ||| v == ValueView::Null
    ||| match table::column_type(columns, table::leading(ix)) {
        None => true,
        Some(t) => {
            &&& value::type_of(v) == Some(t)
            &&& !(v matches ValueView::Real(bits) && value::is_nan(bits))
            &&& !index::is_torn(v)
        },
    }
}

/// The values suit all indexes of a table.
pub open spec fn types_ok(v: TableView, data: Seq<(Seq<char>, ValueView)>) -> bool {
    forall|i: int|
        0 <= i < v.indexes.len() ==> index_type_ok(v.columns, #[trigger] v.indexes[i], data)
}

fn has_null_byte(b: &[u8]) -> (r: bool)
    ensures
        r == b@.contains(0u8),
{
    let n: usize = b.len();
    let mut i: usize = 0;
    while i < n
        invariant
            i <= n,
            n == b@.len(),
            forall|j: int| 0 <= j < i ==> b@[j] != 0,
        decreases n - i,
    {
        if b[i] == 0 {
            return true;
        }
        i += 1;
    }
    false
}

fn value_suits(meta: &TableMeta, column: &str, val: &Value, Ghost(ix): Ghost<IndexView>) -> (r: bool)
    requires
        column@ == table::leading(ix),
    ensures
        r == suits(meta@.columns, ix, val@),
{
    if val.is_null() {
        return true;
    }
    match meta.col_type(column) {
        None => true,
        Some(ct) => {
            if val.value_type() != Some(ct) {
                return false;
            }
            match val {
                Value::Real(bits) => !real_is_nan(*bits),
                Value::Text(s) => !has_null_byte(s.as_str().as_bytes()),
                _ => true,
            }
        },
    }
}

/// Where a name stands in a list of named values.
fn data_place(data: &[(&str, Value)], name: &str) -> (r: Option<usize>)
    ensures
        match r {
            Some(i) => table::place(data_names(data_view(data@)), name@) == Some(i as int) && i
                < data@.len(),
            None => table::place(data_names(data_view(data@)), name@) is None,
        },
{
    let ghost all = data_names(data_view(data@));
    let n: usize = data.len();
    let mut i: usize = 0;
    while i < n
        invariant
            i <= n,
            n == data@.len(),
            all == data_names(data_view(data@)),
            forall|j: int| 0 <= j < i ==> #[trigger] all[j] != name@,
        decreases n - i,
    {
        assert(all[i as int] == data@[i as int].0@);
        if same_text(data[i].0, name) {
            proof {
                table::place_first(all, name@);
                assert(all.contains(name@));
            }
            return Some(i);
        }
        i += 1;
    }
    proof {
        table::place_first(all, name@);
    }
    None
}

/// Enforces type constraints on indexed columns before insert and update.
pub fn enforce_index_types(meta: &TableMeta, data: &[(&str, Value)]) -> (r: Result<()>)
    ensures
        r is Ok <==> types_ok(meta@, data_view(data@)),
        r matches Err(e) ==> e is TypeMismatch,
{
    let ghost v = meta@;
    let n: usize = meta.indexes.len();
    let mut i: usize = 0;
    while i < n
        invariant
            i <= n,
            v == meta@,
            n == v.indexes.len(),
            forall|j: int|
                0 <= j < i ==> index_type_ok(
                    v.columns,
                    #[trigger] v.indexes[j],
                    data_view(data@),
                ),
        decreases n - i,
    {
        let column = meta.indexes[i].leading_column();
        assert(v.indexes[i as int] == meta.indexes@[i as int]@);
        match data_place(data, column.as_str()) {
            None => {},
            Some(p) => {
                if !value_suits(meta, column.as_str(), &data[p].1, Ghost(v.indexes[i as int])) {
                    assert(!index_type_ok(v.columns, v.indexes[i as int], data_view(data@)));
                    return Err(
                        BoogyError::TypeMismatch(
                            owned("value does not suit the index on its column"),
                        ),
                    );
                }
            },
        }
        i += 1;
    }
    Ok(())
}

/// The columns that the values are for, by number; values for unknown columns
/// are left out.
pub open spec fn picked(
    columns: Seq<ColumnView>,
    data: Seq<(Seq<char>, ValueView)>,
) -> Seq<(u16, ValueView)>
    decreases data.len(),
{
    if data.len() == 0 {
        Seq::empty()
    } else {
        let rest = picked(columns, data.drop_last());
        match table::column_id(columns, data.last().0) {
            Some(c) => rest.push((c, data.last().1)),
            None => rest,
        }
    }
}

/// Finds the columns that the values are for.
pub fn pick_columns<'a>(meta: &TableMeta, data: &'a [(&str, Value)]) -> (r: Vec<(u16, &'a Value)>)
    ensures
        row::cols_view(r@) == picked(meta@.columns, data_view(data@)),
{
    let ghost all = data_view(data@);
    let mut r: Vec<(u16, &'a Value)> = Vec::new();
    let n: usize = data.len();
    let mut i: usize = 0;
    assert(row::cols_view(r@) =~= Seq::<(u16, ValueView)>::empty());
    while i < n
        invariant
            i <= n,
            n == data@.len(),
            all == data_view(data@),
            row::cols_view(r@) == picked(meta@.columns, all.take(i as int)),
        decreases n - i,
    {
        let ghost before = r@;
        assert(all.take(i + 1).drop_last() =~= all.take(i as int));
        assert(all[i as int] == (data@[i as int].0@, data@[i as int].1@));
        match meta.col_id(data[i].0) {
            Some(c) => {
                r.push((c, &data[i].1));
                assert(row::cols_view(r@) =~= row::cols_view(before).push((c, all[i as int].1)));
            },
            None => {},
        }
        i += 1;
    }
    assert(all.take(n as int) =~= all);
    r
}

/// The bytes of a row made of named values.
pub open spec fn new_row(v: TableView, rowid: u64, data: Seq<(Seq<char>, ValueView)>) -> Seq<u8> {
    row::row_bytes(rowid, picked(v.columns, data))
}

/// The columns of a row made of named values start at offsets that fit their fields.
pub open spec fn starts_fit(v: TableView, data: Seq<(Seq<char>, ValueView)>) -> bool {
    row::starts_fit(row::by_id(picked(v.columns, data)))
}

/// An encoded row starts with its number.
pub proof fn row_starts(rowid: u64, cols: Seq<(u16, ValueView)>)
    ensures
        row::row_bytes(rowid, cols).len() >= 10,
        btree_node::id_of(row::row_bytes(rowid, cols)) == rowid,
{
    let s = row::by_id(cols);
    let head = bytes::le64(rowid);
    let b = row::row_bytes(rowid, cols);
    bytes::le64_round_trip(rowid);
    bytes::le16_round_trip(row::low16(s.len() as int));
    assert(b.subrange(0, 8) =~= head);
    bytes::get_u64_of(b, 0, rowid);
}

// ---------------------------------------------------------------------------
// Changes of one table
// ---------------------------------------------------------------------------

/// The same trees under other counters.
pub open spec fn same_trees(v: TableView, w: TableView) -> bool {
    &&& v.root_page == w.root_page
    &&& v.columns == w.columns
    &&& v.indexes == w.indexes
    &&& v.encrypted == w.encrypted
}

proof fn same_trim(m: Map<u32, Seq<u8>>, v: TableView, w: TableView)
    requires
        same_trees(v, w),
        store::trim(m, v),
    ensures
        store::trim(m, w),
{
    reveal(store::trim);
    assert forall|q: u32| v.encrypted && #[trigger] store::table_page(
        m,
        w,
        q,
    ) implies crate::page::trimmed(m[q]) by {
        assert(store::table_page(m, v, q));
    }
}

/// What a table holds does not depend on its counters.
pub proof fn trees_decide(m: Map<u32, Seq<u8>>, v: TableView, w: TableView)
    requires
        same_trees(v, w),
    ensures
        store::table_ok(m, v) == store::table_ok(m, w),
        store::table_rows(m, v) == store::table_rows(m, w),
        forall|q: u32| #[trigger] store::table_page(m, v, q) == store::table_page(m, w, q),
        forall|b: Seq<u8>, k: u64| #[trigger]
            store::indexable(v, b, k) == store::indexable(w, b, k),
        forall|rows: Map<u64, Seq<u8>>, done: Map<u64, Seq<u8>>, n: int| #[trigger]
            store::stage(m, v, rows, done, n) == store::stage(m, w, rows, done, n),
{
    reveal(store::apart);
    reveal(store::table_ok);
    let rows = store::table_rows(m, v);
    assert forall|rows: Map<u64, Seq<u8>>, done: Map<u64, Seq<u8>>, n: int| #[trigger]
        store::stage(m, v, rows, done, n) == store::stage(m, w, rows, done, n) by {
        assert(store::apart(m, v) == store::apart(m, w));
        if store::trim(m, v) {
            same_trim(m, v, w);
        }
        if store::trim(m, w) {
            same_trim(m, w, v);
        }
        if store::stage(m, v, rows, done, n) {
            assert forall|j: int| 0 <= j < w.indexes.len() implies #[trigger] store::staged(
                m,
                w,
                rows,
                done,
                n,
                j,
            ) by {
                assert(store::staged(m, v, rows, done, n, j));
            }
        }
        if store::stage(m, w, rows, done, n) {
            assert forall|j: int| 0 <= j < v.indexes.len() implies #[trigger] store::staged(
                m,
                v,
                rows,
                done,
                n,
                j,
            ) by {
                assert(store::staged(m, w, rows, done, n, j));
            }
        }
    }
    assert forall|b: Seq<u8>, k: u64| #[trigger]
        store::indexable(v, b, k) == store::indexable(w, b, k) by {
        if store::indexable(v, b, k) {
            assert forall|i: int| 0 <= i < w.indexes.len() implies store::short_entry(
                #[trigger] store::entry_of(w.columns, w.indexes[i], b, k),
            ) by {
                assert(store::short_entry(store::entry_of(v.columns, v.indexes[i], b, k)));
            }
        }
        if store::indexable(w, b, k) {
            assert forall|i: int| 0 <= i < v.indexes.len() implies store::short_entry(
                #[trigger] store::entry_of(v.columns, v.indexes[i], b, k),
            ) by {
                assert(store::short_entry(store::entry_of(w.columns, w.indexes[i], b, k)));
            }
        }
    }
    if store::table_ok(m, v) {
        assert forall|k: u64| #[trigger] rows.contains_key(k) implies store::indexable(
            w,
            rows[k],
            k,
        ) by {
            assert(store::indexable(v, rows[k], k));
        }
    }
    if store::table_ok(m, w) {
        assert forall|k: u64| #[trigger] rows.contains_key(k) implies store::indexable(
            v,
            rows[k],
            k,
        ) by {
            assert(store::indexable(w, rows[k], k));
        }
    }
}

/// A change stays within the table whatever its counters are.
pub proof fn only_table_trees(
    m: Map<u32, Seq<u8>>,
    m2: Map<u32, Seq<u8>>,
    v: TableView,
    v2: TableView,
    w: TableView,
    w2: TableView,
)
    requires
        store::only_table(m, m2, v, v2),
        same_trees(v, w),
        same_trees(v2, w2),
    ensures
        store::only_table(m, m2, w, w2),
{
    reveal(store::only_table);
    trees_decide(m, v, w);
    trees_decide(m2, v2, w2);
    assert forall|q: u32| #[trigger] m.contains_key(q) && !store::table_page(m, w, q) implies m2.contains_key(
        q,
    ) && m2[q] == m[q] by {
        assert(!store::table_page(m, v, q));
    }
    assert forall|q: u32| #[trigger] store::table_page(m2, w2, q) implies store::table_page(m, w, q)
        || !m.contains_key(q) by {
        assert(store::table_page(m2, v2, q));
        assert(store::table_page(m, v, q) == store::table_page(m, w, q));
    }
}

/// The system page stays out of a table that changes within its own pages.
pub proof fn system_page_kept(m: Map<u32, Seq<u8>>, m2: Map<u32, Seq<u8>>, v: TableView, v2: TableView)
    requires
        store::only_table(m, m2, v, v2),
        m.contains_key(0),
        !store::table_page(m, v, 0),
    ensures
        m2.contains_key(0),
        m2[0] == m[0],
        !store::table_page(m2, v2, 0),
{
    reveal(store::only_table);
}

/// The number after which the next row is numbered.
pub open spec fn next_after(next: u64, rowid: u64) -> u64 {
    if rowid >= next {
        (rowid + 1) as u64
    } else {
        next
    }
}

/// The same table but for its trees and counters.
pub open spec fn same_table(v: TableView, v2: TableView) -> bool {
    store::rerooted(v, TableView { row_count: v.row_count, next_rowid: v.next_rowid, ..v2 })
}

/// What comes of adding a row to a table in order.
pub open spec fn add_outcome(
    m: Map<u32, Seq<u8>>,
    m2: Map<u32, Seq<u8>>,
    v: TableView,
    v2: TableView,
    k: u64,
    bytes: Seq<u8>,
    r: Result<()>,
) -> bool {
    let rows = store::table_rows(m, v);
    match r {
        Ok(_) => {
            &&& !rows.contains_key(k)
            &&& table_sound(m2, v2)
            &&& store::table_rows(m2, v2) == rows.insert(k, bytes)
            &&& store::only_table(m, m2, v, v2)
        },
        Err(BoogyError::DuplicateKey(id)) => {
            &&& id == k
            &&& rows.contains_key(k)
            &&& m2 == m
            &&& v2 == (TableView { next_rowid: v2.next_rowid, ..v })
        },
        Err(e) => store::tree_error(e) && !(rows.contains_key(k) && v.indexes.len() == 0 && e is PageFull),
    }
}

/// What comes of adding a row that the indexes cannot list: nothing.
pub open spec fn add_refused(
    m: Map<u32, Seq<u8>>,
    v: TableView,
    k: u64,
    bytes: Seq<u8>,
    r: Result<()>,
) -> bool {
    r matches Err(e) && if store::table_rows(m, v).contains_key(k) {
        e == BoogyError::DuplicateKey(k)
    } else {
        store::unlistable(v, bytes, k, e)
    }
}

/// Adds a row with a given number to a table.
pub fn add_row(
    guard: &mut WriteGuard,
    meta: &mut TableMeta,
    rowid: u64,
    data: &[(&str, Value)],
    max_row_size: u32,
) -> (r: Result<()>)
    requires
        old(guard).wf(),
        rowid < u64::MAX,
    ensures
        r is Ok && file::tidy(old(guard).pages()) ==> file::tidy(final(guard).pages()),
        store::unpublished(*old(guard), *final(guard), old(meta)@.encrypted),
        same_table(old(meta)@, final(meta)@),
        final(meta)@.next_rowid == next_after(old(meta)@.next_rowid, rowid),
        r is Ok && old(meta)@.row_count < u64::MAX ==> final(meta)@.row_count == old(
            meta,
        )@.row_count + 1,
        r is Err ==> final(meta)@.row_count == old(meta)@.row_count,
        ({
            let bytes = new_row(old(meta)@, rowid, data_view(data@));
            &&& bytes.len() > max_row_size || !starts_fit(old(meta)@, data_view(data@)) ==> (
            r matches Err(BoogyError::RowTooLarge(n)) && n == bytes.len()) && *final(guard) == *old(
                guard,
            )
            &&& bytes.len() <= max_row_size && starts_fit(old(meta)@, data_view(data@))
                && table_sound(old(guard).pages(), old(meta)@) && old(
                meta,
            )@.row_count < u64::MAX && store::readable(bytes) && store::indexable(
                old(meta)@,
                bytes,
                rowid,
            ) ==> add_outcome(
                old(guard).pages(),
                final(guard).pages(),
                old(meta)@,
                final(meta)@,
                rowid,
                bytes,
                r,
            ) && (store::insert_owed(
                old(guard).pages(),
                old(meta)@,
                rowid,
                bytes,
                old(guard).total(),
            ) ==> r is Ok && final(guard).total() <= old(guard).total() + store::most_pages(
                old(meta)@,
                bytes.len() as int,
            )) && (store::table_rows(
                old(guard).pages(),
                old(meta)@,
            ).contains_key(rowid) && btree::walkable(old(guard).pages(), old(meta)@.root_page) ==> (
            r matches Err(e) && e is DuplicateKey))
            &&& r is Ok ==> store::indexable(old(meta)@, bytes, rowid)
            &&& bytes.len() <= max_row_size && starts_fit(old(meta)@, data_view(data@))
                && table_sound(old(guard).pages(), old(meta)@) && !store::indexable(
                old(meta)@,
                bytes,
                rowid,
            ) ==> add_refused(old(guard).pages(), old(meta)@, rowid, bytes, r) && *final(guard)
                == *old(guard)
        }),
{
    let ghost m = guard.pages();
    let ghost v = meta@;
    if rowid >= meta.next_rowid {
        meta.next_rowid = rowid + 1;
    }
    let cols = pick_columns(meta, data);
    let row_bytes = encode_row(rowid, cols.as_slice());
    let ghost bytes = row_bytes@;
    proof {
        row_starts(rowid, picked(v.columns, data_view(data@)));
    }
    if row_bytes.len() > max_row_size as usize || !check_starts(cols.as_slice()) {
        return Err(BoogyError::RowTooLarge(row_bytes.len()));
    }
    let ghost va = meta@;
    let ghost good = table_sound(m, v) && v.row_count < u64::MAX && store::readable(bytes)
        && store::indexable(v, bytes, rowid);
    proof {
        if good {
            reveal(table_sound);
            trees_decide(m, v, va);
        }
    }
    match store::check_entries(meta, rowid, row_bytes.as_slice()) {
        Ok(_) => {},
        Err(e) => {
            proof {
                trees_decide(m, v, va);
                assert(va.columns == v.columns && va.indexes == v.indexes);
                if table_sound(m, v) {
                    sound_search(m, v, rowid);
                    reveal(table_sound);
                    store::always_workable(m, v);
                }
            }
            let tree = BTreeWriter::new(meta.root_page);
            if tree.search(guard, rowid)?.is_some() {
                return Err(BoogyError::DuplicateKey(rowid));
            }
            return Err(e);
        },
    }
    proof {
        trees_decide(m, v, va);
    }
    insert_row(guard, meta, rowid, row_bytes.as_slice())?;
    let ghost m2 = guard.pages();
    let ghost vb = meta@;
    if meta.row_count < u64::MAX {
        meta.row_count = meta.row_count + 1;
    }
    proof {
        if good {
            reveal(table_sound);
            let v2 = meta@;
            trees_decide(m2, vb, v2);
            only_table_trees(m, m2, va, vb, v, v2);
            system_page_kept(m, m2, v, v2);
        }
    }
    Ok(())
}

/// What comes of removing a row from a table in order.
pub open spec fn drop_outcome(
    m: Map<u32, Seq<u8>>,
    m2: Map<u32, Seq<u8>>,
    v: TableView,
    v2: TableView,
    k: u64,
    r: Result<bool>,
) -> bool {
    let rows = store::table_rows(m, v);
    match r {
        Ok(true) => {
            &&& rows.contains_key(k)
            &&& table_sound(m2, v2)
            &&& store::table_rows(m2, v2) == rows.remove(k)
            &&& store::only_table(m, m2, v, v2)
            &&& v2.row_count == v.row_count - 1
            &&& store::workable(m, v) ==> store::workable(m2, v2)
        },
        Ok(false) => {
            &&& !rows.contains_key(k)
            &&& m2 == m
            &&& v2 == v
        },
        Err(e) => {
            &&& store::tree_error(e)
            &&& !store::workable(m, v)
        },
    }
}

/// Removes a row from a table.
pub fn drop_row(guard: &mut WriteGuard, meta: &mut TableMeta, rowid: u64) -> (r: Result<bool>)
    requires
        old(guard).wf(),
    ensures
        r is Ok && file::tidy(old(guard).pages()) ==> file::tidy(final(guard).pages()),
        store::unpublished(*old(guard), *final(guard), old(meta)@.encrypted),
        same_table(old(meta)@, final(meta)@),
        final(meta)@.next_rowid == old(meta)@.next_rowid,
        table_sound(old(guard).pages(), old(meta)@) ==> drop_outcome(
            old(guard).pages(),
            final(guard).pages(),
            old(meta)@,
            final(meta)@,
            rowid,
            r,
        ),
{
    let ghost m = guard.pages();
    let ghost v = meta@;
    let ghost good = table_sound(m, v);
    proof {
        if good {
            reveal(table_sound);
        }
    }
    let deleted: bool = delete_row(guard, meta, rowid)?;
    if !deleted {
        return Ok(false);
    }
    let ghost m2 = guard.pages();
    let ghost vb = meta@;
    if meta.row_count > 0 {
        meta.row_count = meta.row_count - 1;
    }
    proof {
        if good {
            reveal(table_sound);
            let v2 = meta@;
            assert(v.row_count > 0) by {
                if v.row_count == 0 {
                    assert(store::table_rows(m, v).dom() =~= Set::empty());
                    assert(store::table_rows(m, v).dom().contains(rowid));
                }
            }
            trees_decide(m2, vb, v2);
            only_table_trees(m, m2, v, vb, v, v2);
            system_page_kept(m, m2, v, v2);
            if store::workable(m2, vb) {
                assert forall|j: int| 0 <= j < v2.indexes.len() implies #[trigger] store::shallow(
                    m2,
                    v2,
                    j,
                ) by {
                    assert(store::shallow(m2, vb, j));
                }
            }
        }
    }
    Ok(true)
}

/// The numbers of columns.
pub open spec fn ids_of(cols: Seq<(u16, ValueView)>) -> Seq<u16> {
    cols.map_values(|c: (u16, ValueView)| c.0)
}

/// Where a column stands among columns that are all different; their number if
/// it is not among them.
pub open spec fn id_place(cols: Seq<(u16, ValueView)>, id: u16) -> int
    decreases cols.len(),
{
    if cols.len() == 0 {
        0
    } else if cols.last().0 == id {
        cols.len() - 1
    } else {
        let p = id_place(cols.drop_last(), id);
        if p == cols.len() - 1 {
            cols.len() as int
        } else {
            p
        }
    }
}

pub proof fn id_place_spec(cols: Seq<(u16, ValueView)>, id: u16)
    ensures
        ({
            let p = id_place(cols, id);
            &&& 0 <= p <= cols.len()
            &&& p < cols.len() ==> cols[p].0 == id && forall|j: int|
                p < j < cols.len() ==> (#[trigger] cols[j]).0 != id
            &&& p == cols.len() ==> forall|j: int|
                0 <= j < cols.len() ==> (#[trigger] cols[j]).0 != id
        }),
    decreases cols.len(),
{
    if cols.len() > 0 && cols.last().0 != id {
        let rest = cols.drop_last();
        id_place_spec(rest, id);
        assert forall|j: int|
            0 <= j < cols.len() && (id_place(rest, id) < j || id_place(rest, id) == rest.len()) implies (
        #[trigger] cols[j]).0 != id by {
            if j < rest.len() {
                assert(rest[j] == cols[j]);
            }
        }
    }
}

/// Columns with one of them set.
pub open spec fn with_column(cols: Seq<(u16, ValueView)>, id: u16, v: ValueView) -> Seq<
    (u16, ValueView),
> {
    let p = id_place(cols, id);
    if p < cols.len() {
        cols.update(p, (id, v))
    } else {
        cols.push((id, v))
    }
}

/// Columns with others set one after the other.
pub open spec fn with_columns(
    cols: Seq<(u16, ValueView)>,
    sets: Seq<(u16, ValueView)>,
) -> Seq<(u16, ValueView)>
    decreases sets.len(),
{
    if sets.len() == 0 {
        cols
    } else {
        with_column(with_columns(cols, sets.drop_last()), sets.last().0, sets.last().1)
    }
}

/// The columns of a row after an update: those it had and those that are set, a
/// later one in place of an earlier one with its number.
pub open spec fn merged(
    existing: Seq<(u16, ValueView)>,
    sets: Seq<(u16, ValueView)>,
) -> Seq<(u16, ValueView)> {
    with_columns(with_columns(Seq::empty(), existing), sets)
}

/// The bytes of a row after an update.
#[verifier::opaque]
pub open spec fn updated_row(
    v: TableView,
    rowid: u64,
    bytes: Seq<u8>,
    fields: Seq<(Seq<char>, ValueView)>,
) -> Seq<u8> {
    row::row_bytes(rowid, merged(row::decoded_cols(bytes), picked(v.columns, fields)))
}

/// The columns of a row with new ones set start at offsets that fit their fields.
pub open spec fn merge_fits(bytes: Seq<u8>, sets: Seq<(u16, ValueView)>) -> bool {
    row::starts_fit(row::by_id(merged(row::decoded_cols(bytes), sets)))
}

/// The row after an update is not too long, and its columns can be reached.
pub open spec fn change_fits(
    v: TableView,
    rowid: u64,
    bytes: Seq<u8>,
    fields: Seq<(Seq<char>, ValueView)>,
    max: u32,
) -> bool {
    &&& updated_row(v, rowid, bytes, fields).len() <= max
    &&& merge_fits(bytes, picked(v.columns, fields))
}

fn set_column(cols: &mut Vec<(u16, Value)>, id: u16, v: Value)
    ensures
        row::owned_cols_view(final(cols)@) == with_column(
            row::owned_cols_view(old(cols)@),
            id,
            v@,
        ),
{
    let ghost before = row::owned_cols_view(cols@);
    let mut i: usize = cols.len();
    assert(before.take(i as int) =~= before);
    proof {
        id_place_spec(before, id);
    }
    while i > 0
        invariant
            i <= cols@.len(),
            before == row::owned_cols_view(cols@),
            cols@ == old(cols)@,
            forall|j: int| i <= j < before.len() ==> (#[trigger] before[j]).0 != id,
            id_place(before, id) < before.len() ==> before[id_place(before, id)].0 == id && forall|
                j: int,
            |
                id_place(before, id) < j < before.len() ==> (#[trigger] before[j]).0 != id,
            id_place(before, id) <= before.len(),
            id_place(before, id) == before.len() ==> forall|j: int|
                0 <= j < before.len() ==> (#[trigger] before[j]).0 != id,
            0 <= id_place(before, id),
        decreases i,
    {
        i -= 1;
        assert(before[i as int].0 == cols@[i as int].0);
        if cols[i].0 == id {
            cols.set(i, (id, v));
            assert(id_place(before, id) == i);
            assert(row::owned_cols_view(cols@) =~= before.update(i as int, (id, v@)));
            return;
        }
    }
    cols.push((id, v));
    assert(row::owned_cols_view(cols@) =~= before.push((id, v@)));
}

fn set_columns(cols: &mut Vec<(u16, Value)>, sets: &[(u16, &Value)])
    ensures
        row::owned_cols_view(final(cols)@) == with_columns(
            row::owned_cols_view(old(cols)@),
            row::cols_view(sets@),
        ),
{
    let ghost before = row::owned_cols_view(cols@);
    let ghost all = row::cols_view(sets@);
    let n: usize = sets.len();
    let mut i: usize = 0;
    while i < n
        invariant
            i <= n,
            n == sets@.len(),
            all == row::cols_view(sets@),
            row::owned_cols_view(cols@) == with_columns(before, all.take(i as int)),
        decreases n - i,
    {
        assert(all.take(i + 1).drop_last() =~= all.take(i as int));
        assert(all.take(i + 1).last() == (sets@[i as int].0, sets@[i as int].1@));
        set_column(cols, sets[i].0, sets[i].1.clone());
        i += 1;
    }
    assert(all.take(n as int) =~= all);
}

fn column_refs<'a>(cols: &'a Vec<(u16, Value)>) -> (r: Vec<(u16, &'a Value)>)
    ensures
        row::cols_view(r@) == row::owned_cols_view(cols@),
{
    let mut r: Vec<(u16, &'a Value)> = Vec::new();
    let n: usize = cols.len();
    let mut i: usize = 0;
    while i < n
        invariant
            i <= n,
            n == cols@.len(),
            r@.len() == i,
            forall|j: int|
                0 <= j < i ==> (#[trigger] r@[j]).0 == cols@[j].0 && r@[j].1@ == cols@[j].1@,
        decreases n - i,
    {
        r.push((cols[i].0, &cols[i].1));
        i += 1;
    }
    assert(row::cols_view(r@) =~= row::owned_cols_view(cols@));
    r
}

/// Encodes a row after an update of some of its columns.
pub fn merge_row(rowid: u64, existing: &[u8], sets: &[(u16, &Value)]) -> (r: Result<
    (Vec<u8>, bool),
>)
    ensures
        r is Ok <==> row::decodable(existing@),
        r matches Ok(b) ==> b.0@ == row::row_bytes(
            rowid,
            merged(row::decoded_cols(existing@), row::cols_view(sets@)),
        ) && b.1 == merge_fits(existing@, row::cols_view(sets@)),
        r matches Err(e) ==> e is Corruption,
{
    let decoded = row::decode_row(existing)?;
    let mut cols: Vec<(u16, Value)> = Vec::new();
    assert(row::owned_cols_view(cols@) =~= Seq::<(u16, ValueView)>::empty());
    let had = column_refs(&decoded.columns);
    set_columns(&mut cols, had.as_slice());
    set_columns(&mut cols, sets);
    let refs = column_refs(&cols);
    let fits: bool = check_starts(refs.as_slice());
    Ok((encode_row(rowid, refs.as_slice()), fits))
}

/// What comes of updating a row of a table in order.
pub open spec fn change_outcome(
    m: Map<u32, Seq<u8>>,
    m2: Map<u32, Seq<u8>>,
    v: TableView,
    v2: TableView,
    k: u64,
    fields: Seq<(Seq<char>, ValueView)>,
    max: u32,
    r: Result<bool>,
) -> bool {
    let rows = store::table_rows(m, v);
    let bytes = updated_row(v, k, rows[k], fields);
    match r {
        Ok(true) => {
            &&& rows.contains_key(k)
            &&& row::decodable(rows[k])
            &&& change_fits(v, k, rows[k], fields, max)
            &&& store::indexable(v, bytes, k)
            &&& store::readable(bytes) ==> {
                &&& table_sound(m2, v2)
                &&& store::table_rows(m2, v2) == rows.insert(k, bytes)
                &&& store::only_table(m, m2, v, v2)
            }
        },
        Ok(false) => {
            &&& !rows.contains_key(k)
            &&& m2 == m
            &&& v2 == v
        },
        Err(BoogyError::RowTooLarge(n)) => if change_too_large(m, v, k, fields, max) {
            n == bytes.len()
        } else {
            !store::readable(bytes)
        },
        Err(e) => {
            &&& !change_too_large(m, v, k, fields, max)
            &&& if change_unlistable(m, v, k, fields, max) {
                store::unlistable(v, bytes, k, e) && m2 == m
            } else {
                store::readable(bytes) ==> store::tree_error(e)
            }
        },
    }
}

/// The changed row is not too long, but the indexes cannot list it.
pub open spec fn change_unlistable(
    m: Map<u32, Seq<u8>>,
    v: TableView,
    k: u64,
    fields: Seq<(Seq<char>, ValueView)>,
    max: u32,
) -> bool {
    let rows = store::table_rows(m, v);
    rows.contains_key(k) && row::decodable(rows[k]) && change_fits(v, k, rows[k], fields, max)
        && !store::indexable(v, updated_row(v, k, rows[k], fields), k)
}

/// The changed row would be longer than allowed.
pub open spec fn change_too_large(
    m: Map<u32, Seq<u8>>,
    v: TableView,
    k: u64,
    fields: Seq<(Seq<char>, ValueView)>,
    max: u32,
) -> bool {
    let rows = store::table_rows(m, v);
    rows.contains_key(k) && row::decodable(rows[k]) && !change_fits(v, k, rows[k], fields, max)
}

/// What a search in a table in order finds.
pub proof fn sound_search(m: Map<u32, Seq<u8>>, v: TableView, k: u64)
    requires
        table_sound(m, v),
    ensures
        store::table_ok(m, v),
        btree::is_tree(m, v.root_page),
        match btree::cell_at(m, v.root_page, k) {
            None => !store::table_rows(m, v).contains_key(k),
            Some(cell) => store::table_rows(m, v).contains_key(k) && btree::expand(m, cell) == Some(
                store::table_rows(m, v)[k],
            ) && btree_node::id_of(store::table_rows(m, v)[k]) == k && store::table_rows(
                m,
                v,
            )[k].len() >= 8,
        },
{
    reveal(table_sound);
    reveal(store::table_ok);
    assert(store::good_at(m, v.root_page, k));
}

/// A table in which a row was replaced is in order.
proof fn sound_replaced(
    m: Map<u32, Seq<u8>>,
    m2: Map<u32, Seq<u8>>,
    v: TableView,
    v2: TableView,
    k: u64,
    bytes: Seq<u8>,
)
    requires
        table_sound(m, v),
        store::table_ok(m2, v2),
        store::table_rows(m, v).contains_key(k),
        store::table_rows(m2, v2) == store::table_rows(m, v).insert(k, bytes),
        store::only_table(m, m2, v, v2),
        v2.row_count == v.row_count,
        v2.next_rowid == v.next_rowid,
    ensures
        table_sound(m2, v2),
{
    reveal(table_sound);
    system_page_kept(m, m2, v, v2);
    let rows = store::table_rows(m, v);
    assert(rows.insert(k, bytes).dom() =~= rows.dom());
}

/// The row under a number and what an update makes of it.
fn changed_bytes(guard: &WriteGuard, meta: &TableMeta, rowid: u64, fields: &[(&str, Value)]) -> (r:
    Result<Option<(Vec<u8>, Vec<u8>, bool)>>)
    ensures
        table_sound(guard.pages(), meta@) ==> {
            let rows = store::table_rows(guard.pages(), meta@);
            match r {
                Ok(None) => !rows.contains_key(rowid),
                Ok(Some(p)) => {
                    &&& rows.contains_key(rowid)
                    &&& rows[rowid] == p.0@
                    &&& row::decodable(p.0@)
                    &&& p.1@ == updated_row(meta@, rowid, p.0@, data_view(fields@))
                    &&& p.2 == merge_fits(p.0@, picked(meta@.columns, data_view(fields@)))
                },
                Err(e) => store::tree_error(e) && !(store::workable(guard.pages(), meta@) && (
                rows.contains_key(rowid) ==> row::decodable(rows[rowid]))),
            }
        },
        r matches Ok(Some(p)) ==> p.1@.len() >= 8 && btree_node::id_of(p.1@) == rowid,
{
    let ghost m = guard.pages();
    let ghost v = meta@;
    proof {
        reveal(updated_row);
        if table_sound(m, v) {
            sound_search(m, v, rowid);
        }
    }
    let tree = BTreeWriter::new(meta.root_page);
    let existing: Vec<u8> = match tree.search(guard, rowid)? {
        Some(b) => b,
        None => {
            return Ok(None);
        },
    };
    let sets = pick_columns(meta, fields);
    let (new_bytes, fits): (Vec<u8>, bool) = merge_row(
        rowid,
        existing.as_slice(),
        sets.as_slice(),
    )?;
    proof {
        row_starts(rowid, merged(row::decoded_cols(existing@), row::cols_view(sets@)));
    }
    Ok(Some((existing, new_bytes, fits)))
}

/// Changing a row cannot fail: there is no such row, or it can be decoded, is not too
/// long afterwards, and there are enough page numbers.
pub open spec fn change_owed(
    m: Map<u32, Seq<u8>>,
    v: TableView,
    k: u64,
    fields: Seq<(Seq<char>, ValueView)>,
    max: u32,
    total: int,
) -> bool {
    let rows = store::table_rows(m, v);
    let bytes = updated_row(v, k, rows[k], fields);
    rows.contains_key(k) ==> {
        &&& row::decodable(rows[k])
        &&& change_fits(v, k, rows[k], fields, max)
        &&& store::readable(bytes)
        &&& store::indexable(v, bytes, k)
        &&& store::enough_pages(v, total, bytes.len() as int)
    }
}

/// Updates a row of a table: the given columns replace those it has.
pub fn change_row(
    guard: &mut WriteGuard,
    meta: &mut TableMeta,
    rowid: u64,
    fields: &[(&str, Value)],
    max: u32,
) -> (r: Result<bool>)
    requires
        old(guard).wf(),
    ensures
        r is Ok && file::tidy(old(guard).pages()) ==> file::tidy(final(guard).pages()),
        store::unpublished(*old(guard), *final(guard), old(meta)@.encrypted),
        same_table(old(meta)@, final(meta)@),
        final(meta)@.next_rowid == old(meta)@.next_rowid,
        final(meta)@.row_count == old(meta)@.row_count,
        table_sound(old(guard).pages(), old(meta)@) ==> change_outcome(
            old(guard).pages(),
            final(guard).pages(),
            old(meta)@,
            final(meta)@,
            rowid,
            data_view(fields@),
            max,
            r,
        ),
        table_sound(old(guard).pages(), old(meta)@) && change_owed(
            old(guard).pages(),
            old(meta)@,
            rowid,
            data_view(fields@),
            max,
            old(guard).total(),
        ) ==> r is Ok && final(guard).total() <= old(guard).total() + store::most_pages(
            old(meta)@,
            updated_row(
                old(meta)@,
                rowid,
                store::table_rows(old(guard).pages(), old(meta)@)[rowid],
                data_view(fields@),
            ).len() as int,
        ),
{
    let ghost m = guard.pages();
    let ghost v = meta@;
    let ghost good = table_sound(m, v);
    proof {
        if good {
            reveal(table_sound);
            store::always_workable(m, v);
        }
    }
    let (existing, new_bytes, fits): (Vec<u8>, Vec<u8>, bool) = match changed_bytes(
        guard,
        meta,
        rowid,
        fields,
    )? {
        Some(p) => p,
        None => {
            return Ok(false);
        },
    };
    let ghost bytes = new_bytes@;
    if new_bytes.len() > max as usize || !fits {
        return Err(BoogyError::RowTooLarge(new_bytes.len()));
    }
    proof {
        if good {
            sound_search(m, v, rowid);
        }
    }
    store::check_entries(meta, rowid, new_bytes.as_slice())?;
    update_row(guard, meta, rowid, existing.as_slice(), new_bytes.as_slice())?;
    proof {
        if good && store::readable(bytes) && store::indexable(v, bytes, rowid) {
            sound_replaced(m, guard.pages(), v, meta@, rowid, bytes);
        }
    }
    Ok(true)
}

/// A new table, and new pages for it, leave the other tables in order.
pub proof fn forest_added(m: Map<u32, Seq<u8>>, m2: Map<u32, Seq<u8>>, ts: Seq<TableView>, v: TableView)
    requires
        forest_ok(m, ts),
        table_sound(m2, v),
        !table::table_names_of(ts).contains(v.name),
        forall|q: u32| #[trigger] m.contains_key(q) ==> m2.contains_key(q) && m2[q] == m[q],
        forall|q: u32| #[trigger] store::table_page(m2, v, q) ==> !m.contains_key(q),
    ensures
        forest_ok(m2, ts.push(v)),
        forall|i: int|
            0 <= i < ts.len() ==> #[trigger] rows_at(m2, ts.push(v), i) == rows_at(m, ts, i),
{
    let ts2 = ts.push(v);
    assert(crate::btree_writer::overflow_kept(m, m2));
    assert forall|i: int, q: u32|
        0 <= i < ts.len() && #[trigger] store::table_page(m, ts[i], q) implies m.contains_key(q)
        && m2.contains_key(q) && m2[q] == m[q] by {
        reveal(table_sound);
        assert(table_sound(m, ts[i]));
        table_pages_exist(m, ts[i]);
    }
    assert(m.contains_key(0) ==> m2.contains_key(0) && crate::page::flags_of(m2[0])
        != crate::page::PAGE_OVERFLOW) by {
        reveal(table_sound);
    }
    forest_kept(m, m2, ts);
    assert forall|j: int| 0 <= j < ts2.len() implies table_sound(m2, #[trigger] ts2[j]) by {
        if j < ts.len() {
            assert(ts2[j] == ts[j]);
            assert(table_sound(m2, ts[j]));
        }
    }
    assert forall|j: int, q: u32|
        0 <= j < ts.len() && #[trigger] store::table_page(m2, ts[j], q) implies m.contains_key(q) by {
        table_same_pages(m, m2, ts, j);
        assert(store::table_page(m, ts[j], q));
    }
    assert forall|a: int, b: int|
        0 <= a < ts2.len() && 0 <= b < ts2.len() && a != b implies separate(
        m2,
        #[trigger] ts2[a],
        #[trigger] ts2[b],
    ) by {
        if a < ts.len() && b < ts.len() {
            assert(ts2[a] == ts[a] && ts2[b] == ts[b]);
            assert(separate(m2, ts[a], ts[b]));
        } else if a < ts.len() {
            assert(ts2[a] == ts[a]);
            assert forall|q: u32| !(#[trigger] store::table_page(m2, ts2[a], q)
                && store::table_page(m2, ts2[b], q)) by {}
        } else {
            assert(ts2[b] == ts[b]);
            assert forall|q: u32| !(#[trigger] store::table_page(m2, ts2[a], q)
                && store::table_page(m2, ts2[b], q)) by {}
        }
    }
    assert(table::table_names_of(ts2) =~= table::table_names_of(ts).push(v.name));
    assert forall|i: int| 0 <= i < ts.len() implies #[trigger] rows_at(m2, ts2, i) == rows_at(
        m,
        ts,
        i,
    ) by {
        assert(ts2[i] == ts[i]);
        assert(rows_at(m2, ts, i) == rows_at(m, ts, i));
    }
}

/// A table whose pages stay has the same pages.
proof fn table_same_pages(m: Map<u32, Seq<u8>>, m2: Map<u32, Seq<u8>>, ts: Seq<TableView>, j: int)
    requires
        forest_ok(m, ts),
        0 <= j < ts.len(),
        crate::btree_writer::overflow_kept(m, m2),
        forall|q: u32| #[trigger]
            store::table_page(m, ts[j], q) ==> m2.contains_key(q) && m2[q] == m[q],
    ensures
        forall|q: u32| #[trigger]
            store::table_page(m2, ts[j], q) == store::table_page(m, ts[j], q),
{
    reveal(table_sound);
    reveal(store::table_ok);
    let w = ts[j];
    assert(table_sound(m, w));
    store::table_kept(m, m2, w, store::table_rows(m, w), store::table_rows(m, w), 0);
}

/// A table without rows and indexes whose tree was just made is in order.
pub proof fn new_table_sound(m: Map<u32, Seq<u8>>, v: TableView)
    requires
        btree::is_tree(m, v.root_page),
        forall|k: u64| (#[trigger] btree::cell_at(m, v.root_page, k)) is None,
        forall|q: u32| #[trigger]
            crate::tree::has(btree::view_of(m), v.root_page, q) <==> q == v.root_page,
        v.encrypted ==> crate::page::trimmed(m[v.root_page]),
        v.root_page != 0,
        v.indexes.len() == 0,
        v.row_count == 0,
        m.contains_key(0),
        crate::page::flags_of(m[0]) != crate::page::PAGE_OVERFLOW,
    ensures
        table_sound(m, v),
        store::table_rows(m, v) == Map::<u64, Seq<u8>>::empty(),
        forall|q: u32| #[trigger] store::table_page(m, v, q) <==> q == v.root_page,
{
    reveal(table_sound);
    reveal(store::table_ok);
    reveal(store::apart);
    reveal(store::trim);
    let rows = store::table_rows(m, v);
    assert forall|k: u64| #[trigger] store::good_at(m, v.root_page, k) by {
        assert(btree::cell_at(m, v.root_page, k) is None);
    }
    assert forall|k: u64| !(#[trigger] rows.contains_key(k)) by {
        assert(btree::cell_at(m, v.root_page, k) is None);
    }
    assert(rows =~= Map::<u64, Seq<u8>>::empty());
    assert(rows.dom() =~= Set::<u64>::empty());
    assert forall|q: u32| #[trigger] store::table_page(m, v, q) <==> q == v.root_page by {
        assert(store::row_page(m, v.root_page, q) <==> q == v.root_page);
    }
}

/// Tables in order stay in order without one of them.
pub proof fn forest_removed(m: Map<u32, Seq<u8>>, ts: Seq<TableView>, i: int)
    requires
        forest_ok(m, ts),
        0 <= i < ts.len(),
    ensures
        forest_ok(m, ts.remove(i)),
{
    let ts2 = ts.remove(i);
    assert(table::table_names_of(ts2) =~= table::table_names_of(ts).remove(i));
    assert forall|j: int| 0 <= j < ts2.len() implies table_sound(m, #[trigger] ts2[j]) by {
        if j < i {
            assert(ts2[j] == ts[j]);
        } else {
            assert(ts2[j] == ts[j + 1]);
        }
    }
    assert forall|a: int, b: int|
        0 <= a < ts2.len() && 0 <= b < ts2.len() && a != b implies separate(
        m,
        #[trigger] ts2[a],
        #[trigger] ts2[b],
    ) by {
        let x = if a < i {
            a
        } else {
            a + 1
        };
        let y = if b < i {
            b
        } else {
            b + 1
        };
        assert(ts2[a] == ts[x] && ts2[b] == ts[y]);
        assert(separate(m, ts[x], ts[y]));
    }
}

/// A table in order stays in order when the system page is written.
pub proof fn table_system_page(m: Map<u32, Seq<u8>>, image: Seq<u8>, v: TableView)
    requires
        table_sound(m, v),
        crate::page::flags_of(image) != crate::page::PAGE_OVERFLOW,
    ensures
        table_sound(m.insert(0, image), v),
        store::table_rows(m.insert(0, image), v) == store::table_rows(m, v),
        forall|q: u32| #[trigger]
            store::table_page(m.insert(0, image), v, q) == store::table_page(m, v, q),
{
    reveal(table_sound);
    reveal(store::table_ok);
    let m2 = m.insert(0, image);
    let rows = store::table_rows(m, v);
    table_pages_exist(m, v);
    assert(crate::btree_writer::overflow_kept(m, m2));
    assert forall|q: u32| #[trigger] store::table_page(m, v, q) implies m2.contains_key(q) && m2[q]
        == m[q] by {}
    store::table_kept(m, m2, v, rows, rows, 0);
}

/// Tables keep what they have when the system page is written.
pub proof fn others_system_page(
    m: Map<u32, Seq<u8>>,
    m1: Map<u32, Seq<u8>>,
    image: Seq<u8>,
    ts: Seq<TableView>,
    ts1: Seq<TableView>,
    i: int,
)
    requires
        0 <= i < ts.len(),
        others_kept(m, m1, ts, ts1, i),
        table_sound(m1, ts1[i]),
        crate::page::flags_of(image) != crate::page::PAGE_OVERFLOW,
    ensures
        others_kept(m, m1.insert(0, image), ts, ts1, i),
        table_sound(m1.insert(0, image), ts1[i]),
        rows_at(m1.insert(0, image), ts1, i) == rows_at(m1, ts1, i),
{
    let m2 = m1.insert(0, image);
    table_system_page(m1, image, ts1[i]);
    assert forall|j: int|
        0 <= j < ts.len() && j != i && table_sound(m, #[trigger] ts[j]) && separate(
            m,
            ts[j],
            ts[i],
        ) implies table_sound(m2, ts[j]) && rows_at(m2, ts1, j) == rows_at(m, ts, j) && separate(
        m2,
        ts[j],
        ts1[i],
    ) by {
        assert(ts1[j] == ts[j]);
        table_system_page(m1, image, ts[j]);
        assert forall|q: u32| !(#[trigger] store::table_page(m2, ts[j], q) && store::table_page(
            m2,
            ts1[i],
            q,
        )) by {
            assert(store::table_page(m2, ts[j], q) == store::table_page(m1, ts[j], q));
            assert(store::table_page(m2, ts1[i], q) == store::table_page(m1, ts1[i], q));
            assert(!(store::table_page(m1, ts[j], q) && store::table_page(m1, ts1[i], q)));
        }
    }
}

/// Tables in order stay in order when the system page is written.
pub proof fn forest_system_page(m: Map<u32, Seq<u8>>, image: Seq<u8>, ts: Seq<TableView>)
    requires
        forest_ok(m, ts),
        crate::page::flags_of(image) != crate::page::PAGE_OVERFLOW,
    ensures
        forest_ok(m.insert(0, image), ts),
        forall|i: int|
            0 <= i < ts.len() ==> #[trigger] rows_at(m.insert(0, image), ts, i) == rows_at(m, ts, i),
{
    let m2 = m.insert(0, image);
    if ts.len() > 0 {
        assert(m.contains_key(0) && crate::page::flags_of(m[0]) != crate::page::PAGE_OVERFLOW) by {
            reveal(table_sound);
            assert(table_sound(m, ts[0]));
        }
        assert(crate::btree_writer::overflow_kept(m, m2));
        assert forall|i: int, q: u32|
            0 <= i < ts.len() && #[trigger] store::table_page(m, ts[i], q) implies m2.contains_key(q)
            && m2[q] == m[q] by {
            reveal(table_sound);
            assert(table_sound(m, ts[i]));
            table_pages_exist(m, ts[i]);
        }
        forest_kept(m, m2, ts);
    }
}

}
