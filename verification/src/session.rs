//! What the operations on rows do to pages and tables, in a transaction or
//! directly on the database.

use crate::btree;
use crate::engine;
use crate::engine_list;
use crate::error::{BoogyError, Result};
use crate::filter::{FilterView, FindOptions};
use crate::finder;
use crate::page;
use crate::query;
use crate::query::{FindResult, Row};
use crate::row;
use crate::store;
use crate::table;
use crate::table::TableView;
use crate::tree;
use crate::tree::Key;
use crate::value::{Value, ValueView};
use vstd::prelude::*;

verus! {

/// Pages, tables, and how many page numbers are taken.
#[verifier::ext_equal]
pub struct StateView {
    pub pages: Map<u32, Seq<u8>>,
    pub tables: Seq<TableView>,
    pub total: int,
}

impl StateView {
    /// The rows of the table at a place.
    pub open spec fn rows(self, i: int) -> Map<u64, Seq<u8>> {
        engine::rows_at(self.pages, self.tables, i)
    }

    /// The table at a place is in order.
    pub open spec fn in_order(self, i: int) -> bool {
        engine::table_sound(self.pages, self.tables[i])
    }

    /// All tables are in order.
    pub open spec fn sound(self) -> bool {
        engine::forest_ok(self.pages, self.tables)
    }
}

/// The same pages and tables.
pub open spec fn same(s: StateView, s2: StateView) -> bool {
    s2.pages == s.pages && s2.tables == s.tables
}

/// Why a table cannot be used: it does not exist, or it is locked.
pub open spec fn refused(s: StateView, table: Seq<char>, e: BoogyError) -> bool {
    match table::table_place(s.tables, table) {
        None => e matches BoogyError::TableNotFound(t) && t@ == table,
        Some(i) => engine::locked(s.tables[i]) && (e matches BoogyError::TableLocked(t) && t@
            == table),
    }
}

/// The table exists and is not locked.
pub open spec fn usable(s: StateView, table: Seq<char>) -> bool {
    table::table_place(s.tables, table) matches Some(i) && !engine::locked(s.tables[i])
}

/// The place of a table.
pub open spec fn place_of(s: StateView, table: Seq<char>) -> int {
    table::table_place(s.tables, table)->0
}

/// One table came to hold other rows, and is in order. So is, with the rows it had,
/// each other table in order that shares no page with it.
pub open spec fn stepped(s: StateView, s2: StateView, i: int, rows: Map<u64, Seq<u8>>) -> bool {
    &&& s2.in_order(i)
    &&& s2.rows(i) == rows
    &&& engine::others_kept(s.pages, s2.pages, s.tables, s2.tables, i)
    &&& s.sound() ==> s2.sound()
    &&& s2.pages.contains_key(0)
    &&& s2.pages[0] == s.pages[0]
}

/// One table changed within its own pages.
pub proof fn step(s: StateView, s2: StateView, i: int)
    requires
        s.in_order(i),
        0 <= i < s.tables.len(),
        s2.tables == s.tables.update(i, s2.tables[i]),
        s2.tables[i].name == s.tables[i].name,
        engine::table_sound(s2.pages, s2.tables[i]),
        store::only_table(s.pages, s2.pages, s.tables[i], s2.tables[i]),
    ensures
        stepped(s, s2, i, store::table_rows(s2.pages, s2.tables[i])),
        page::flags_of(s2.pages[0]) != page::PAGE_OVERFLOW,
{
    engine::table_step(s.pages, s2.pages, s.tables, i, s2.tables[i]);
    if s.sound() {
        engine::forest_step(s.pages, s2.pages, s.tables, i, s2.tables[i]);
    }
    reveal(engine::table_sound);
    engine::system_page_kept(s.pages, s2.pages, s.tables[i], s2.tables[i]);
}

/// A table in order can be worked on.
pub proof fn sound_table(s: StateView, i: int)
    requires
        s.in_order(i),
        0 <= i < s.tables.len(),
    ensures
        engine::table_sound(s.pages, s.tables[i]),
        store::workable(s.pages, s.tables[i]),
{
    reveal(engine::table_sound);
    store::always_workable(s.pages, s.tables[i]);
}

/// Only the table at a place changed, and only in its roots and counts.
pub open spec fn retabled(s: StateView, s2: StateView, i: int) -> bool {
    &&& s2.tables == s.tables.update(i, s2.tables[i])
    &&& engine::same_table(s.tables[i], s2.tables[i])
}

/// What comes of storing a row under a number.
pub open spec fn row_stored(
    s: StateView,
    s2: StateView,
    i: int,
    k: u64,
    data: Seq<(Seq<char>, ValueView)>,
    max: u32,
    r: Result<()>,
) -> bool {
    let v = s.tables[i];
    let bytes = engine::new_row(v, k, data);
    &&& bytes.len() > max || !engine::starts_fit(v, data) ==> (r matches Err(
        BoogyError::RowTooLarge(n),
    ) && n == bytes.len()) && s2.pages == s.pages
    &&& r is Ok ==> {
        &&& store::indexable(v, bytes, k)
        &&& retabled(s, s2, i)
        &&& s2.tables[i].next_rowid == engine::next_after(v.next_rowid, k)
        &&& v.row_count < u64::MAX ==> s2.tables[i].row_count == v.row_count + 1
    }
    &&& bytes.len() <= max && engine::starts_fit(v, data) && s.in_order(i) && v.row_count < u64::MAX && store::readable(bytes)
        && store::indexable(v, bytes, k) ==> {
        &&& match r {
            Ok(_) => !s.rows(i).contains_key(k) && stepped(s, s2, i, s.rows(i).insert(k, bytes)),
            Err(BoogyError::DuplicateKey(id)) => id == k && s.rows(i).contains_key(k) && s2.pages
                == s.pages,
            Err(e) => store::tree_error(e),
        }
        &&& store::insert_owed(s.pages, v, k, bytes, s.total) ==> r is Ok && s2.total <= s.total
            + store::most_pages(v, bytes.len() as int)
        &&& s.rows(i).contains_key(k) ==> (r matches Err(e) && e is DuplicateKey)
    }
    &&& bytes.len() <= max && engine::starts_fit(v, data) && s.in_order(i) && !store::indexable(
        v,
        bytes,
        k,
    ) ==> engine::add_refused(s.pages, v, k, bytes, r) && s2.pages == s.pages
}

/// A result without its value.
pub open spec fn outcome_of<T>(r: Result<T>) -> Result<()> {
    match r {
        Ok(_) => Ok(()),
        Err(e) => Err(e),
    }
}

/// What comes of inserting a row under a number.
pub open spec fn inserted_with_id(
    s: StateView,
    s2: StateView,
    table: Seq<char>,
    k: u64,
    data: Seq<(Seq<char>, ValueView)>,
    max: u32,
    r: Result<()>,
) -> bool {
    if !usable(s, table) {
        (r matches Err(e) && refused(s, table, e)) && same(s, s2)
    } else {
        let i = place_of(s, table);
        if !engine::types_ok(s.tables[i], data) {
            (r matches Err(e) && e is TypeMismatch) && same(s, s2)
        } else if k == u64::MAX {
            (r matches Err(e) && e is Corruption) && same(s, s2)
        } else {
            row_stored(s, s2, i, k, data, max, r)
        }
    }
}

/// What comes of inserting a row under the next number.
pub open spec fn inserted(
    s: StateView,
    s2: StateView,
    table: Seq<char>,
    data: Seq<(Seq<char>, ValueView)>,
    max: u32,
    r: Result<u64>,
) -> bool {
    &&& usable(s, table) && (r matches Ok(id)) ==> r->Ok_0 == s.tables[place_of(s, table)].next_rowid
    &&& inserted_with_id(
        s,
        s2,
        table,
        s.tables[place_of(s, table)].next_rowid,
        data,
        max,
        outcome_of(r),
    )
}

/// What comes of updating a row.
pub open spec fn updated(
    s: StateView,
    s2: StateView,
    table: Seq<char>,
    k: u64,
    fields: Seq<(Seq<char>, ValueView)>,
    max: u32,
    r: Result<bool>,
) -> bool {
    if !usable(s, table) {
        (r matches Err(e) && refused(s, table, e)) && same(s, s2)
    } else {
        let i = place_of(s, table);
        let v = s.tables[i];
        if !engine::types_ok(v, fields) {
            (r matches Err(e) && e is TypeMismatch) && same(s, s2)
        } else {
            let rows = s.rows(i);
            let bytes = engine::updated_row(v, k, rows[k], fields);
            &&& r matches Ok(_) ==> retabled(s, s2, i) && s2.tables[i].row_count == v.row_count
                && s2.tables[i].next_rowid == v.next_rowid
            &&& s.in_order(i) ==> match r {
                Ok(true) => {
                    &&& rows.contains_key(k)
                    &&& row::decodable(rows[k])
                    &&& engine::change_fits(v, k, rows[k], fields, max)
                    &&& store::indexable(v, bytes, k)
                    &&& store::readable(bytes) ==> stepped(
                        s,
                        s2,
                        i,
                        rows.insert(k, bytes),
                    )
                },
                Ok(false) => !rows.contains_key(k) && same(s, s2),
                Err(BoogyError::RowTooLarge(n)) => {
                    &&& if engine::change_too_large(s.pages, v, k, fields, max) {
                        n == bytes.len()
                    } else {
                        !store::readable(bytes)
                    }
                    &&& same(s, s2)
                },
                Err(e) => {
                    &&& !engine::change_too_large(s.pages, v, k, fields, max)
                    &&& if engine::change_unlistable(s.pages, v, k, fields, max) {
                        store::unlistable(v, bytes, k, e)
                    } else {
                        store::readable(bytes) ==> store::tree_error(e)
                    }
                    &&& !engine::change_owed(s.pages, v, k, fields, max, s.total)
                    &&& same(s, s2)
                },
            }
        }
    }
}

/// What comes of deleting a row.
pub open spec fn deleted(
    s: StateView,
    s2: StateView,
    table: Seq<char>,
    k: u64,
    r: Result<bool>,
) -> bool {
    if !usable(s, table) {
        (r matches Err(e) && refused(s, table, e)) && same(s, s2)
    } else {
        let i = place_of(s, table);
        let v = s.tables[i];
        let rows = s.rows(i);
        &&& r is Ok ==> retabled(s, s2, i) && s2.tables[i].next_rowid == v.next_rowid
        &&& s.in_order(i) ==> match r {
            Ok(true) => rows.contains_key(k) && stepped(s, s2, i, rows.remove(k))
                && s2.tables[i].row_count == v.row_count - 1,
            Ok(false) => !rows.contains_key(k) && same(s, s2),
            Err(_) => false,
        }
    }
}

/// What reading a row gives.
pub open spec fn got(s: StateView, table: Seq<char>, k: u64, r: Result<Option<Row>>) -> bool {
    if !usable(s, table) {
        r matches Err(e) && refused(s, table, e)
    } else {
        let i = place_of(s, table);
        let v = s.tables[i];
        s.in_order(i) ==> match r {
            Ok(Some(row)) => s.rows(i).contains_key(k) && row@ == query::row_of(
                s.rows(i)[k],
                table::column_names(v.columns),
            ),
            Ok(None) => !s.rows(i).contains_key(k),
            Err(_) => false,
        }
    }
}

/// Rows of a scan that pass filters.
pub open spec fn scan_matches(s: StateView, i: int, fs: Seq<FilterView>) -> Seq<(u64, Seq<u8>)> {
    finder::row_list(s.pages, s.tables[i]).filter(finder::found_by_scan(s.tables[i], fs))
}

/// What a search by a scan gives.
pub open spec fn scan_found(
    s: StateView,
    table: Seq<char>,
    opts: FindOptions,
    r: Result<FindResult>,
) -> bool {
    if !usable(s, table) {
        r matches Err(e) && refused(s, table, e)
    } else {
        let i = place_of(s, table);
        s.in_order(i) ==> (r matches Ok(f) && finder::answered(
            scan_matches(s, i, query::filters_view(opts.filters@)),
            s.tables[i],
            opts,
            f,
        ))
    }
}

/// What counting by a scan gives.
pub open spec fn scan_counted(
    s: StateView,
    table: Seq<char>,
    fs: Seq<FilterView>,
    r: Result<u64>,
) -> bool {
    if !usable(s, table) {
        r matches Err(e) && refused(s, table, e)
    } else {
        let i = place_of(s, table);
        &&& fs.len() == 0 ==> r == Ok::<u64, BoogyError>(s.tables[i].row_count)
        &&& s.in_order(i) && fs.len() > 0 ==> (r matches Ok(n) && n == scan_matches(s, i, fs).len())
    }
}

/// The numbers of the rows that pass filters.
pub open spec fn scan_hits(s: StateView, i: int, fs: Seq<FilterView>) -> Set<u64> {
    Set::new(
        |k: u64| s.rows(i).contains_key(k) && query::passes(s.tables[i].columns, fs, s.rows(i)[k]),
    )
}

/// The numbers found by a scan are those of the rows that pass.
pub proof fn scan_ids(
    s: StateView,
    i: int,
    all: Seq<(u64, Vec<u8>)>,
    fs: Seq<FilterView>,
    ids: Seq<u64>,
)
    requires
        s.in_order(i),
        0 <= i < s.tables.len(),
        btree::pairs(all) == finder::row_list(s.pages, s.tables[i]),
        forall|k: u64| #[trigger]
            ids.contains(k) <==> exists|j: int|
                0 <= j < all.len() && (#[trigger] all[j]).0 == k && query::passes(
                    s.tables[i].columns,
                    fs,
                    all[j].1@,
                ),
        (forall|a: int, b: int|
            0 <= a < b < all.len() ==> (#[trigger] all[a]).0 != (#[trigger] all[b]).0)
            ==> ids.no_duplicates(),
    ensures
        engine_list::ids_name(s.pages, s.tables[i], ids),
        forall|k: u64| #[trigger] ids.contains(k) <==> scan_hits(s, i, fs).contains(k),
        ids.len() == scan_hits(s, i, fs).len(),
{
    let m = s.pages;
    let v = s.tables[i];
    sound_table(s, i);
    reveal(engine::table_sound);
    reveal(store::table_ok);
    store::cells_sound(m, v.root_page);
    tree::all_sorted(btree::view_of(m), v.root_page);
    let cells = btree::all_cells(m, v.root_page);
    let rows = s.rows(i);
    assert(btree::pairs(all).len() == all.len());
    assert forall|j: int| 0 <= j < all.len() implies (#[trigger] all[j]).0 == cells[j].0
        && rows.contains_key(all[j].0) && rows[all[j].0] == all[j].1@ by {
        assert(btree::pairs(all)[j] == (all[j].0, all[j].1@));
        let c = btree::all_cells(m, v.root_page)[j];
        assert(finder::row_list(m, v)[j] == btree::whole(m, c.1));
    }
    assert forall|a: int, b: int| 0 <= a < b < all.len() implies (#[trigger] all[a]).0 != (
    #[trigger] all[b]).0 by {
        assert(cells[a].0.before(cells[b].0));
    }
    assert forall|k: u64| #[trigger] ids.contains(k) <==> scan_hits(s, i, fs).contains(k) by {
        if scan_hits(s, i, fs).contains(k) {
            finder::row_in_list(m, v, k);
            let j = choose|j: int|
                0 <= j < finder::row_list(m, v).len() && finder::row_list(m, v)[j] == (k, rows[k]);
            assert(btree::pairs(all)[j] == (all[j].0, all[j].1@));
            assert(all[j].0 == k);
        }
    }
    assert forall|x: int| 0 <= x < ids.len() implies rows.contains_key(#[trigger] ids[x]) by {
        assert(ids.contains(ids[x]));
    }
    ids.unique_seq_to_set();
    assert(ids.to_set() =~= scan_hits(s, i, fs));
}

/// Rows of which those that pass filters have new fields.
pub open spec fn refreshed_rows(
    s: StateView,
    i: int,
    fs: Seq<FilterView>,
    fields: Seq<(Seq<char>, ValueView)>,
) -> Map<u64, Seq<u8>> {
    Map::new(
        |k: u64| s.rows(i).contains_key(k),
        |k: u64|
            if scan_hits(s, i, fs).contains(k) {
                engine::updated_row(s.tables[i], k, s.rows(i)[k], fields)
            } else {
                s.rows(i)[k]
            },
    )
}

/// The new bytes of the rows that pass filters can be read back.
pub open spec fn all_refreshable(
    s: StateView,
    i: int,
    fs: Seq<FilterView>,
    fields: Seq<(Seq<char>, ValueView)>,
) -> bool {
    forall|k: u64| #[trigger]
        scan_hits(s, i, fs).contains(k) ==> store::readable(
            engine::updated_row(s.tables[i], k, s.rows(i)[k], fields),
        )
}

/// The indexes cannot list the new bytes of one of the rows that a scan finds.
pub open spec fn scan_unlistable(
    s: StateView,
    i: int,
    fs: Seq<FilterView>,
    fields: Seq<(Seq<char>, ValueView)>,
    e: BoogyError,
) -> bool {
    exists|k: u64| #[trigger]
        scan_hits(s, i, fs).contains(k) && store::unlistable(
            s.tables[i],
            engine::updated_row(s.tables[i], k, s.rows(i)[k], fields),
            k,
            e,
        )
}

/// Updating the rows that a scan finds can only fail if the indexes cannot list them:
/// those that are found can be decoded, are not too long afterwards, and there are
/// enough page numbers.
pub open spec fn scan_owed(
    s: StateView,
    i: int,
    fs: Seq<FilterView>,
    fields: Seq<(Seq<char>, ValueView)>,
    max: u32,
) -> bool {
    let v = s.tables[i];
    &&& forall|k: u64| #[trigger]
        scan_hits(s, i, fs).contains(k) ==> row::decodable(s.rows(i)[k]) && engine::change_fits(
            v,
            k,
            s.rows(i)[k],
            fields,
            max,
        )
    &&& s.total + store::row_pages(v, max) * scan_hits(s, i, fs).len() <= u32::MAX
}

/// One of the rows that a scan finds would have a length that is not allowed.
pub open spec fn scan_too_large(
    s: StateView,
    i: int,
    fs: Seq<FilterView>,
    fields: Seq<(Seq<char>, ValueView)>,
    max: u32,
    n: int,
) -> bool {
    exists|k: u64| #[trigger]
        scan_hits(s, i, fs).contains(k) && row::decodable(s.rows(i)[k]) && !engine::change_fits(
            s.tables[i],
            k,
            s.rows(i)[k],
            fields,
            max,
        ) && engine::updated_row(s.tables[i], k, s.rows(i)[k], fields).len() == n
}

/// What comes of updating the rows that a scan finds.
pub open spec fn scan_updated(
    s: StateView,
    s2: StateView,
    table: Seq<char>,
    fs: Seq<FilterView>,
    fields: Seq<(Seq<char>, ValueView)>,
    max: u32,
    r: Result<u64>,
) -> bool {
    if !usable(s, table) {
        (r matches Err(e) && refused(s, table, e)) && same(s, s2)
    } else {
        let i = place_of(s, table);
        let v = s.tables[i];
        if !engine::types_ok(v, fields) {
            (r matches Err(e) && e is TypeMismatch) && same(s, s2)
        } else {
            &&& r is Ok ==> retabled(s, s2, i) && s2.tables[i].row_count == v.row_count
                && s2.tables[i].next_rowid == v.next_rowid
            &&& s.in_order(i) && all_refreshable(s, i, fs, fields) ==> match r {
                Ok(n) => n == scan_hits(s, i, fs).len() && stepped(
                    s,
                    s2,
                    i,
                    refreshed_rows(s, i, fs, fields),
                ) && forall|k: u64| #[trigger]
                    scan_hits(s, i, fs).contains(k) ==> engine::change_fits(
                        v,
                        k,
                        s.rows(i)[k],
                        fields,
                        max,
                    ) && store::indexable(
                        v,
                        engine::updated_row(v, k, s.rows(i)[k], fields),
                        k,
                    ),
                Err(BoogyError::RowTooLarge(n)) => scan_too_large(s, i, fs, fields, max, n as int)
                    && same(s, s2),
                Err(e) => store::tree_error(e) && same(s, s2) && (scan_owed(s, i, fs, fields, max)
                    ==> scan_unlistable(s, i, fs, fields, e)) && scan_hits(
                    s,
                    i,
                    fs,
                ).len() > 0 && (forall|k: u64|
                    scan_hits(s, i, fs) == set![k] ==> !(#[trigger] engine::change_owed(
                        s.pages,
                        v,
                        k,
                        fields,
                        max,
                        s.total,
                    ))),
            }
        }
    }
}

/// Rows without those that pass filters.
pub open spec fn remaining_rows(s: StateView, i: int, fs: Seq<FilterView>) -> Map<u64, Seq<u8>> {
    Map::new(
        |k: u64| s.rows(i).contains_key(k) && !scan_hits(s, i, fs).contains(k),
        |k: u64| s.rows(i)[k],
    )
}

/// What comes of deleting the rows that a scan finds.
pub open spec fn scan_deleted(
    s: StateView,
    s2: StateView,
    table: Seq<char>,
    fs: Seq<FilterView>,
    r: Result<u64>,
) -> bool {
    if !usable(s, table) {
        (r matches Err(e) && refused(s, table, e)) && same(s, s2)
    } else {
        let i = place_of(s, table);
        let v = s.tables[i];
        &&& r is Ok ==> retabled(s, s2, i) && s2.tables[i].next_rowid == v.next_rowid
        &&& s.in_order(i) ==> match r {
            Ok(n) => n == scan_hits(s, i, fs).len() && stepped(s, s2, i, remaining_rows(s, i, fs)),
            Err(_) => false,
        }
    }
}

/// Rows with new ones under consecutive numbers.
pub open spec fn with_rows(
    v: TableView,
    rows: Map<u64, Seq<u8>>,
    first: u64,
    datas: Seq<Seq<(Seq<char>, ValueView)>>,
) -> Map<u64, Seq<u8>>
    decreases datas.len(),
{
    if datas.len() == 0 {
        rows
    } else {
        let k = (first + datas.len() - 1) as u64;
        with_rows(v, rows, first, datas.drop_last()).insert(
            k,
            engine::new_row(v, k, datas.last()),
        )
    }
}

/// Each of the new rows can be stored, and there are numbers for them.
pub open spec fn all_storable(v: TableView, datas: Seq<Seq<(Seq<char>, ValueView)>>, max: u32) -> bool {
    &&& v.next_rowid + datas.len() <= u64::MAX
    &&& v.row_count + datas.len() <= u64::MAX
    &&& forall|j: int|
        0 <= j < datas.len() ==> {
            let k = (v.next_rowid + j) as u64;
            let bytes = engine::new_row(v, k, #[trigger] datas[j]);
            bytes.len() <= max && engine::starts_fit(v, datas[j]) && store::readable(bytes)
        }
}

/// The indexes can list a new row at a place in a list.
pub open spec fn lists_at(v: TableView, datas: Seq<Seq<(Seq<char>, ValueView)>>, j: int) -> bool {
    let k = (v.next_rowid + j) as u64;
    store::indexable(v, engine::new_row(v, k, datas[j]), k)
}

/// The indexes cannot list one of the new rows.
pub open spec fn many_unlistable(
    v: TableView,
    datas: Seq<Seq<(Seq<char>, ValueView)>>,
    e: BoogyError,
) -> bool {
    exists|j: int|
        0 <= j < datas.len() && !(#[trigger] lists_at(v, datas, j)) && store::unlistable(
            v,
            engine::new_row(v, (v.next_rowid + j) as u64, datas[j]),
            (v.next_rowid + j) as u64,
            e,
        )
}

/// The rows that are to be inserted.
pub open spec fn datas_view(rows: Seq<Vec<(&str, Value)>>) -> Seq<Seq<(Seq<char>, ValueView)>> {
    rows.map_values(|r: Vec<(&str, Value)>| engine::data_view(r@))
}

/// Storing many rows can only fail if the indexes cannot list them: the numbers are
/// free, and there are enough page numbers.
pub open spec fn many_owed(
    rows: Map<u64, Seq<u8>>,
    v: TableView,
    datas: Seq<Seq<(Seq<char>, ValueView)>>,
    max: u32,
    total: int,
) -> bool {
    &&& forall|j: int|
        #![trigger datas[j]]
        0 <= j < datas.len() ==> !rows.contains_key((v.next_rowid + j) as u64)
    &&& total + store::row_pages(v, max) * datas.len() <= u32::MAX
}

/// What comes of inserting many rows.
pub open spec fn many_inserted(
    s: StateView,
    s2: StateView,
    table: Seq<char>,
    datas: Seq<Seq<(Seq<char>, ValueView)>>,
    max: u32,
    r: Result<Vec<u64>>,
) -> bool {
    if !usable(s, table) {
        (r matches Err(e) && refused(s, table, e)) && same(s, s2)
    } else {
        let i = place_of(s, table);
        let v = s.tables[i];
        &&& r matches Ok(ids) ==> {
            &&& ids@.len() == datas.len()
            &&& forall|j: int| 0 <= j < ids@.len() ==> (#[trigger] ids@[j]) == v.next_rowid + j
            &&& forall|j: int|
                0 <= j < datas.len() ==> engine::types_ok(v, #[trigger] datas[j])
            &&& forall|j: int|
                0 <= j < datas.len() ==> engine::new_row(
                    v,
                    (v.next_rowid + j) as u64,
                    #[trigger] datas[j],
                ).len() <= max
            &&& forall|j: int| 0 <= j < datas.len() ==> #[trigger] lists_at(v, datas, j)
            &&& retabled(s, s2, i)
            &&& s2.tables[i].next_rowid == v.next_rowid + datas.len()
            &&& s.in_order(i) && all_storable(v, datas, max) ==> stepped(
                s,
                s2,
                i,
                with_rows(v, s.rows(i), v.next_rowid, datas),
            )
        }
        &&& datas.len() == 0 ==> r is Ok
        &&& datas.len() == 1 && s.in_order(i) && all_storable(v, datas, max) && lists_at(v, datas, 0)
            && engine::types_ok(v, datas[0]) && store::insert_owed(
            s.pages,
            v,
            v.next_rowid,
            engine::new_row(v, v.next_rowid, datas[0]),
            s.total,
        ) ==> r is Ok
        &&& s.in_order(i) && all_storable(v, datas, max) && (forall|j: int|
            0 <= j < datas.len() ==> engine::types_ok(v, #[trigger] datas[j])) && many_owed(
            s.rows(i),
            v,
            datas,
            max,
            s.total,
        ) ==> match r {
            Ok(_) => true,
            Err(e) => many_unlistable(v, datas, e),
        }
    }
}

/// One step after another.
pub proof fn stepped_then(
    s: StateView,
    s1: StateView,
    s2: StateView,
    i: int,
    a: Map<u64, Seq<u8>>,
    b: Map<u64, Seq<u8>>,
)
    requires
        stepped(s, s1, i, a),
        stepped(s1, s2, i, b),
    ensures
        stepped(s, s2, i, b),
{
    assert forall|j: int|
        0 <= j < s.tables.len() && j != i && engine::table_sound(
            s.pages,
            #[trigger] s.tables[j],
        ) && engine::separate(s.pages, s.tables[j], s.tables[i]) implies engine::table_sound(
        s2.pages,
        s.tables[j],
    ) && s2.rows(j) == s.rows(j) && engine::separate(s2.pages, s.tables[j], s2.tables[i]) by {
        assert(s1.tables[j] == s.tables[j]);
        assert(s2.tables[j] == s1.tables[j]);
        assert(s1.rows(j) == s.rows(j));
    }
    assert forall|j: int| 0 <= j < s.tables.len() && j != i implies #[trigger] s2.tables[j]
        == s.tables[j] by {
        assert(s1.tables[j] == s.tables[j]);
    }
}

/// Nothing happens.
pub proof fn stepped_none(s: StateView, s2: StateView, i: int)
    requires
        s.in_order(i),
        0 <= i < s.tables.len(),
        same(s, s2),
    ensures
        stepped(s, s2, i, s.rows(i)),
        retabled(s, s2, i),
{
    sound_table(s, i);
    reveal(engine::table_sound);
    assert(s.tables =~= s.tables.update(i, s.tables[i]));
}

}
