//! Building an index over the rows that a table has.

use crate::btree;
use crate::btree_writer;
use crate::btree_writer::BTreeWriter;
use crate::engine;
use crate::error::{owned, BoogyError, Result};
use crate::file;
use crate::file::WriteGuard;
use crate::index::encode_index_key;
use crate::index_node;
use crate::index_tree;
use crate::index_tree::IndexTreeWriter;
use crate::row::extract_column;
use crate::store;
use crate::table;
use crate::table::{IndexMeta, IndexView, TableMeta, TableView};
use crate::tree;
use crate::tree::Key;
use crate::value::{ColumnView, Type, Value};
use vstd::prelude::*;

verus! {

/// An index on one column.
pub open spec fn index_on(name: Seq<char>, column: Seq<char>, root_page: u32) -> IndexView {
    IndexView { name, columns: seq![column], unique: false, root_page }
}

/// A table with one more index.
pub open spec fn with_index(v: TableView, ix: IndexView) -> TableView {
    TableView { indexes: v.indexes.push(ix), ..v }
}

/// The rows with some numbers.
pub open spec fn only_ids(rows: Map<u64, Seq<u8>>, ids: Seq<u64>) -> Map<u64, Seq<u8>> {
    Map::new(|k: u64| rows.contains_key(k) && ids.contains(k), |k: u64| rows[k])
}

/// What an index on the column would list of each row is readable and short.
pub open spec fn column_indexable(v: TableView, column: Seq<char>, rows: Map<u64, Seq<u8>>) -> bool {
    forall|k: u64| #[trigger]
        rows.contains_key(k) ==> store::short_entry(
            store::entry_of(v.columns, index_on(Seq::empty(), column, 0), rows[k], k),
        )
}

/// What an index on the column would list of one of the rows cannot be read, or is too
/// long.
pub open spec fn column_unlistable(
    v: TableView,
    column: Seq<char>,
    rows: Map<u64, Seq<u8>>,
    e: BoogyError,
) -> bool {
    exists|k: u64| #[trigger]
        rows.contains_key(k) && store::entry_fault(
            store::entry_of(v.columns, index_on(Seq::empty(), column, 0), rows[k], k),
            e,
        )
}

/// Checks that an index on a column can list the rows.
fn check_column(
    all: &Vec<(u64, Vec<u8>)>,
    col_id: u16,
    col_type: Type,
    Ghost(v): Ghost<TableView>,
    Ghost(column): Ghost<Seq<char>>,
) -> (r: Result<()>)
    requires
        table::column_id(v.columns, column) == Some(col_id),
        table::column_type(v.columns, column) == Some(col_type),
    ensures
        match r {
            Ok(_) => forall|x: int|
                0 <= x < all@.len() ==> store::short_entry(
                    store::entry_of(
                        v.columns,
                        index_on(Seq::empty(), column, 0),
                        (#[trigger] btree::pairs(all@)[x]).1,
                        btree::pairs(all@)[x].0,
                    ),
                ),
            Err(e) => exists|x: int|
                0 <= x < all@.len() && store::entry_fault(
                    store::entry_of(
                        v.columns,
                        index_on(Seq::empty(), column, 0),
                        (#[trigger] btree::pairs(all@)[x]).1,
                        btree::pairs(all@)[x].0,
                    ),
                    e,
                ),
        },
{
    let ghost ix = index_on(Seq::empty(), column, 0);
    assert(table::leading(ix) == column);
    let mut x: usize = 0;
    while x < all.len()
        invariant
            x <= all@.len(),
            ix == index_on(Seq::empty(), column, 0),
            table::leading(ix) == column,
            table::column_id(v.columns, column) == Some(col_id),
            table::column_type(v.columns, column) == Some(col_type),
            forall|j: int|
                0 <= j < x ==> store::short_entry(
                    store::entry_of(
                        v.columns,
                        ix,
                        (#[trigger] btree::pairs(all@)[j]).1,
                        btree::pairs(all@)[j].0,
                    ),
                ),
        decreases all@.len() - x,
    {
        assert(btree::pairs(all@)[x as int] == (all@[x as int].0, all@[x as int].1@));
        match store::check_entry(
            all[x].1.as_slice(),
            Some(col_id),
            Some(col_type),
            all[x].0,
            Ghost(v.columns),
            Ghost(ix),
        ) {
            Ok(_) => {},
            Err(e) => {
                return Err(e);
            },
        }
        x += 1;
    }
    Ok(())
}

/// The entries of an index do not depend on its name or root.
proof fn entry_same(columns: Seq<ColumnView>, a: IndexView, b: IndexView, bytes: Seq<u8>, k: u64)
    requires
        table::leading(a) == table::leading(b),
    ensures
        store::entry_of(columns, a, bytes, k) == store::entry_of(columns, b, bytes, k),
{
}

/// A new, empty index tree lists no rows, and is apart from all others.
proof fn index_started(
    m: Map<u32, Seq<u8>>,
    m1: Map<u32, Seq<u8>>,
    v: TableView,
    ix: IndexView,
    rows: Map<u64, Seq<u8>>,
)
    requires
        store::stage(m, v, rows, rows, 0),
        !m.contains_key(ix.root_page),
        m1 == m.insert(ix.root_page, m1[ix.root_page]),
        index_tree::is_index(m1, ix.root_page),
        v.encrypted ==> crate::file::keeps_trim(m, m1),
        forall|k: Seq<u8>| (#[trigger] index_tree::key_at(m1, ix.root_page, k)) is None,
        forall|q: u32| #[trigger]
            tree::has(index_node::idx_view(m1), ix.root_page, q) <==> q == ix.root_page,
    ensures
        store::stage(m1, with_index(v, ix), Map::empty(), rows, v.indexes.len() as int),
        store::table_rows(m1, with_index(v, ix)) == store::table_rows(m, v),
        btree::expanded(m1, btree::all_cells(m1, v.root_page)) == btree::expanded(
            m,
            btree::all_cells(m, v.root_page),
        ),
        store::only_table(m, m1, v, with_index(v, ix)),
{
    let w = with_index(v, ix);
    let p = ix.root_page;
    let n = v.indexes.len() as int;
    let none = Map::<u64, Seq<u8>>::empty();
    assert(btree_writer::overflow_kept(m, m1));
    assert forall|q: u32| #[trigger] store::table_page(m, v, q) implies m.contains_key(q)
        && m1.contains_key(q) && m1[q] == m[q] by {
        stage_pages_exist(m, v, rows);
    }
    store::table_kept(m, m1, v, rows, rows, 0);
    assert(store::index_matches(m1, v.columns, ix, none)) by {
        reveal(store::index_matches);
        assert forall|key: Seq<u8>| !(#[trigger] store::listed(v.columns, ix, none, key)) by {}
    }
    assert forall|j: int| 0 <= j < w.indexes.len() implies #[trigger] store::staged(
        m1,
        w,
        none,
        rows,
        n,
        j,
    ) by {
        if j < n {
            assert(store::staged(m1, v, rows, rows, 0, j));
            assert(w.indexes[j] == v.indexes[j]);
        } else {
            assert(w.indexes[j] == ix);
        }
    }
    assert(store::apart(m1, w)) by {
        reveal(store::apart);
        stage_pages_exist(m, v, rows);
        assert forall|i: int, q: u32| 0 <= i < w.indexes.len() implies !(#[trigger] store::key_page(
            m1,
            w.indexes[i].root_page,
            q,
        ) && store::row_page(m1, w.root_page, q)) by {
            if i < n {
                assert(w.indexes[i] == v.indexes[i]);
                assert(!(store::key_page(m1, v.indexes[i].root_page, q) && store::row_page(
                    m1,
                    v.root_page,
                    q,
                )));
            } else if store::key_page(m1, w.indexes[i].root_page, q) && store::row_page(
                m1,
                w.root_page,
                q,
            ) {
                assert(w.indexes[i] == ix);
                assert(tree::has(index_node::idx_view(m1), p, q));
                assert(q == p);
                assert(store::table_page(m1, v, q));
                assert(store::table_page(m, v, q));
            }
        }
        assert forall|i: int, j: int, q: u32| 0 <= i < j < w.indexes.len() implies !(
        #[trigger] store::key_page(m1, w.indexes[i].root_page, q) && #[trigger] store::key_page(
            m1,
            w.indexes[j].root_page,
            q,
        )) by {
            assert(w.indexes[i] == v.indexes[i]);
            if j < n {
                assert(w.indexes[j] == v.indexes[j]);
                assert(!(store::key_page(m1, v.indexes[i].root_page, q) && store::key_page(
                    m1,
                    v.indexes[j].root_page,
                    q,
                )));
            } else if store::key_page(m1, w.indexes[i].root_page, q) && store::key_page(
                m1,
                w.indexes[j].root_page,
                q,
            ) {
                assert(w.indexes[j] == ix);
                assert(tree::has(index_node::idx_view(m1), p, q));
                assert(q == p);
                assert(store::key_page(m1, v.indexes[i].root_page, q));
                assert(store::table_page(m1, v, q));
                assert(store::table_page(m, v, q));
            }
        }
    }
    assert(store::trim(m1, w)) by {
        reveal(store::trim);
        if v.encrypted {
            assert forall|q: u32| #[trigger] store::table_page(m1, w, q) implies crate::page::trimmed(
                m1[q],
            ) by {
                if q == p {
                    assert(m1.contains_key(p));
                } else if !store::row_page(m1, w.root_page, q) {
                    let i = choose|i: int|
                        0 <= i < w.indexes.len() && #[trigger] store::key_page(
                            m1,
                            w.indexes[i].root_page,
                            q,
                        );
                    if i < n {
                        assert(w.indexes[i] == v.indexes[i]);
                        assert(store::key_page(m1, v.indexes[i].root_page, q));
                        assert(store::table_page(m1, v, q));
                    } else {
                        assert(w.indexes[i] == ix);
                        assert(tree::has(index_node::idx_view(m1), p, q));
                    }
                } else {
                    assert(store::table_page(m1, v, q));
                }
            }
        }
    }
    assert(store::only_table(m, m1, v, w)) by {
        reveal(store::only_table);
        assert forall|q: u32| #[trigger] store::table_page(m1, w, q) implies store::table_page(
            m,
            v,
            q,
        ) || !m.contains_key(q) by {
            if store::row_page(m1, w.root_page, q) {
                assert(store::table_page(m1, v, q));
            } else {
                let i = choose|i: int|
                    0 <= i < w.indexes.len() && #[trigger] store::key_page(
                        m1,
                        w.indexes[i].root_page,
                        q,
                    );
                if i < n {
                    assert(w.indexes[i] == v.indexes[i]);
                    assert(store::key_page(m1, v.indexes[i].root_page, q));
                    assert(store::table_page(m1, v, q));
                } else {
                    assert(q == p);
                }
            }
        }
    }
}

/// The pages of a table's trees exist.
proof fn stage_pages_exist(m: Map<u32, Seq<u8>>, v: TableView, rows: Map<u64, Seq<u8>>)
    requires
        store::stage(m, v, rows, rows, 0),
    ensures
        forall|q: u32| #[trigger] store::table_page(m, v, q) ==> m.contains_key(q),
{
    store::row_pages_exist(m, v.root_page);
    assert forall|q: u32| #[trigger] store::table_page(m, v, q) implies m.contains_key(q) by {
        if !store::row_page(m, v.root_page, q) {
            let i = choose|i: int|
                0 <= i < v.indexes.len() && #[trigger] store::key_page(m, v.indexes[i].root_page, q);
            assert(store::staged(m, v, rows, rows, 0, i));
            reveal(store::index_matches);
            store::key_pages_exist(m, v.indexes[i].root_page);
        }
    }
}

proof fn only_ids_step(rows: Map<u64, Seq<u8>>, ids: Seq<u64>, x: int)
    requires
        0 <= x < ids.len(),
        ids.no_duplicates(),
        rows.contains_key(ids[x]),
    ensures
        only_ids(rows, ids.take(x + 1)) == only_ids(rows, ids.take(x)).insert(
            ids[x],
            rows[ids[x]],
        ),
        !only_ids(rows, ids.take(x)).contains_key(ids[x]),
{
    let a = ids.take(x);
    let b = ids.take(x + 1);
    assert forall|k: u64| #[trigger] b.contains(k) == (a.contains(k) || k == ids[x]) by {
        if a.contains(k) {
            let j = choose|j: int| 0 <= j < x && a[j] == k;
            assert(b[j] == k);
        }
        assert(b[x] == ids[x]);
        if b.contains(k) && k != ids[x] {
            let j = choose|j: int| 0 <= j < b.len() && b[j] == k;
            assert(a[j] == k);
        }
    }
    assert(!a.contains(ids[x])) by {
        if a.contains(ids[x]) {
            let j = choose|j: int| 0 <= j < x && a[j] == ids[x];
            assert(ids[j] == ids[x]);
        }
    }
    assert(only_ids(rows, b) =~= only_ids(rows, a).insert(ids[x], rows[ids[x]]));
}

/// The new index lists some of the rows; everything else is as it was.
pub open spec fn building(
    m: Map<u32, Seq<u8>>,
    mx: Map<u32, Seq<u8>>,
    v: TableView,
    ix: IndexView,
    rows: Map<u64, Seq<u8>>,
    listed: Map<u64, Seq<u8>>,
) -> bool {
    &&& store::stage(mx, with_index(v, ix), listed, rows, v.indexes.len() as int)
    &&& store::table_rows(mx, with_index(v, ix)) == store::table_rows(m, v)
    &&& store::only_table(m, mx, v, with_index(v, ix))
}

/// Lists one more row in the new index.
fn list_row(
    guard: &mut WriteGuard,
    root: u32,
    col_id: u16,
    col_type: Type,
    rowid: u64,
    bytes: &[u8],
    Ghost(m): Ghost<Map<u32, Seq<u8>>>,
    Ghost(v): Ghost<TableView>,
    Ghost(ix): Ghost<IndexView>,
    Ghost(rows): Ghost<Map<u64, Seq<u8>>>,
    Ghost(listed): Ghost<Map<u64, Seq<u8>>>,
) -> (r: Result<u32>)
    requires
        old(guard).wf(),
        ix.root_page == root,
        table::column_id(v.columns, table::leading(ix)) == Some(col_id),
        table::column_type(v.columns, table::leading(ix)) == Some(col_type),
    ensures
        r is Ok && file::tidy(old(guard).pages()) ==> file::tidy(final(guard).pages()),
        store::unpublished(*old(guard), *final(guard), old(guard).sealed()),
        final(guard).sealed() == old(guard).sealed(),
        building(m, old(guard).pages(), v, ix, rows, listed) && !listed.contains_key(rowid)
            && store::short_entry(store::entry_of(v.columns, ix, bytes@, rowid)) && old(
            guard,
        ).sealed() == v.encrypted ==> match r {
            Ok(p) => building(
                m,
                final(guard).pages(),
                v,
                IndexView { root_page: p, ..ix },
                rows,
                listed.insert(rowid, bytes@),
            ) && final(guard).total() <= old(guard).total() + 66,
            Err(e) => store::tree_error(e) && old(guard).total() + 66 > u32::MAX,
        },
{
    let ghost mx = guard.pages();
    let ghost w = with_index(v, ix);
    let ghost n = v.indexes.len() as int;
    let ghost next = listed.insert(rowid, bytes@);
    let ghost ok = building(m, mx, v, ix, rows, listed) && !listed.contains_key(rowid)
        && store::short_entry(store::entry_of(v.columns, ix, bytes@, rowid)) && guard.sealed()
        == v.encrypted;
    proof {
        if ok {
            store::not_loose(mx, w, n, guard.cap());
            assert(store::staged(mx, w, listed, rows, n, n));
            assert(w.indexes[n] == ix);
            reveal(store::index_matches);
            index_tree::index_never_deep(mx, root);
        }
    }
    let value: Value = match extract_column(bytes, col_id)? {
        Some(x) => x,
        None => Value::Null,
    };
    match encode_index_key(col_type, &value, rowid) {
        Some(key) => {
            proof {
                if ok {
                    store::key_is_new(mx, v.columns, ix, key@, rowid, bytes@, listed);
                }
            }
            let mut tree = IndexTreeWriter::new(root);
            let p: u32 = match tree.insert(guard, key.as_slice()) {
                Ok(p) => p,
                Err(e) => {
                    return Err(e);
                },
            };
            proof {
                if ok {
                    let m2 = guard.pages();
                    let ix2 = IndexView { root_page: p, ..ix };
                    let w2 = with_index(v, ix2);
                    assert(w2.indexes =~= w.indexes.update(n, ix2));
                    store::listing_changed(
                        mx,
                        m2,
                        v.columns,
                        ix,
                        ix2,
                        key@,
                        rowid,
                        bytes@,
                        listed,
                        next,
                    );
                    store::index_rewritten(mx, m2, w, w2, n, key@, Some(()), listed, rows, n);
                    assert forall|j: int| 0 <= j < w2.indexes.len() implies #[trigger] store::staged(
                        m2,
                        w2,
                        next,
                        rows,
                        n,
                        j,
                    ) by {
                        if j < n {
                            assert(store::staged(m2, w2, listed, rows, n, j));
                        }
                    }
                    store::only_table_then(m, mx, m2, v, w, w2);
                }
            }
            Ok(p)
        },
        None => {
            proof {
                if ok {
                    store::listing_same(mx, v.columns, ix, rowid, bytes@, listed, next);
                    assert forall|j: int| 0 <= j < w.indexes.len() implies #[trigger] store::staged(
                        mx,
                        w,
                        next,
                        rows,
                        n,
                        j,
                    ) by {
                        assert(store::staged(mx, w, listed, rows, n, j));
                    }
                    assert((IndexView { root_page: root, ..ix }) == ix);
                }
            }
            Ok(root)
        },
    }
}

/// The rows of a scan: their numbers differ and cover all rows.
proof fn scan_covers(m: Map<u32, Seq<u8>>, root: u32, found: Seq<(u64, Seq<u8>)>)
    requires
        store::rows_sound(m, root),
        found == btree::expanded(m, btree::all_cells(m, root)),
    ensures
        ids_of(found).no_duplicates(),
        forall|x: int|
            0 <= x < found.len() ==> store::rows_of(m, root).contains_key((#[trigger] found[x]).0)
                && store::rows_of(m, root)[found[x].0] == found[x].1,
        only_ids(store::rows_of(m, root), ids_of(found)) == store::rows_of(m, root),
{
    let cells = btree::all_cells(m, root);
    let rows = store::rows_of(m, root);
    let ids = ids_of(found);
    store::cells_sound(m, root);
    tree::all_sorted(btree::view_of(m), root);
    assert forall|x: int| 0 <= x < found.len() implies {
        &&& (#[trigger] found[x]) == (cells[x].0, rows[cells[x].0])
        &&& rows.contains_key(found[x].0)
    } by {
        assert(found[x] == btree::whole(m, cells[x].1));
    }
    assert forall|a: int, b: int| 0 <= a < b < ids.len() implies ids[a] != ids[b] by {
        assert(ids[a] == found[a].0 && ids[b] == found[b].0);
        assert(cells[a].0.before(cells[b].0));
    }
    assert forall|k: u64| rows.contains_key(k) implies #[trigger] ids.contains(k) by {
        store::cell_listed(m, root, k);
        let c = btree::cell_at(m, root, k)->0;
        let j = choose|j: int| 0 <= j < cells.len() && cells[j] == (k, c);
        assert(found[j].0 == k);
        assert(ids[j] == k);
    }
    assert(only_ids(rows, ids) =~= rows);
}

/// The numbers of rows that were found.
pub open spec fn ids_of(v: Seq<(u64, Seq<u8>)>) -> Seq<u64> {
    v.map_values(|p: (u64, Seq<u8>)| p.0)
}

/// What comes of building an index on a table in order.
pub open spec fn add_index_outcome(
    m: Map<u32, Seq<u8>>,
    m2: Map<u32, Seq<u8>>,
    v: TableView,
    v2: TableView,
    name: Seq<char>,
    column: Seq<char>,
    total: int,
    r: Result<()>,
) -> bool {
    match r {
        Ok(_) => {
            &&& v2 == with_index(v, index_on(name, column, v2.indexes.last().root_page))
            &&& engine::table_sound(m2, v2)
            &&& store::table_rows(m2, v2) == store::table_rows(m, v)
            &&& store::only_table(m, m2, v, v2)
        },
        Err(e) => {
            &&& store::tree_error(e)
            &&& v2 == v
            &&& total + 1 + 66 * store::table_rows(m, v).dom().len() > u32::MAX
        },
    }
}

/// The table with the finished index is in order.
proof fn index_finished(
    m: Map<u32, Seq<u8>>,
    m2: Map<u32, Seq<u8>>,
    v: TableView,
    ix: IndexView,
)
    requires
        engine::table_sound(m, v),
        building(m, m2, v, ix, store::table_rows(m, v), store::table_rows(m, v)),
        column_indexable(v, table::leading(ix), store::table_rows(m, v)),
        ix.columns.len() == 1,
    ensures
        engine::table_sound(m2, with_index(v, ix)),
{
    reveal(engine::table_sound);
    reveal(store::table_ok);
    let rows = store::table_rows(m, v);
    let w = with_index(v, ix);
    store::stage_same(m2, w, rows, v.indexes.len() as int, 0);
    assert forall|k: u64| #[trigger] rows.contains_key(k) implies store::indexable(w, rows[k], k) by {
        assert(store::indexable(v, rows[k], k));
        assert forall|i: int| 0 <= i < w.indexes.len() implies store::short_entry(
            #[trigger] store::entry_of(w.columns, w.indexes[i], rows[k], k),
        ) by {
            if i < v.indexes.len() {
                assert(w.indexes[i] == v.indexes[i]);
                assert(store::short_entry(store::entry_of(v.columns, v.indexes[i], rows[k], k)));
            } else {
                assert(w.indexes[i] == ix);
                entry_same(
                    v.columns,
                    ix,
                    index_on(Seq::empty(), table::leading(ix), 0),
                    rows[k],
                    k,
                );
            }
        }
    }
    engine::system_page_kept(m, m2, v, w);
}

/// Builds an index on a column of a table, and lists all its rows in it.
pub fn add_index(guard: &mut WriteGuard, meta: &mut TableMeta, index_name: &str, column: &str) -> (r:
    Result<()>)
    requires
        old(guard).wf(),
    ensures
        r is Ok && file::tidy(old(guard).pages()) ==> file::tidy(final(guard).pages()),
        store::unpublished(*old(guard), *final(guard), old(meta)@.encrypted),
        r is Err ==> final(meta)@ == old(meta)@,
        r is Ok ==> final(meta)@ == with_index(
            old(meta)@,
            index_on(index_name@, column@, final(meta)@.indexes.last().root_page),
        ),
        ({
            let v = old(meta)@;
            if table::place(table::index_names(v.indexes), index_name@) is Some {
                &&& r matches Err(BoogyError::IndexExists(s)) && s@ == index_name@
                &&& *final(guard) == *old(guard)
            } else if table::column_id(v.columns, column@) is None {
                &&& r matches Err(BoogyError::SchemaMismatch(_))
                &&& *final(guard) == *old(guard)
            } else {
                &&& engine::table_sound(old(guard).pages(), v) && column_indexable(
                    v,
                    column@,
                    store::table_rows(old(guard).pages(), v),
                ) ==> add_index_outcome(
                    old(guard).pages(),
                    final(guard).pages(),
                    v,
                    final(meta)@,
                    index_name@,
                    column@,
                    old(guard).total() as int,
                    r,
                )
                &&& engine::table_sound(old(guard).pages(), v) && !column_indexable(
                    v,
                    column@,
                    store::table_rows(old(guard).pages(), v),
                ) ==> (r matches Err(e) && column_unlistable(
                    v,
                    column@,
                    store::table_rows(old(guard).pages(), v),
                    e,
                )) && *final(guard) == *old(guard)
            }
        }),
{
    let ghost m = guard.pages();
    let ghost v = meta@;
    let ghost rows = store::table_rows(m, v);
    let ghost good = engine::table_sound(m, v) && column_indexable(v, column@, rows);
    if meta.index_position(index_name).is_some() {
        return Err(BoogyError::IndexExists(owned(index_name)));
    }
    proof {
        table::column_known(v.columns, column@);
    }
    let (col_id, col_type): (u16, Type) = match (meta.col_id(column), meta.col_type(column)) {
        (Some(c), Some(t)) => (c, t),
        _ => {
            return Err(BoogyError::SchemaMismatch(owned("column not found in table")));
        },
    };
    proof {
        if engine::table_sound(m, v) {
            reveal(engine::table_sound);
            reveal(store::table_ok);
            btree::never_deep(m, v.root_page);
            store::cells_sound(m, v.root_page);
        }
    }
    let tree = BTreeWriter::new(meta.root_page);
    let all: Vec<(u64, Vec<u8>)> = tree.scan_all_w(guard)?;
    let ghost found = btree::pairs(all@);
    let ghost ids = ids_of(found);
    let ghost n_rows = all@.len();
    proof {
        if engine::table_sound(m, v) {
            scan_covers(m, v.root_page, found);
            guard.pages_bounded();
            ids.unique_seq_to_set();
            assert(ids.to_set() =~= rows.dom()) by {
                assert forall|k: u64| ids.to_set().contains(k) == rows.dom().contains(k) by {
                    assert(only_ids(rows, ids).contains_key(k) == rows.contains_key(k));
                    if ids.contains(k) {
                        let x = choose|x: int| 0 <= x < ids.len() && ids[x] == k;
                        assert(found[x].0 == k);
                    }
                }
            }
            assert(n_rows == rows.dom().len());
        }
    }
    match check_column(&all, col_id, col_type, Ghost(v), Ghost(column@)) {
        Ok(_) => {
            proof {
                if engine::table_sound(m, v) {
                    assert forall|k: u64| #[trigger] rows.contains_key(k) implies store::short_entry(
                        store::entry_of(
                            v.columns,
                            index_on(Seq::empty(), column@, 0),
                            rows[k],
                            k,
                        ),
                    ) by {
                        assert(only_ids(rows, ids).contains_key(k));
                        let x = choose|x: int| 0 <= x < ids.len() && ids[x] == k;
                        assert(found[x].0 == k);
                    }
                    assert(good);
                }
            }
        },
        Err(e) => {
            proof {
                let x = choose|x: int|
                    0 <= x < all@.len() && store::entry_fault(
                        store::entry_of(
                            v.columns,
                            index_on(Seq::empty(), column@, 0),
                            (#[trigger] btree::pairs(all@)[x]).1,
                            btree::pairs(all@)[x].0,
                        ),
                        e,
                    );
                if engine::table_sound(m, v) {
                    assert(rows.contains_key(found[x].0));
                    assert(!good);
                }
            }
            return Err(e);
        },
    }
    guard.set_sealed(meta.encrypted);
    let mut root: u32 = match IndexTreeWriter::create(guard) {
        Ok(p) => p,
        Err(e) => {
            return Err(e);
        },
    };
    let ghost name = index_name@;
    proof {
        if good {
            index_started(m, guard.pages(), v, index_on(name, column@, root), rows);
            assert(only_ids(rows, ids.take(0)) =~= Map::empty());
        }
    }
    let n: usize = all.len();
    let mut x: usize = 0;
    while x < n
        invariant
            x <= n,
            n == all@.len(),
            found == btree::pairs(all@),
            ids == ids_of(found),
            store::unpublished(*old(guard), *guard, old(meta)@.encrypted),
            guard.sealed() == v.encrypted,
            file::tidy(old(guard).pages()) ==> file::tidy(guard.pages()),
            meta@ == v,
            v == old(meta)@,
            m == old(guard).pages(),
            name == index_name@,
            rows == store::table_rows(m, v),
            table::place(table::index_names(v.indexes), index_name@) is None,
            table::column_id(v.columns, column@) == Some(col_id),
            table::column_type(v.columns, column@) == Some(col_type),
            good == (engine::table_sound(m, v) && column_indexable(v, column@, rows)),
            engine::table_sound(m, v) ==> good,
            good ==> n == rows.dom().len() && guard.total() <= old(guard).total() + 1 + 66 * x,
            good ==> {
                &&& building(
                    m,
                    guard.pages(),
                    v,
                    index_on(name, column@, root),
                    rows,
                    only_ids(rows, ids.take(x as int)),
                )
                &&& ids.no_duplicates()
                &&& forall|i: int|
                    0 <= i < found.len() ==> rows.contains_key((#[trigger] found[i]).0)
                        && rows[found[i].0] == found[i].1
            },
        decreases n - x,
    {
        let ghost ix = index_on(name, column@, root);
        proof {
            if good {
                assert(found[x as int] == (all@[x as int].0, all@[x as int].1@));
                assert(ids[x as int] == found[x as int].0);
                only_ids_step(rows, ids, x as int);
                entry_same(
                    v.columns,
                    ix,
                    index_on(Seq::empty(), column@, 0),
                    rows[ids[x as int]],
                    ids[x as int],
                );
            }
        }
        root = list_row(
            guard,
            root,
            col_id,
            col_type,
            all[x].0,
            all[x].1.as_slice(),
            Ghost(m),
            Ghost(v),
            Ghost(ix),
            Ghost(rows),
            Ghost(only_ids(rows, ids.take(x as int))),
        )?;
        assert((IndexView { root_page: root, ..ix }) == index_on(name, column@, root));
        x += 1;
    }
    let mut columns: Vec<String> = Vec::new();
    columns.push(owned(column));
    let index_meta = IndexMeta { name: owned(index_name), columns, unique: false, root_page: root };
    assert(table::texts(columns@) =~= seq![column@]);
    meta.indexes.push(index_meta);
    proof {
        assert(meta@.indexes =~= v.indexes.push(index_on(name, column@, root)));
        assert(meta@ == with_index(v, index_on(name, column@, root)));
        assert(meta@.indexes.last() == index_on(name, column@, root));
        if good {
            assert(ids.take(n as int) =~= ids);
            index_finished(m, guard.pages(), v, index_on(name, column@, root));
        }
    }
    Ok(())
}

}
