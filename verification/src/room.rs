//! Trees always have room for another row.

use crate::btree;
use crate::btree_node;
use crate::btree_writer;
use crate::btree_writer::MAX_CELL;
use crate::engine;
use crate::index_tree;
use crate::session;
use crate::store;
use crate::table::{IndexView, TableView};
use crate::tree;
use crate::tree::Key;
use crate::value::{ColumnView, ValueView};
use vstd::prelude::*;

verus! {

/// The rows of a leaf and another cell that takes no more than half of a leaf fit into
/// one leaf or into two.
pub proof fn room_beside(rows: Seq<Seq<u8>>, pos: int, cell: Seq<u8>, cap: int)
    requires
        btree_node::rows_fit(rows, cap),
        0 <= pos <= rows.len(),
        2 * (cell.len() + 2) + 16 <= cap,
    ensures
        btree_node::rows_fit(rows.insert(pos, cell), cap) || exists|m: int| #[trigger]
            btree_node::parts_fit(rows.insert(pos, cell), m, cap),
{
    let new = rows.insert(pos, cell);
    let n = rows.len() as int;
    btree_node::total_len_insert(rows, pos, cell);
    btree_node::total_len_skip(rows, pos);
    btree_node::take_monotone(rows, pos, n);
    assert(rows.take(n) =~= rows);
    assert(new.take(pos) =~= rows.take(pos));
    assert(new.skip(pos + 1) =~= rows.skip(pos));
    btree_node::total_len_skip(new, pos);
    btree_node::total_len_skip(new, pos + 1);
    btree_node::total_len_nonneg(rows.take(pos));
    btree_node::total_len_nonneg(rows.skip(pos));
    if !btree_node::rows_fit(new, cap) {
        btree_node::total_len_insert(rows.take(pos), pos, cell);
        assert(new.take(pos + 1) =~= rows.take(pos).insert(pos, cell));
        if 2 * pos + btree_node::total_len(rows.take(pos)) <= (cap - 16) / 2 {
            if pos == n {
                assert(rows.take(pos) =~= rows);
            }
            assert(btree_node::parts_fit(new, pos + 1, cap));
        } else {
            if pos == 0 {
                assert(rows.take(0).len() == 0);
            }
            assert(btree_node::parts_fit(new, pos, cap));
        }
    }
}

/// A tree of rows has room for another cell.
pub proof fn rows_have_room(m: Map<u32, Seq<u8>>, root: u32, k: u64, len: int, cap: int)
    requires
        store::rows_sound(m, root),
        cap == 4092 || cap == 4068 && (forall|q: u32| #[trigger]
            store::row_page(m, root, q) ==> crate::page::trimmed(m[q])),
        btree::cell_at(m, root, k) is None,
        0 <= len <= MAX_CELL,
    ensures
        btree_writer::has_room(btree_writer::leaf_items(m, root, k), k, len, cap),
{
    let t = btree::view_of(m);
    let h = tree::height(t, root);
    assert(tree::is_root(t, root, h));
    assert(tree::in_range(None::<u64>, None, k));
    let b = tree::leaf_for_items(t, root, h, None, None, 0, k);
    let q = tree::leaf_for(t, root, h, k);
    let items = t[q]->items;
    let rows = btree_node::cells(m[q]);
    assert(items == btree_node::items_of(m[q]));
    assert(btree_writer::values(items) =~= rows);
    btree_node::trimmed_fits(m[q]);
    let j = tree::leaf_for_place(t, root, h, None, None, 0, k);
    tree::leaves_chained(t, root, h, None, None, 0);
    assert(tree::owns(t, root, h, tree::leaves(t, root, h)[j]));
    assert(store::row_page(m, root, q));
    let pos = place_among(items, b.0, b.1, k);
    room_beside(rows, pos, btree_writer::blank(len), cap);
    assert(btree_writer::is_place(items, k, pos));
}

/// A key that is not among ascending items has a place among them.
proof fn place_among<K: Key, V>(items: Seq<(K, V)>, lo: Option<K>, hi: Option<K>, k: K) -> (pos: int)
    requires
        tree::items_ok(items, lo, hi),
        tree::item_find(items, k) is None,
    ensures
        0 <= pos <= items.len(),
        forall|i: int| 0 <= i < pos ==> (#[trigger] items[i]).0.before(k),
        forall|i: int| pos <= i < items.len() ==> k.before((#[trigger] items[i]).0),
    decreases items.len(),
{
    if items.len() == 0 {
        0
    } else {
        let n = items.len() - 1;
        let last = items[n];
        let few = items.drop_last();
        tree::item_find_at(items, lo, hi, n);
        K::total(last.0, k);
        if last.0.before(k) {
            assert forall|i: int| 0 <= i < items.len() implies (#[trigger] items[i]).0.before(k) by {
                if i < n {
                    K::transitive(items[i].0, items[n].0, k);
                }
            }
            items.len() as int
        } else {
            assert forall|i: int| 0 <= i < few.len() implies (#[trigger] few[i]).0 != k by {
                assert(few[i] == items[i]);
                tree::item_find_at(items, lo, hi, i);
            }
            tree::item_find_none(few, k);
            assert forall|i: int, j: int| 0 <= i < j < few.len() implies (#[trigger] few[i]).0.before(
                (#[trigger] few[j]).0,
            ) by {
                assert(few[i] == items[i] && few[j] == items[j]);
            }
            assert forall|i: int| 0 <= i < few.len() implies tree::in_range(
                lo,
                hi,
                (#[trigger] few[i]).0,
            ) by {
                assert(few[i] == items[i]);
            }
            let pos = place_among(few, lo, hi, k);
            assert forall|i: int| 0 <= i < pos implies (#[trigger] items[i]).0.before(k) by {
                assert(few[i] == items[i]);
            }
            assert forall|i: int| pos <= i < items.len() implies k.before((#[trigger] items[i]).0) by {
                if i < few.len() {
                    assert(few[i] == items[i]);
                }
            }
            pos
        }
    }
}

/// An index takes what it is to list of a row with a new number.
pub proof fn index_takes(
    m: Map<u32, Seq<u8>>,
    columns: Seq<ColumnView>,
    ix: IndexView,
    rows: Map<u64, Seq<u8>>,
    bytes: Seq<u8>,
    k: u64,
)
    requires
        store::index_matches(m, columns, ix, rows),
        store::short_entry(store::entry_of(columns, ix, bytes, k)),
    ensures
        store::entry_of(columns, ix, bytes, k) matches Some(Some(key)) ==> store::open_for(
            m,
            ix.root_page,
            key,
        ),
{
    reveal(store::index_matches);
    index_tree::index_never_deep(m, ix.root_page);
}

/// The indexes of a table take what they are to list of a row.
pub proof fn stage_takes(
    m: Map<u32, Seq<u8>>,
    v: TableView,
    rows: Map<u64, Seq<u8>>,
    bytes: Seq<u8>,
    k: u64,
)
    requires
        store::stage(m, v, rows, rows, 0),
        store::indexable(v, bytes, k),
    ensures
        forall|j: int|
            0 <= j < v.indexes.len() ==> #[trigger] store::can_list(m, v, j, bytes, k),
{
    assert forall|j: int| 0 <= j < v.indexes.len() implies #[trigger] store::can_list(
        m,
        v,
        j,
        bytes,
        k,
    ) by {
        assert(store::staged(m, v, rows, rows, 0, j));
        assert(store::short_entry(store::entry_of(v.columns, v.indexes[j], bytes, k)));
        index_takes(m, v.columns, v.indexes[j], rows, bytes, k);
    }
}

/// The numbers from one on to another are free.
spec fn free_from(rows: Map<u64, Seq<u8>>, from: int, to: int) -> bool {
    forall|k: u64| from <= k < to ==> !(#[trigger] rows.contains_key(k))
}

/// With new rows, further numbers are still free.
proof fn with_rows_free(
    v: TableView,
    rows: Map<u64, Seq<u8>>,
    datas: Seq<Seq<(Seq<char>, ValueView)>>,
    x: int,
    max: u32,
    total: int,
)
    requires
        session::many_owed(rows, v, datas, max, total),
        v.next_rowid + datas.len() <= u64::MAX,
        0 <= x <= datas.len(),
    ensures
        free_from(
            session::with_rows(v, rows, v.next_rowid, datas.take(x)),
            v.next_rowid + x,
            v.next_rowid + datas.len(),
        ),
    decreases x,
{
    if x > 0 {
        with_rows_free(v, rows, datas, x - 1, max, total);
        assert(datas.take(x).drop_last() =~= datas.take(x - 1));
    } else {
        assert(datas.take(0).len() == 0);
        assert forall|k: u64| v.next_rowid <= k < v.next_rowid + datas.len() implies !(
        #[trigger] rows.contains_key(k)) by {
            let d = datas[k - v.next_rowid];
        }
    }
}

/// A longer row takes no fewer pages.
pub proof fn pages_grow(a: int, b: int)
    requires
        0 <= a <= b,
    ensures
        0 <= btree_writer::pages_for(a) <= btree_writer::pages_for(b),
{
}

/// The pages for one row more.
pub proof fn one_step_more(v: TableView, max: u32, x: int)
    ensures
        store::row_pages(v, max) * (x + 1) == store::row_pages(v, max) * x + store::row_pages(v, max),
        store::row_pages(v, max) >= 66,
{
    let c = store::row_pages(v, max);
    pages_grow(0, max as int);
    assert(c * (x + 1) == c * x + c) by (nonlinear_arith);
}

/// The pages for some of many rows.
pub proof fn some_steps(v: TableView, max: u32, x: int, n: int)
    requires
        0 <= x <= n,
    ensures
        0 <= store::row_pages(v, max) * x <= store::row_pages(v, max) * n,
{
    let c = store::row_pages(v, max);
    pages_grow(0, max as int);
    assert(0 <= c * x <= c * n) by (nonlinear_arith)
        requires
            c >= 0,
            0 <= x <= n,
    ;
}

/// After some of many rows were stored, the next one can be stored too.
pub proof fn next_row_owed(
    m: Map<u32, Seq<u8>>,
    w: TableView,
    v: TableView,
    rows: Map<u64, Seq<u8>>,
    datas: Seq<Seq<(Seq<char>, ValueView)>>,
    x: int,
    max: u32,
    first: int,
    total: int,
)
    requires
        engine::same_table(v, w),
        session::many_owed(rows, v, datas, max, first),
        v.next_rowid + datas.len() <= u64::MAX,
        0 <= x < datas.len(),
        engine::new_row(v, (v.next_rowid + x) as u64, datas[x]).len() <= max,
        total <= first + store::row_pages(v, max) * x,
        store::table_rows(m, w) == session::with_rows(v, rows, v.next_rowid, datas.take(x)),
    ensures
        store::insert_owed(
            m,
            w,
            (v.next_rowid + x) as u64,
            engine::new_row(v, (v.next_rowid + x) as u64, datas[x]),
            total,
        ),
        store::most_pages(
            w,
            engine::new_row(v, (v.next_rowid + x) as u64, datas[x]).len() as int,
        ) <= store::row_pages(v, max),
{
    let k = (v.next_rowid + x) as u64;
    let len = engine::new_row(v, k, datas[x]).len() as int;
    with_rows_free(v, rows, datas, x, max, first);
    pages_grow(len, max as int);
    one_step_more(v, max, x);
    some_steps(v, max, x + 1, datas.len() as int);
    assert(!store::table_rows(m, w).contains_key(k));
}

}
