//! Deleting and updating all rows of a table that match some filters.

use crate::btree;
use crate::btree_bulk;
use crate::btree_node;
use crate::btree_writer;
use crate::btree_writer::BTreeWriter;
use crate::engine;
use crate::engine::{merge_row, pick_columns};
use crate::error::{BoogyError, Result};
use crate::file;
use crate::file::WriteGuard;
use crate::filter::{Filter, FilterView};
use crate::query;
use crate::query::row_passes;
use crate::room;
use crate::row;
use crate::store;
use crate::store::{index_update_row, replace_in_tree};
use crate::table::{TableMeta, TableView};
use crate::tree;
use crate::tree::Key;
use crate::value::{Value, ValueView};
use vstd::prelude::*;

verus! {

/// What the filters decide on the bytes of a row.
pub open spec fn passing(v: TableView, fs: Seq<FilterView>) -> spec_fn(Seq<u8>) -> bool {
    |b: Seq<u8>| query::passes(v.columns, fs, b)
}

/// The filters accept the row under a number.
pub open spec fn hit(m: Map<u32, Seq<u8>>, v: TableView, fs: Seq<FilterView>, k: u64) -> bool {
    let rows = store::table_rows(m, v);
    rows.contains_key(k) && query::passes(v.columns, fs, rows[k])
}

/// The rows that the filters do not accept.
pub open spec fn spared_rows(m: Map<u32, Seq<u8>>, v: TableView, fs: Seq<FilterView>) -> Map<
    u64,
    Seq<u8>,
> {
    let rows = store::table_rows(m, v);
    Map::new(|k: u64| rows.contains_key(k) && !hit(m, v, fs, k), |k: u64| rows[k])
}

/// Rows without those with some numbers.
pub open spec fn without(rows: Map<u64, Seq<u8>>, ids: Seq<u64>) -> Map<u64, Seq<u8>> {
    Map::new(|k: u64| rows.contains_key(k) && !ids.contains(k), |k: u64| rows[k])
}

/// The numbers in a list of rows.
pub open spec fn ids_in(v: Seq<(u64, Seq<u8>)>) -> Seq<u64> {
    v.map_values(|p: (u64, Seq<u8>)| p.0)
}

pub proof fn without_step(rows: Map<u64, Seq<u8>>, ids: Seq<u64>, x: int)
    requires
        0 <= x < ids.len(),
        ids.no_duplicates(),
        rows.contains_key(ids[x]),
    ensures
        without(rows, ids.take(x + 1)) == without(rows, ids.take(x)).remove(ids[x]),
        without(rows, ids.take(x)).contains_key(ids[x]),
        without(rows, ids.take(x))[ids[x]] == rows[ids[x]],
{
    let a = ids.take(x);
    let b = ids.take(x + 1);
    assert(b =~= a.push(ids[x]));
    assert(!a.contains(ids[x])) by {
        if a.contains(ids[x]) {
            let j = choose|j: int| 0 <= j < x && a[j] == ids[x];
            assert(ids[j] == ids[x]);
        }
    }
    assert forall|k: u64| #[trigger] b.contains(k) == (a.contains(k) || k == ids[x]) by {
        if a.contains(k) {
            let j = choose|j: int| 0 <= j < x && a[j] == k;
            assert(b[j] == k);
        }
        assert(b[x] == ids[x]);
        if b.contains(k) && k != ids[x] {
            let j = choose|j: int| 0 <= j < b.len() && b[j] == k;
            assert(a[j] == k);
        }
    }
    assert(without(rows, b) =~= without(rows, a).remove(ids[x]));
}

pub proof fn without_none(rows: Map<u64, Seq<u8>>, ids: Seq<u64>)
    ensures
        without(rows, ids.take(0)) == rows,
{
    assert(without(rows, ids.take(0)) =~= rows);
}

proof fn without_count(rows: Map<u64, Seq<u8>>, ids: Seq<u64>, x: int)
    requires
        0 <= x <= ids.len(),
        ids.no_duplicates(),
        forall|i: int| 0 <= i < ids.len() ==> rows.contains_key(#[trigger] ids[i]),
        rows.dom().finite(),
    ensures
        without(rows, ids.take(x)).dom().finite(),
        without(rows, ids.take(x)).dom().len() == rows.dom().len() - x,
    decreases x,
{
    if x == 0 {
        without_none(rows, ids);
    } else {
        without_count(rows, ids, x - 1);
        without_step(rows, ids, x - 1);
    }
}

/// The cells that are deleted, each with its row.
spec fn victims(m: Map<u32, Seq<u8>>, v: TableView, fs: Seq<FilterView>) -> Seq<(u64, Seq<u8>)> {
    btree::all_cells(m, v.root_page).filter(btree_bulk::chosen_fn(m, passing(v, fs)))
}

/// What deleting the cells that match makes of the rows.
proof fn rows_dropped(
    m: Map<u32, Seq<u8>>,
    m1: Map<u32, Seq<u8>>,
    v: TableView,
    fs: Seq<FilterView>,
    rows: Map<u64, Seq<u8>>,
    deleted: Seq<(u64, Seq<u8>)>,
)
    requires
        store::stage(m, v, rows, rows, 0),
        rows == store::table_rows(m, v),
        btree::is_tree(m1, v.root_page),
        btree_writer::only_tree(m, m1, v.root_page, v.root_page),
        btree::all_cells(m1, v.root_page) == btree::all_cells(m, v.root_page).filter(
            btree_bulk::spared_fn(m, passing(v, fs)),
        ),
        deleted == btree::expanded(m, victims(m, v, fs)),
        v.encrypted ==> crate::file::keeps_trim(m, m1),
    ensures
        store::stage(m1, v, rows, rows, 0),
        store::only_table(m, m1, v, v),
        store::indexes_open(m, m1, v, v, -1),
        store::table_rows(m1, v) == spared_rows(m, v, fs),
        without(rows, ids_in(deleted)) == spared_rows(m, v, fs),
        ids_in(deleted).no_duplicates(),
        forall|x: int|
            0 <= x < deleted.len() ==> rows.contains_key((#[trigger] deleted[x]).0)
                && rows[deleted[x].0] == deleted[x].1,
{
    let root = v.root_page;
    let g = passing(v, fs);
    let cells = btree::all_cells(m, root);
    let chosen = btree_bulk::chosen_fn(m, g);
    let spared = btree_bulk::spared_fn(m, g);
    let f = victims(m, v, fs);
    tree::all_sorted(btree::view_of(m), root);
    tree::all_sorted(btree::view_of(m1), root);
    store::cells_sound(m, root);
    store::overflow_stays(m, m1, root, root);
    assert forall|k: u64| #[trigger] btree::cell_at(m1, root, k) == match btree::cell_at(m, root, k) {
        Some(c) => if hit(m, v, fs, k) {
            None
        } else {
            Some(c)
        },
        None => None,
    } by {
        store::filtered_find(cells, spared, k);
        assert(btree::cell_at(m, root, k) == tree::item_find(cells, k));
        assert(btree::cell_at(m1, root, k) == tree::item_find(cells.filter(spared), k));
        assert(store::good_at(m, root, k));
    }
    assert forall|k: u64| #[trigger] store::good_at(m1, root, k) by {
        assert(store::good_at(m, root, k));
        if btree::cell_at(m, root, k) is Some {
            store::good_cell_kept(m, m1, k, btree::cell_at(m, root, k)->0);
        }
    }
    if v.encrypted {
        store::cells_trim_step(m, m1, v, root);
    }
    store::rows_rewritten(m, m1, v, v, rows, rows, 0);
    assert forall|k: u64| #[trigger] store::table_rows(m1, v).contains_key(k) == spared_rows(
        m,
        v,
        fs,
    ).contains_key(k) && (store::table_rows(m1, v).contains_key(k) ==> store::table_rows(m1, v)[k]
        == spared_rows(m, v, fs)[k]) by {
        assert(store::good_at(m, root, k));
        if btree::cell_at(m, root, k) is Some {
            store::good_cell_kept(m, m1, k, btree::cell_at(m, root, k)->0);
        }
    }
    assert(store::table_rows(m1, v) =~= spared_rows(m, v, fs));
    store::filtered_find(cells, chosen, 0);
    let ids = ids_in(deleted);
    assert forall|x: int| 0 <= x < deleted.len() implies {
        let d = #[trigger] deleted[x];
        &&& d == btree::whole(m, f[x].1)
        &&& d.0 == f[x].0
        &&& rows.contains_key(d.0)
        &&& rows[d.0] == d.1
        &&& hit(m, v, fs, d.0)
    } by {
        assert(chosen(f[x]));
        assert(cells.contains(f[x]));
        let i = choose|i: int| 0 <= i < cells.len() && cells[i] == f[x];
        assert(btree::cell_at(m, root, cells[i].0) == Some(cells[i].1));
    }
    assert forall|a: int, b: int| 0 <= a < b < ids.len() implies ids[a] != ids[b] by {
        assert(ids[a] == deleted[a].0 && ids[b] == deleted[b].0);
        assert(f[a].0.before(f[b].0));
    }
    assert forall|k: u64| rows.contains_key(k) implies (#[trigger] ids.contains(k)) == hit(
        m,
        v,
        fs,
        k,
    ) by {
        if ids.contains(k) {
            let x = choose|x: int| 0 <= x < ids.len() && ids[x] == k;
            assert(deleted[x].0 == k);
        }
        if hit(m, v, fs, k) {
            let c = btree::cell_at(m, root, k)->0;
            assert(store::good_at(m, root, k));
            store::filtered_find(cells, chosen, k);
            assert(btree::cell_at(m, root, k) == tree::item_find(cells, k));
            assert(chosen((k, c)));
            assert(tree::item_find(f, k) == Some(c));
            let i = choose|i: int| 0 <= i < f.len() && (#[trigger] f[i]).0 == k;
            assert(deleted[i].0 == k);
            assert(ids[i] == k);
        }
    }
    assert(without(rows, ids) =~= spared_rows(m, v, fs));
}

/// What comes of deleting the rows of a table in order that match.
pub open spec fn drop_where_outcome(
    m: Map<u32, Seq<u8>>,
    m2: Map<u32, Seq<u8>>,
    v: TableView,
    v2: TableView,
    fs: Seq<FilterView>,
    r: Result<u64>,
) -> bool {
    let rows = store::table_rows(m, v);
    match r {
        Ok(n) => {
            &&& engine::table_sound(m2, v2)
            &&& store::table_rows(m2, v2) == spared_rows(m, v, fs)
            &&& store::only_table(m, m2, v, v2)
            &&& n == rows.dom().len() - spared_rows(m, v, fs).dom().len()
            &&& v2.row_count == v.row_count - n
        },
        Err(e) => {
            &&& store::tree_error(e)
            &&& !store::workable(m, v)
        },
    }
}

/// Deletes the rows of a table that match, and returns how many.
pub fn drop_where(guard: &mut WriteGuard, meta: &mut TableMeta, filters: &[Filter]) -> (r: Result<
    u64,
>)
    requires
        old(guard).wf(),
    ensures
        r is Ok && file::tidy(old(guard).pages()) ==> file::tidy(final(guard).pages()),
        store::unpublished(*old(guard), *final(guard), old(meta)@.encrypted),
        engine::same_table(old(meta)@, final(meta)@),
        final(meta)@.next_rowid == old(meta)@.next_rowid,
        engine::table_sound(old(guard).pages(), old(meta)@) ==> drop_where_outcome(
            old(guard).pages(),
            final(guard).pages(),
            old(meta)@,
            final(meta)@,
            query::filters_view(filters@),
            r,
        ),
{
    let ghost m = guard.pages();
    let ghost v = meta@;
    let ghost fs = query::filters_view(filters@);
    let ghost rows = store::table_rows(m, v);
    let ghost good = engine::table_sound(m, v);
    proof {
        if good {
            reveal(engine::table_sound);
            reveal(store::table_ok);
            store::cells_sound(m, v.root_page);
        }
    }
    let fixed = meta.clone();
    let pred = |data: &[u8]| -> (b: bool)
        ensures
            b == query::passes(fixed@.columns, query::filters_view(filters@), data@),
        { row_passes(&fixed, filters, data) };
    proof {
        assert(btree_bulk::decides(pred, passing(v, fs)));
    }
    guard.set_sealed(meta.encrypted);
    let tree = BTreeWriter::new(meta.root_page);
    let deleted: Vec<(u64, Vec<u8>)> = tree.delete_matching(guard, pred)?;
    let ghost m1 = guard.pages();
    let ghost gone = btree::pairs(deleted@);
    let ghost ids = ids_in(gone);
    proof {
        if good {
            rows_dropped(m, m1, v, fs, rows, gone);
            without_none(rows, ids);
            if store::workable(m, v) {
                assert forall|j: int| 0 <= j < v.indexes.len() implies #[trigger] store::shallow(
                    m1,
                    v,
                    j,
                ) by {
                    assert(store::index_open(m, m1, v, v, j));
                    assert(store::shallow(m, v, j));
                }
            }
        }
    }
    let n: usize = deleted.len();
    if meta.indexes.len() > 0 {
        let mut x: usize = 0;
        while x < n
            invariant
                x <= n,
                n == deleted@.len(),
                gone == btree::pairs(deleted@),
                ids == ids_in(gone),
                store::unpublished(*old(guard), *guard, old(meta)@.encrypted),
                file::tidy(old(guard).pages()) ==> file::tidy(guard.pages()),
                store::rerooted(v, meta@),
                v == old(meta)@,
                good ==> {
                    &&& ids.no_duplicates()
                    &&& store::stage(
                        guard.pages(),
                        meta@,
                        without(rows, ids.take(x as int)),
                        without(rows, ids.take(x as int)),
                        0,
                    )
                    &&& store::table_rows(guard.pages(), meta@) == spared_rows(m, v, fs)
                    &&& store::only_table(m, guard.pages(), v, meta@)
                    &&& store::all_indexable(v, rows)
                    &&& forall|i: int|
                        0 <= i < gone.len() ==> rows.contains_key((#[trigger] gone[i]).0)
                            && rows[gone[i].0] == gone[i].1
                },
                good && store::workable(m, v) ==> forall|j: int|
                    0 <= j < v.indexes.len() ==> #[trigger] store::shallow(guard.pages(), meta@, j),
                old(guard).wf(),
                m == old(guard).pages(),
                v.indexes.len() > 0,
                fs == query::filters_view(filters@),
                good == engine::table_sound(m, v),
            decreases n - x,
        {
            let ghost mx = guard.pages();
            let ghost vx = meta@;
            let ghost before = without(rows, ids.take(x as int));
            let ghost after = without(rows, ids.take(x + 1));
            proof {
                if good {
                    assert(gone[x as int] == (deleted@[x as int].0, deleted@[x as int].1@));
                    assert(ids[x as int] == gone[x as int].0);
                    without_step(rows, ids, x as int);
                    store::stage_start(mx, vx, before, before, after);
                    assert(store::indexable(v, rows[ids[x as int]], ids[x as int]));
                    store::rerooted_indexable(v, vx, rows[ids[x as int]], ids[x as int]);
                }
            }
            index_update_row(
                guard,
                meta,
                deleted[x].0,
                deleted[x].1.as_slice(),
                true,
                Ghost(before),
                Ghost(after),
            )?;
            proof {
                if good {
                    store::only_table_then(m, mx, guard.pages(), v, vx, meta@);
                }
            }
            x += 1;
        }
        assert(ids.take(n as int) =~= ids);
    }
    let count: u64 = n as u64;
    let ghost mb = guard.pages();
    let ghost vb = meta@;
    if meta.row_count >= count {
        meta.row_count = meta.row_count - count;
    }
    proof {
        if good {
            drop_where_done(m, mb, v, vb, meta@, fs, gone);
        }
    }
    Ok(count)
}

proof fn drop_where_done(
    m: Map<u32, Seq<u8>>,
    m2: Map<u32, Seq<u8>>,
    v: TableView,
    vb: TableView,
    v2: TableView,
    fs: Seq<FilterView>,
    gone: Seq<(u64, Seq<u8>)>,
)
    requires
        engine::table_sound(m, v),
        ids_in(gone).no_duplicates(),
        without(store::table_rows(m, v), ids_in(gone)) == spared_rows(m, v, fs),
        forall|i: int|
            0 <= i < gone.len() ==> store::table_rows(m, v).contains_key((#[trigger] gone[i]).0),
        vb.indexes.len() > 0 ==> store::stage(
            m2,
            vb,
            spared_rows(m, v, fs),
            spared_rows(m, v, fs),
            0,
        ),
        vb.indexes.len() == 0 ==> store::stage(
            m2,
            vb,
            store::table_rows(m, v),
            store::table_rows(m, v),
            0,
        ),
        store::table_rows(m2, vb) == spared_rows(m, v, fs),
        store::only_table(m, m2, v, vb),
        store::rerooted(v, vb),
        v2 == (TableView { row_count: v2.row_count, ..vb }),
        v.row_count >= gone.len() ==> v2.row_count == v.row_count - gone.len(),
    ensures
        engine::table_sound(m2, v2),
        store::table_rows(m2, v2) == spared_rows(m, v, fs),
        store::only_table(m, m2, v, v2),
        gone.len() == store::table_rows(m, v).dom().len() - spared_rows(m, v, fs).dom().len(),
        v2.row_count == v.row_count - gone.len(),
{
    reveal(engine::table_sound);
    reveal(store::table_ok);
    let rows = store::table_rows(m, v);
    let left = spared_rows(m, v, fs);
    let ids = ids_in(gone);
    assert forall|i: int| 0 <= i < ids.len() implies rows.contains_key(#[trigger] ids[i]) by {
        assert(ids[i] == gone[i].0);
    }
    assert(ids.take(ids.len() as int) =~= ids);
    without_count(rows, ids, ids.len() as int);
    if vb.indexes.len() == 0 {
        assert(store::stage(m2, vb, left, left, 0));
    }
    assert forall|k: u64| #[trigger] left.contains_key(k) implies store::indexable(vb, left[k], k) by {
        store::rerooted_indexable(v, vb, left[k], k);
        assert(rows.contains_key(k));
    }
    engine::trees_decide(m2, vb, v2);
    engine::only_table_trees(m, m2, v, vb, v, v2);
    engine::system_page_kept(m, m2, v, v2);
}

// ---------------------------------------------------------------------------
// Updating
// ---------------------------------------------------------------------------

/// A row encoded anew with columns set; a row that cannot be decoded stays as it is.
#[verifier::opaque]
pub open spec fn patched(d: Seq<u8>, ps: Seq<(u16, ValueView)>) -> Seq<u8> {
    if row::decodable(d) {
        row::row_bytes(btree_node::id_of(d), engine::merged(row::decoded_cols(d), ps))
    } else {
        d
    }
}

/// A patched row is not too long, and its columns can be reached.
pub open spec fn patch_fits(d: Seq<u8>, ps: Seq<(u16, ValueView)>, max: u32) -> bool {
    &&& patched(d, ps).len() <= max
    &&& row::decodable(d) ==> engine::merge_fits(d, ps)
}

/// A patched row keeps its number.
pub proof fn patched_keeps_id(d: Seq<u8>, ps: Seq<(u16, ValueView)>)
    requires
        d.len() >= 8,
    ensures
        patched(d, ps).len() >= 8,
        btree_node::id_of(patched(d, ps)) == btree_node::id_of(d),
{
    reveal(patched);
    if row::decodable(d) {
        engine::row_starts(btree_node::id_of(d), engine::merged(row::decoded_cols(d), ps));
    }
}

/// Sets columns of a row.
pub fn patch_columns(data: &[u8], sets: &[(u16, &Value)]) -> (r: Vec<u8>)
    requires
        data@.len() >= 8,
    ensures
        r@ == patched(data@, row::cols_view(sets@)),
        r@.len() >= 8,
        btree_node::id_of(r@) == btree_node::id_of(data@),
{
    proof {
        reveal(patched);
        patched_keeps_id(data@, row::cols_view(sets@));
    }
    let id: u64 = match row::extract_id(data) {
        Ok(id) => id,
        Err(_) => 0,
    };
    match merge_row(id, data, sets) {
        Ok(v) => v.0,
        Err(_) => crate::bytes::copy_slice(data),
    }
}

/// What an update makes of the bytes of a row.
pub open spec fn patching(ps: Seq<(u16, ValueView)>) -> spec_fn(Seq<u8>) -> Seq<u8> {
    |d: Seq<u8>| patched(d, ps)
}

/// The cells of the leaves, each with a mark: whether the leaf has room for its
/// updated cells.
spec fn tagged(
    m: Map<u32, Seq<u8>>,
    ls: Seq<u32>,
    g: spec_fn(Seq<u8>) -> bool,
    u: spec_fn(Seq<u8>) -> Seq<u8>,
    cap: int,
) -> Seq<((u64, Seq<u8>), bool)>
    decreases ls.len(),
{
    if ls.len() == 0 {
        Seq::empty()
    } else {
        let items = btree_node::items_of(m[ls.last()]);
        let fits = btree_bulk::renewal_fits(m, g, u, cap, items);
        tagged(m, ls.drop_last(), g, u, cap) + items.map_values(|it: (u64, Seq<u8>)| (it, fits))
    }
}

spec fn untag(z: Seq<((u64, Seq<u8>), bool)>) -> Seq<(u64, Seq<u8>)> {
    z.map_values(|p: ((u64, Seq<u8>), bool)| p.0)
}

spec fn renew_tagged(
    m: Map<u32, Seq<u8>>,
    g: spec_fn(Seq<u8>) -> bool,
    u: spec_fn(Seq<u8>) -> Seq<u8>,
    z: Seq<((u64, Seq<u8>), bool)>,
) -> Seq<(u64, Seq<u8>)> {
    z.map_values(
        |p: ((u64, Seq<u8>), bool)|
            if p.1 && btree_bulk::chosen(m, g, p.0) {
                (p.0.0, btree_bulk::renew(m, u, p.0))
            } else {
                p.0
            },
    )
}

spec fn tag_is(
    m: Map<u32, Seq<u8>>,
    g: spec_fn(Seq<u8>) -> bool,
    fits: bool,
) -> spec_fn(((u64, Seq<u8>), bool)) -> bool {
    |p: ((u64, Seq<u8>), bool)| p.1 == fits && btree_bulk::chosen(m, g, p.0)
}

proof fn filter_tagged(
    m: Map<u32, Seq<u8>>,
    g: spec_fn(Seq<u8>) -> bool,
    items: Seq<(u64, Seq<u8>)>,
    fits: bool,
    want: bool,
)
    ensures
        untag(
            items.map_values(|it: (u64, Seq<u8>)| (it, fits)).filter(tag_is(m, g, want)),
        ) == if fits == want {
            items.filter(btree_bulk::chosen_fn(m, g))
        } else {
            Seq::empty()
        },
    decreases items.len(),
{
    reveal(Seq::filter);
    let z = items.map_values(|it: (u64, Seq<u8>)| (it, fits));
    let p = tag_is(m, g, want);
    if items.len() == 0 {
        assert(untag(z.filter(p)) =~= Seq::empty());
        assert(items.filter(btree_bulk::chosen_fn(m, g)) =~= Seq::empty());
    } else {
        let rest = items.drop_last();
        filter_tagged(m, g, rest, fits, want);
        assert(z.drop_last() =~= rest.map_values(|it: (u64, Seq<u8>)| (it, fits)));
        assert(z.last() == (items.last(), fits));
        let f = z.drop_last().filter(p);
        if p(z.last()) {
            assert(untag(f.push(z.last())) =~= untag(f).push(items.last()));
        }
    }
}

/// What the update of a tree does, in terms of the marked cells.
proof fn tagged_spec(
    m: Map<u32, Seq<u8>>,
    ls: Seq<u32>,
    g: spec_fn(Seq<u8>) -> bool,
    u: spec_fn(Seq<u8>) -> Seq<u8>,
    cap: int,
)
    requires
        forall|i: int|
            0 <= i < ls.len() ==> btree::view_of(m)[#[trigger] ls[i]]->items
                == btree_node::items_of(m[ls[i]]),
    ensures
        untag(tagged(m, ls, g, u, cap)) == tree::leaf_rows(btree::view_of(m), ls),
        renew_tagged(m, g, u, tagged(m, ls, g, u, cap)) == btree_bulk::renewed_in_place(m, ls, g, u, cap),
        forall|fits: bool| #[trigger]
            btree_bulk::changes_in(m, ls, g, u, cap, fits) == btree_bulk::changes(
                m,
                u,
                untag(tagged(m, ls, g, u, cap).filter(tag_is(m, g, fits))),
            ),
        forall|i: int|
            0 <= i < tagged(m, ls, g, u, cap).len() ==> {
                let p = #[trigger] tagged(m, ls, g, u, cap)[i];
                p.1 && btree_bulk::chosen(m, g, p.0) ==> btree_writer::own_cell(
                    btree_bulk::renew(m, u, p.0),
                )
            },
    decreases ls.len(),
{
    let t = btree::view_of(m);
    let z = tagged(m, ls, g, u, cap);
    if ls.len() == 0 {
        assert(untag(z) =~= tree::leaf_rows(t, ls));
        assert(renew_tagged(m, g, u, z) =~= btree_bulk::renewed_in_place(m, ls, g, u, cap));
        assert forall|fits: bool| #[trigger] btree_bulk::changes_in(m, ls, g, u, cap, fits)
            == btree_bulk::changes(m, u, untag(z.filter(tag_is(m, g, fits)))) by {
            reveal(Seq::filter);
            assert(btree_bulk::changes(m, u, untag(z.filter(tag_is(m, g, fits)))) =~= Seq::empty());
        }
    } else {
        let rest = ls.drop_last();
        let items = btree_node::items_of(m[ls.last()]);
        let fits = btree_bulk::renewal_fits(m, g, u, cap, items);
        let a = tagged(m, rest, g, u, cap);
        let b = items.map_values(|it: (u64, Seq<u8>)| (it, fits));
        assert forall|i: int| 0 <= i < rest.len() implies t[#[trigger] rest[i]]->items
            == btree_node::items_of(m[rest[i]]) by {
            assert(rest[i] == ls[i]);
        }
        assert(t[ls[ls.len() - 1]]->items == items);
        tagged_spec(m, rest, g, u, cap);
        assert(untag(z) =~= untag(a) + items);
        assert(renew_tagged(m, g, u, b) =~= if fits {
            btree_bulk::renewed(m, g, u, items)
        } else {
            items
        });
        assert(renew_tagged(m, g, u, z) =~= renew_tagged(m, g, u, a) + renew_tagged(m, g, u, b));
        assert forall|want: bool| #[trigger] btree_bulk::changes_in(m, ls, g, u, cap, want)
            == btree_bulk::changes(m, u, untag(z.filter(tag_is(m, g, want)))) by {
            let p = tag_is(m, g, want);
            Seq::filter_distributes_over_add(a, b, p);
            filter_tagged(m, g, items, fits, want);
            assert(untag(a.filter(p) + b.filter(p)) =~= untag(a.filter(p)) + untag(b.filter(p)));
            assert(btree_bulk::changes_in(m, rest, g, u, cap, want) == btree_bulk::changes(
                m,
                u,
                untag(a.filter(p)),
            ));
            assert(btree_bulk::changes(m, u, untag(a.filter(p)) + untag(b.filter(p)))
                =~= btree_bulk::changes(m, u, untag(a.filter(p))) + btree_bulk::changes(
                m,
                u,
                untag(b.filter(p)),
            ));
            if fits != want {
                assert(btree_bulk::changes(m, u, Seq::<(u64, Seq<u8>)>::empty()) =~= Seq::empty());
            }
        }
        assert forall|i: int| 0 <= i < z.len() implies {
            let p = #[trigger] z[i];
            p.1 && btree_bulk::chosen(m, g, p.0) ==> btree_writer::own_cell(
                btree_bulk::renew(m, u, p.0),
            )
        } by {
            if i < a.len() {
                assert(z[i] == a[i]);
            } else {
                let j = i - a.len();
                assert(z[i] == (items[j], fits));
                if fits && btree_bulk::chosen(m, g, items[j]) {
                    let chosen = btree_bulk::chosen_fn(m, g);
                    let f = items.filter(chosen);
                    items.lemma_filter_contains(chosen, j);
                    let x = choose|x: int| 0 <= x < f.len() && f[x] == items[j];
                    assert(btree_bulk::changes(m, u, f)[x].2 == btree_bulk::renew(m, u, items[j]));
                }
            }
        }
    }
}

/// Rows with those under some numbers patched.
pub open spec fn swapped(
    rows: Map<u64, Seq<u8>>,
    ids: Seq<u64>,
    ps: Seq<(u16, ValueView)>,
) -> Map<u64, Seq<u8>> {
    Map::new(
        |k: u64| rows.contains_key(k),
        |k: u64|
            if ids.contains(k) {
                patched(rows[k], ps)
            } else {
                rows[k]
            },
    )
}

/// The numbers in a list of changes.
pub open spec fn changed_ids(v: Seq<(u64, Seq<u8>, Seq<u8>)>) -> Seq<u64> {
    v.map_values(|c: (u64, Seq<u8>, Seq<u8>)| c.0)
}

/// Each change is of a row, to what patching makes of it.
pub open spec fn changes_right(
    rows: Map<u64, Seq<u8>>,
    ps: Seq<(u16, ValueView)>,
    v: Seq<(u64, Seq<u8>, Seq<u8>)>,
) -> bool {
    forall|x: int|
        0 <= x < v.len() ==> rows.contains_key((#[trigger] v[x]).0) && v[x].1 == rows[v[x].0]
            && v[x].2 == patched(rows[v[x].0], ps)
}

proof fn filter_ids(
    z: Seq<((u64, Seq<u8>), bool)>,
    p: spec_fn(((u64, Seq<u8>), bool)) -> bool,
)
    requires
        tree::items_ok(untag(z), None, None),
    ensures
        forall|i: int|
            0 <= i < z.filter(p).len() ==> p(#[trigger] z.filter(p)[i]) && z.contains(
                z.filter(p)[i],
            ),
        forall|i: int, j: int|
            0 <= i < j < z.filter(p).len() ==> (#[trigger] z.filter(p)[i]).0.0 < (
            #[trigger] z.filter(p)[j]).0.0,
        forall|i: int| 0 <= i < z.len() && p(#[trigger] z[i]) ==> z.filter(p).contains(z[i]),
    decreases z.len(),
{
    reveal(Seq::filter);
    if z.len() > 0 {
        let rest = z.drop_last();
        assert(untag(rest) =~= untag(z).drop_last());
        assert forall|i: int, j: int| 0 <= i < j < rest.len() implies (#[trigger] untag(
            rest,
        )[i]).0.before((#[trigger] untag(rest)[j]).0) by {
            assert(untag(z)[i] == untag(rest)[i] && untag(z)[j] == untag(rest)[j]);
        }
        filter_ids(rest, p);
        let f = rest.filter(p);
        let g = z.filter(p);
        assert forall|i: int| 0 <= i < f.len() implies (#[trigger] f[i]).0.0 < z.last().0.0 by {
            let j = choose|j: int| 0 <= j < rest.len() && rest[j] == f[i];
            assert(untag(z)[j].0.before(untag(z)[z.len() - 1].0));
        }
        assert forall|i: int| 0 <= i < g.len() implies p(#[trigger] g[i]) && z.contains(g[i]) by {
            if i < f.len() {
                assert(g[i] == f[i]);
                let j = choose|j: int| 0 <= j < rest.len() && rest[j] == f[i];
                assert(z[j] == g[i]);
            } else {
                assert(z[z.len() - 1] == g[i]);
            }
        }
        assert forall|i: int, j: int| 0 <= i < j < g.len() implies (#[trigger] g[i]).0.0 < (
        #[trigger] g[j]).0.0 by {
            assert(g[i] == f[i]);
            if j < f.len() {
                assert(g[j] == f[j]);
            }
        }
        assert forall|i: int| 0 <= i < z.len() && p(#[trigger] z[i]) implies g.contains(z[i]) by {
            if i < rest.len() {
                assert(rest[i] == z[i]);
                assert(f.contains(rest[i]));
                let j = choose|j: int| 0 <= j < f.len() && f[j] == z[i];
                assert(g[j] == z[i]);
            } else {
                assert(g[g.len() - 1] == z[i]);
            }
        }
    }
}

/// What updating the cells that match makes of the rows: those whose leaf has
/// room are patched in place, the others are reported.
proof fn rows_renewed(
    m: Map<u32, Seq<u8>>,
    m1: Map<u32, Seq<u8>>,
    v: TableView,
    fs: Seq<FilterView>,
    ps: Seq<(u16, ValueView)>,
    rows: Map<u64, Seq<u8>>,
    a: Seq<(u64, Seq<u8>, Seq<u8>)>,
    b: Seq<(u64, Seq<u8>, Seq<u8>)>,
    cap: int,
)
    requires
        store::stage(m, v, rows, rows, 0),
        v.encrypted ==> crate::file::keeps_trim(m, m1),
        rows == store::table_rows(m, v),
        btree::is_tree(m1, v.root_page),
        btree_writer::only_tree(m, m1, v.root_page, v.root_page),
        forall|k: u64|
            rows.contains_key(k) && #[trigger] hit(m, v, fs, k) ==> store::readable(
                patched(rows[k], ps),
            ),
        ({
            let t = btree::view_of(m);
            let ls = tree::leaves(t, v.root_page, tree::height(t, v.root_page));
            let g = passing(v, fs);
            let u = patching(ps);
            &&& btree::all_cells(m1, v.root_page) == btree_bulk::renewed_in_place(m, ls, g, u, cap)
            &&& a == btree_bulk::changes_in(m, ls, g, u, cap, true)
            &&& b == btree_bulk::changes_in(m, ls, g, u, cap, false)
        }),
    ensures
        store::stage(m1, v, rows, rows, 0),
        store::only_table(m, m1, v, v),
        store::table_rows(m1, v) == swapped(rows, changed_ids(a), ps),
        changes_right(rows, ps, a),
        changes_right(rows, ps, b),
        (changed_ids(a) + changed_ids(b)).no_duplicates(),
        forall|k: u64|
            rows.contains_key(k) ==> (#[trigger] (changed_ids(a) + changed_ids(b)).contains(k)) == hit(
                m,
                v,
                fs,
                k,
            ),
{
    let root = v.root_page;
    let t = btree::view_of(m);
    let ls = tree::leaves(t, root, tree::height(t, root));
    let g = passing(v, fs);
    let u = patching(ps);
    let cells = btree::all_cells(m, root);
    let z = tagged(m, ls, g, u, cap);
    let new_cells = btree::all_cells(m1, root);
    btree::tree_chained(m, root);
    tagged_spec(m, ls, g, u, cap);
    tree::all_sorted(t, root);
    tree::all_sorted(btree::view_of(m1), root);
    store::cells_sound(m, root);
    store::overflow_stays(m, m1, root, root);
    assert(untag(z) == cells);
    assert(z.len() == cells.len());
    let pa = tag_is(m, g, true);
    let pb = tag_is(m, g, false);
    let za = z.filter(pa);
    let zb = z.filter(pb);
    filter_ids(z, pa);
    filter_ids(z, pb);
    assert(a == btree_bulk::changes(m, u, untag(za)));
    assert(b == btree_bulk::changes(m, u, untag(zb)));
    assert forall|j: int| 0 <= j < z.len() implies {
        let p = #[trigger] z[j];
        &&& p.0 == cells[j]
        &&& btree::cell_at(m, root, p.0.0) == Some(p.0.1)
        &&& rows.contains_key(p.0.0)
        &&& btree::whole(m, p.0.1) == (p.0.0, rows[p.0.0])
        &&& btree_bulk::chosen(m, g, p.0) == hit(m, v, fs, p.0.0)
        &&& btree_bulk::renew(m, u, p.0) == patched(rows[p.0.0], ps)
    } by {
        assert(untag(z)[j] == z[j].0);
    }
    assert forall|x: int| 0 <= x < a.len() implies {
        let c = #[trigger] a[x];
        &&& c.0 == za[x].0.0
        &&& rows.contains_key(c.0)
        &&& c.1 == rows[c.0]
        &&& c.2 == patched(rows[c.0], ps)
        &&& hit(m, v, fs, c.0)
    } by {
        assert(pa(za[x]));
        let j = choose|j: int| 0 <= j < z.len() && z[j] == za[x];
        assert(untag(za)[x] == za[x].0);
        assert(z[j].0 == cells[j]);
    }
    assert forall|x: int| 0 <= x < b.len() implies {
        let c = #[trigger] b[x];
        &&& c.0 == zb[x].0.0
        &&& rows.contains_key(c.0)
        &&& c.1 == rows[c.0]
        &&& c.2 == patched(rows[c.0], ps)
        &&& hit(m, v, fs, c.0)
    } by {
        assert(pb(zb[x]));
        let j = choose|j: int| 0 <= j < z.len() && z[j] == zb[x];
        assert(untag(zb)[x] == zb[x].0);
        assert(z[j].0 == cells[j]);
    }
    let ia = changed_ids(a);
    let ib = changed_ids(b);
    let ids = ia + ib;
    assert forall|j: int| 0 <= j < z.len() implies (ia.contains((#[trigger] z[j]).0.0) == (z[j].1
        && hit(m, v, fs, z[j].0.0))) && (ib.contains(z[j].0.0) == (!z[j].1 && hit(
        m,
        v,
        fs,
        z[j].0.0,
    ))) by {
        marked(m, g, z, true, a, j);
        marked(m, g, z, false, b, j);
    }
    assert forall|x: int, y: int| 0 <= x < y < ids.len() implies ids[x] != ids[y] by {
        if y < ia.len() {
            assert(ids[x] == a[x].0 && ids[y] == a[y].0);
            assert(za[x].0.0 < za[y].0.0);
        } else if x >= ia.len() {
            let x2 = x - ia.len();
            let y2 = y - ia.len();
            assert(ids[x] == b[x2].0 && ids[y] == b[y2].0);
            assert(zb[x2].0.0 < zb[y2].0.0);
        } else {
            let y2 = y - ia.len();
            assert(ids[x] == a[x].0 && ids[y] == b[y2].0);
            assert(pa(za[x]));
            assert(pb(zb[y2]));
            let j = choose|j: int| 0 <= j < z.len() && z[j] == za[x];
            let l = choose|l: int| 0 <= l < z.len() && z[l] == zb[y2];
            if ids[x] == ids[y] {
                assert(cells[j] == z[j].0 && cells[l] == z[l].0);
                assert(j != l);
                if j < l {
                    assert(cells[j].0.before(cells[l].0));
                } else {
                    assert(cells[l].0.before(cells[j].0));
                }
            }
        }
    }
    assert forall|k: u64| rows.contains_key(k) implies exists|j: int|
        0 <= j < z.len() && (#[trigger] z[j]).0.0 == k by {
        store::cell_listed(m, root, k);
        let c = btree::cell_at(m, root, k)->0;
        let j = choose|j: int| 0 <= j < cells.len() && cells[j] == (k, c);
        assert(z[j].0 == cells[j]);
    }
    assert forall|k: u64| rows.contains_key(k) implies (#[trigger] ids.contains(k)) == hit(
        m,
        v,
        fs,
        k,
    ) by {
        let j = choose|j: int| 0 <= j < z.len() && (#[trigger] z[j]).0.0 == k;
        concat_contains(ia, ib, k);
    }
    // The cells of the tree after the update.
    assert forall|k: u64| #[trigger] btree::cell_at(m1, root, k) == match btree::cell_at(m, root, k) {
        Some(c) => if ia.contains(k) {
            Some(patched(rows[k], ps))
        } else {
            Some(c)
        },
        None => None,
    } by {
        assert(btree::cell_at(m1, root, k) == tree::item_find(new_cells, k));
        assert(btree::cell_at(m, root, k) == tree::item_find(cells, k));
        if btree::cell_at(m, root, k) is Some {
            assert(rows.contains_key(k));
            let j = choose|j: int| 0 <= j < z.len() && (#[trigger] z[j]).0.0 == k;
            assert(renew_tagged(m, g, u, z)[j].0 == k);
            tree::item_find_at(new_cells, None, None, j);
            tree::item_find_at(cells, None, None, j);
        } else {
            assert forall|j: int| 0 <= j < new_cells.len() implies (#[trigger] new_cells[j]).0 != k by {
                assert(renew_tagged(m, g, u, z)[j].0 == z[j].0.0);
                assert(cells[j] == z[j].0);
                if cells[j].0 == k {
                    tree::item_find_at(cells, None, None, j);
                }
            }
            tree::item_find_none(new_cells, k);
        }
    }
    assert forall|k: u64| rows.contains_key(k) && ia.contains(k) implies #[trigger] store::good_cell(
        m1,
        k,
        patched(rows[k], ps),
    ) && btree::expand(m1, patched(rows[k], ps)) == Some(patched(rows[k], ps)) by {
        let j = choose|j: int| 0 <= j < z.len() && (#[trigger] z[j]).0.0 == k;
        assert(z[j].1 && hit(m, v, fs, k));
        assert(btree_writer::own_cell(btree_bulk::renew(m, u, z[j].0)));
        assert(store::good_at(m, root, k));
        patched_keeps_id(rows[k], ps);
    }
    assert forall|k: u64| #[trigger] store::good_at(m1, root, k) by {
        assert(store::good_at(m, root, k));
        if btree::cell_at(m, root, k) is Some {
            assert(rows.contains_key(k));
            store::good_cell_kept(m, m1, k, btree::cell_at(m, root, k)->0);
            if ia.contains(k) {
                assert(store::good_cell(m1, k, patched(rows[k], ps)));
            }
        }
    }
    if v.encrypted {
        store::cells_trim_step(m, m1, v, root);
    }
    store::rows_rewritten(m, m1, v, v, rows, rows, 0);
    assert forall|k: u64| #[trigger] store::table_rows(m1, v).contains_key(k) == swapped(
        rows,
        ia,
        ps,
    ).contains_key(k) && (store::table_rows(m1, v).contains_key(k) ==> store::table_rows(m1, v)[k]
        == swapped(rows, ia, ps)[k]) by {
        assert(store::good_at(m, root, k));
        if btree::cell_at(m, root, k) is Some {
            assert(rows.contains_key(k));
            store::good_cell_kept(m, m1, k, btree::cell_at(m, root, k)->0);
            if ia.contains(k) {
                assert(store::good_cell(m1, k, patched(rows[k], ps)));
            }
        }
    }
    assert(store::table_rows(m1, v) =~= swapped(rows, ia, ps));
}

/// An update of the rows that match, over the whole scan of a tree: each row that
/// matches stands once in exactly one of the two lists of changes, with its number, its
/// old bytes and its new bytes, and no other row does. Afterwards the scan shows the
/// rows of the first list with their new bytes, and all others as they were.
pub proof fn matches_updated_once(
    m: Map<u32, Seq<u8>>,
    m2: Map<u32, Seq<u8>>,
    root: u32,
    g: spec_fn(Seq<u8>) -> bool,
    u: spec_fn(Seq<u8>) -> Seq<u8>,
    cap: int,
    updated: Vec<(u64, Vec<u8>, Vec<u8>)>,
    moved: Vec<(u64, Vec<u8>, Vec<u8>)>,
)
    requires
        store::rows_sound(m, root),
        forall|d: Seq<u8>|
            d.len() >= 8 ==> (#[trigger] u(d)).len() >= 8 && btree_node::id_of(u(d))
                == btree_node::id_of(d),
        btree_bulk::updated_matching(m, m2, root, g, u, cap, Ok((updated, moved))),
    ensures
        ({
            let before = btree::expanded(m, btree::all_cells(m, root));
            let after = btree::expanded(m2, btree::all_cells(m2, root));
            let a = btree_bulk::triples(updated@);
            let b = btree_bulk::triples(moved@);
            &&& (changed_ids(a) + changed_ids(b)).no_duplicates()
            &&& forall|x: int|
                0 <= x < a.len() ==> of_match(before, g, u, #[trigger] a[x])
            &&& forall|x: int|
                0 <= x < b.len() ==> of_match(before, g, u, #[trigger] b[x])
            &&& after.len() == before.len()
            &&& forall|j: int|
                0 <= j < before.len() ==> {
                    let row = #[trigger] before[j];
                    let new = change_of(u, row);
                    &&& g(row.1) <==> a.contains(new) || b.contains(new)
                    &&& after[j] == if g(row.1) && a.contains(new) {
                        (row.0, new.2)
                    } else {
                        row
                    }
                }
        }),
{
    let t = btree::view_of(m);
    let ls = tree::leaves(t, root, tree::height(t, root));
    let cells = btree::all_cells(m, root);
    let new_cells = btree::all_cells(m2, root);
    let before = btree::expanded(m, cells);
    let after = btree::expanded(m2, new_cells);
    let a = btree_bulk::triples(updated@);
    let b = btree_bulk::triples(moved@);
    let z = tagged(m, ls, g, u, cap);
    btree::tree_chained(m, root);
    tagged_spec(m, ls, g, u, cap);
    tree::all_sorted(t, root);
    store::cells_sound(m, root);
    store::overflow_stays(m, m2, root, root);
    let pa = tag_is(m, g, true);
    let pb = tag_is(m, g, false);
    let za = z.filter(pa);
    let zb = z.filter(pb);
    filter_ids(z, pa);
    filter_ids(z, pb);
    assert(untag(z) == cells);
    assert(z.len() == cells.len());
    assert forall|j: int| 0 <= j < z.len() implies {
        let p = #[trigger] z[j];
        &&& p.0 == cells[j]
        &&& before[j].0 == p.0.0
        &&& btree::whole(m, p.0.1) == before[j]
        &&& btree::expands(m, p.0.1)
        &&& btree_bulk::chosen(m, g, p.0) == g(before[j].1)
        &&& btree_bulk::renew(m, u, p.0) == u(before[j].1)
        &&& before[j].1.len() >= 8
        &&& store::good_cell(m, p.0.0, p.0.1)
    } by {
        assert(untag(z)[j] == z[j].0);
        store::listed_cell(m, root, j);
        assert(store::good_at(m, root, cells[j].0));
    }
    assert forall|x: int| 0 <= x < a.len() implies exists|j: int|
        0 <= j < z.len() && z[j] == za[x] && g(before[j].1) && (#[trigger] a[x]) == change_of(
            u,
            #[trigger] before[j],
        ) by {
        assert(pa(za[x]));
        let j = choose|j: int| 0 <= j < z.len() && z[j] == za[x];
        assert(untag(za)[x] == za[x].0);
        assert(z[j].0 == cells[j]);
        assert(a[x] == change_of(u, before[j]));
    }
    assert forall|x: int| 0 <= x < b.len() implies exists|j: int|
        0 <= j < z.len() && z[j] == zb[x] && g(before[j].1) && (#[trigger] b[x]) == change_of(
            u,
            #[trigger] before[j],
        ) by {
        assert(pb(zb[x]));
        let j = choose|j: int| 0 <= j < z.len() && z[j] == zb[x];
        assert(untag(zb)[x] == zb[x].0);
        assert(z[j].0 == cells[j]);
        assert(b[x] == change_of(u, before[j]));
    }
    assert forall|x: int| 0 <= x < a.len() implies of_match(before, g, u, #[trigger] a[x]) by {}
    assert forall|x: int| 0 <= x < b.len() implies of_match(before, g, u, #[trigger] b[x]) by {}
    // Where the changes of a row stand.
    assert forall|j: int| 0 <= j < z.len() implies {
        let new = change_of(u, #[trigger] before[j]);
        &&& a.contains(new) == (z[j].1 && g(before[j].1))
        &&& b.contains(new) == (!z[j].1 && g(before[j].1))
    } by {
        let new = change_of(u, before[j]);
        assert(z[j].0 == cells[j]);
        if pa(z[j]) {
            let x = choose|x: int| 0 <= x < za.len() && za[x] == z[j];
            assert(untag(za)[x] == za[x].0);
            assert(a[x] == new);
        }
        if pb(z[j]) {
            let x = choose|x: int| 0 <= x < zb.len() && zb[x] == z[j];
            assert(untag(zb)[x] == zb[x].0);
            assert(b[x] == new);
        }
        if a.contains(new) {
            let x = choose|x: int| 0 <= x < a.len() && a[x] == new;
            let l = choose|l: int|
                0 <= l < z.len() && z[l] == za[x] && g(before[l].1) && a[x] == change_of(
                    u,
                    #[trigger] before[l],
                );
            assert(pa(za[x]));
            same_row(cells, j, l);
        }
        if b.contains(new) {
            let x = choose|x: int| 0 <= x < b.len() && b[x] == new;
            let l = choose|l: int|
                0 <= l < z.len() && z[l] == zb[x] && g(before[l].1) && b[x] == change_of(
                    u,
                    #[trigger] before[l],
                );
            assert(pb(zb[x]));
            same_row(cells, j, l);
        }
    }
    let ia = changed_ids(a);
    let ib = changed_ids(b);
    let ids = ia + ib;
    assert forall|x: int, y: int| 0 <= x < y < ids.len() implies ids[x] != ids[y] by {
        if y < ia.len() {
            assert(ids[x] == a[x].0 && ids[y] == a[y].0);
            assert(a[x].0 == za[x].0.0 && a[y].0 == za[y].0.0);
            assert(za[x].0.0 < za[y].0.0);
        } else if x >= ia.len() {
            let x2 = x - ia.len();
            let y2 = y - ia.len();
            assert(ids[x] == b[x2].0 && ids[y] == b[y2].0);
            assert(b[x2].0 == zb[x2].0.0 && b[y2].0 == zb[y2].0.0);
            assert(zb[x2].0.0 < zb[y2].0.0);
        } else {
            let y2 = y - ia.len();
            assert(ids[x] == a[x].0 && ids[y] == b[y2].0);
            let j = choose|j: int|
                0 <= j < z.len() && z[j] == za[x] && g(before[j].1) && a[x] == change_of(
                    u,
                    #[trigger] before[j],
                );
            let l = choose|l: int|
                0 <= l < z.len() && z[l] == zb[y2] && g(before[l].1) && b[y2] == change_of(
                    u,
                    #[trigger] before[l],
                );
            assert(pa(za[x]));
            assert(pb(zb[y2]));
            if ids[x] == ids[y] {
                same_row(cells, j, l);
            }
        }
    }
    assert(new_cells == renew_tagged(m, g, u, z));
    assert forall|j: int| 0 <= j < before.len() implies after[j] == {
        let row = #[trigger] before[j];
        let new = change_of(u, row);
        if g(row.1) && a.contains(new) {
            (row.0, new.2)
        } else {
            row
        }
    } by {
        let p = z[j];
        assert(p.0 == cells[j]);
        assert(renew_tagged(m, g, u, z)[j] == new_cells[j]);
        if p.1 && btree_bulk::chosen(m, g, p.0) {
            let new = u(before[j].1);
            assert(btree_writer::own_cell(new));
            assert(btree::expand(m2, new) == Some(new));
        } else {
            store::good_cell_kept(m, m2, p.0.0, p.0.1);
        }
    }
}

/// The change is that of a row that matches.
pub open spec fn of_match(
    rows: Seq<(u64, Seq<u8>)>,
    g: spec_fn(Seq<u8>) -> bool,
    u: spec_fn(Seq<u8>) -> Seq<u8>,
    c: (u64, Seq<u8>, Seq<u8>),
) -> bool {
    exists|j: int| 0 <= j < rows.len() && g(rows[j].1) && c == change_of(u, #[trigger] rows[j])
}

/// The change of a row: its number, its old bytes and its new bytes.
pub open spec fn change_of(u: spec_fn(Seq<u8>) -> Seq<u8>, row: (u64, Seq<u8>)) -> (
    u64,
    Seq<u8>,
    Seq<u8>,
) {
    (row.0, row.1, u(row.1))
}

/// Ascending cells with one number are one cell.
proof fn same_row(cells: Seq<(u64, Seq<u8>)>, j: int, l: int)
    requires
        tree::items_ok(cells, None, None),
        0 <= j < cells.len(),
        0 <= l < cells.len(),
        cells[j].0 == cells[l].0,
    ensures
        j == l,
{
    if j < l {
        assert(cells[j].0.before(cells[l].0));
    } else if l < j {
        assert(cells[l].0.before(cells[j].0));
    }
}

proof fn concat_contains(a: Seq<u64>, b: Seq<u64>, k: u64)
    ensures
        (a + b).contains(k) == (a.contains(k) || b.contains(k)),
{
    let c = a + b;
    if a.contains(k) {
        let i = choose|i: int| 0 <= i < a.len() && a[i] == k;
        assert(c[i] == k);
    }
    if b.contains(k) {
        let i = choose|i: int| 0 <= i < b.len() && b[i] == k;
        assert(c[a.len() + i] == k);
    }
    if c.contains(k) {
        let i = choose|i: int| 0 <= i < c.len() && c[i] == k;
        if i < a.len() {
            assert(a[i] == k);
        } else {
            assert(b[i - a.len()] == k);
        }
    }
}

/// A marked cell is reported exactly if it is chosen and has the mark.
proof fn marked(
    m: Map<u32, Seq<u8>>,
    g: spec_fn(Seq<u8>) -> bool,
    z: Seq<((u64, Seq<u8>), bool)>,
    fits: bool,
    a: Seq<(u64, Seq<u8>, Seq<u8>)>,
    j: int,
)
    requires
        tree::items_ok(untag(z), None, None),
        0 <= j < z.len(),
        a.len() == z.filter(tag_is(m, g, fits)).len(),
        forall|x: int|
            0 <= x < a.len() ==> (#[trigger] a[x]).0 == z.filter(tag_is(m, g, fits))[x].0.0,
    ensures
        changed_ids(a).contains(z[j].0.0) == (z[j].1 == fits && btree_bulk::chosen(m, g, z[j].0)),
{
    let p = tag_is(m, g, fits);
    let f = z.filter(p);
    let ids = changed_ids(a);
    filter_ids(z, p);
    if p(z[j]) {
        assert(f.contains(z[j]));
        let x = choose|x: int| 0 <= x < f.len() && f[x] == z[j];
        assert(a[x].0 == z[j].0.0);
        assert(ids[x] == z[j].0.0);
    }
    if ids.contains(z[j].0.0) {
        let x = choose|x: int| 0 <= x < ids.len() && ids[x] == z[j].0.0;
        assert(a[x].0 == f[x].0.0);
        assert(p(f[x]));
        let l = choose|l: int| 0 <= l < z.len() && z[l] == f[x];
        assert(untag(z)[l] == z[l].0 && untag(z)[j] == z[j].0);
        if l < j {
            assert(untag(z)[l].0.before(untag(z)[j].0));
        } else if j < l {
            assert(untag(z)[j].0.before(untag(z)[l].0));
        }
    }
}

/// The rows with those patched that the filters accept.
pub open spec fn patched_rows(
    m: Map<u32, Seq<u8>>,
    v: TableView,
    fs: Seq<FilterView>,
    ps: Seq<(u16, ValueView)>,
) -> Map<u64, Seq<u8>> {
    let rows = store::table_rows(m, v);
    Map::new(
        |k: u64| rows.contains_key(k),
        |k: u64|
            if hit(m, v, fs, k) {
                patched(rows[k], ps)
            } else {
                rows[k]
            },
    )
}

/// The numbers of the rows that the filters accept.
pub open spec fn hits(m: Map<u32, Seq<u8>>, v: TableView, fs: Seq<FilterView>) -> Set<u64> {
    Set::new(|k: u64| store::table_rows(m, v).contains_key(k) && hit(m, v, fs, k))
}

/// The patched rows can be read back and listed.
pub open spec fn patches_storable(
    m: Map<u32, Seq<u8>>,
    v: TableView,
    fs: Seq<FilterView>,
    ps: Seq<(u16, ValueView)>,
) -> bool {
    let rows = store::table_rows(m, v);
    forall|k: u64|
        rows.contains_key(k) && #[trigger] hit(m, v, fs, k) ==> store::readable(
            patched(rows[k], ps),
        ) && store::indexable(v, patched(rows[k], ps), k)
}

/// The patched rows can be read back.
pub open spec fn patches_readable(
    m: Map<u32, Seq<u8>>,
    v: TableView,
    fs: Seq<FilterView>,
    ps: Seq<(u16, ValueView)>,
) -> bool {
    let rows = store::table_rows(m, v);
    forall|k: u64|
        rows.contains_key(k) && #[trigger] hit(m, v, fs, k) ==> store::readable(
            patched(rows[k], ps),
        )
}

/// The indexes cannot list a patched row.
pub open spec fn patch_unlistable(
    m: Map<u32, Seq<u8>>,
    v: TableView,
    fs: Seq<FilterView>,
    ps: Seq<(u16, ValueView)>,
    e: BoogyError,
) -> bool {
    exists|k: u64| #[trigger]
        hit(m, v, fs, k) && store::unlistable(v, patched(store::table_rows(m, v)[k], ps), k, e)
}

/// What comes of updating the rows of a table in order that match.
pub open spec fn change_where_outcome(
    m: Map<u32, Seq<u8>>,
    m2: Map<u32, Seq<u8>>,
    v: TableView,
    v2: TableView,
    fs: Seq<FilterView>,
    ps: Seq<(u16, ValueView)>,
    max: u32,
    r: Result<u64>,
) -> bool {
    match r {
        Ok(n) => {
            &&& engine::table_sound(m2, v2)
            &&& store::table_rows(m2, v2) == patched_rows(m, v, fs, ps)
            &&& store::only_table(m, m2, v, v2)
            &&& n == hits(m, v, fs).len()
            &&& patches_within(m, v, fs, ps, max)
        },
        Err(BoogyError::RowTooLarge(n)) => patch_too_large(m, v, fs, ps, max, n as int),
        Err(e) => store::tree_error(e) && patches_within(m, v, fs, ps, max),
    }
}

/// All patched rows fit.
pub open spec fn patches_within(
    m: Map<u32, Seq<u8>>,
    v: TableView,
    fs: Seq<FilterView>,
    ps: Seq<(u16, ValueView)>,
    max: u32,
) -> bool {
    forall|k: u64| #[trigger]
        hit(m, v, fs, k) ==> patch_fits(store::table_rows(m, v)[k], ps, max)
}

/// A patched row does not fit.
pub open spec fn patch_too_large(
    m: Map<u32, Seq<u8>>,
    v: TableView,
    fs: Seq<FilterView>,
    ps: Seq<(u16, ValueView)>,
    max: u32,
    n: int,
) -> bool {
    exists|k: u64| #[trigger]
        hit(m, v, fs, k) && !patch_fits(store::table_rows(m, v)[k], ps, max) && patched(
            store::table_rows(m, v)[k],
            ps,
        ).len() == n
}

proof fn swapped_step(rows: Map<u64, Seq<u8>>, ids: Seq<u64>, ps: Seq<(u16, ValueView)>, x: int)
    requires
        0 <= x < ids.len(),
        ids.no_duplicates(),
        rows.contains_key(ids[x]),
    ensures
        swapped(rows, ids.take(x + 1), ps) == swapped(rows, ids.take(x), ps).insert(
            ids[x],
            patched(rows[ids[x]], ps),
        ),
        swapped(rows, ids.take(x + 1), ps) == swapped(rows, ids.take(x), ps).remove(ids[x]).insert(
            ids[x],
            patched(rows[ids[x]], ps),
        ),
        swapped(rows, ids.take(x), ps).contains_key(ids[x]),
        swapped(rows, ids.take(x), ps)[ids[x]] == rows[ids[x]],
{
    let a = ids.take(x);
    let b = ids.take(x + 1);
    assert(b =~= a.push(ids[x]));
    assert(!a.contains(ids[x])) by {
        if a.contains(ids[x]) {
            let j = choose|j: int| 0 <= j < x && a[j] == ids[x];
            assert(ids[j] == ids[x]);
        }
    }
    assert forall|k: u64| #[trigger] b.contains(k) == (a.contains(k) || k == ids[x]) by {
        concat_contains(a, seq![ids[x]], k);
        assert(a + seq![ids[x]] =~= b);
        assert(seq![ids[x]][0] == ids[x]);
    }
    assert(swapped(rows, b, ps) =~= swapped(rows, a, ps).insert(
        ids[x],
        patched(rows[ids[x]], ps),
    ));
    assert(swapped(rows, b, ps) =~= swapped(rows, a, ps).remove(ids[x]).insert(
        ids[x],
        patched(rows[ids[x]], ps),
    ));
}

/// All changed rows fit.
pub open spec fn changes_within(
    b: Seq<(u64, Seq<u8>, Seq<u8>)>,
    ps: Seq<(u16, ValueView)>,
    max: u32,
) -> bool {
    forall|x: int| 0 <= x < b.len() ==> change_within(#[trigger] b[x], ps, max)
}

/// A changed row fits.
pub open spec fn change_within(
    c: (u64, Seq<u8>, Seq<u8>),
    ps: Seq<(u16, ValueView)>,
    max: u32,
) -> bool {
    &&& c.2.len() <= max
    &&& row::decodable(c.1) ==> engine::merge_fits(c.1, ps)
}

/// The length of a changed row that does not fit.
fn over_limit(v: &Vec<(u64, Vec<u8>, Vec<u8>)>, sets: &[(u16, &Value)], max: u32) -> (r: Option<
    usize,
>)
    ensures
        match r {
            None => changes_within(btree_bulk::triples(v@), row::cols_view(sets@), max),
            Some(n) => exists|x: int|
                0 <= x < v@.len() && !change_within(
                    #[trigger] btree_bulk::triples(v@)[x],
                    row::cols_view(sets@),
                    max,
                ) && btree_bulk::triples(v@)[x].2.len() == n,
        },
{
    let mut i: usize = 0;
    while i < v.len()
        invariant
            i <= v@.len(),
            forall|x: int|
                0 <= x < i ==> change_within(
                    #[trigger] btree_bulk::triples(v@)[x],
                    row::cols_view(sets@),
                    max,
                ),
        decreases v@.len() - i,
    {
        let ghost c = btree_bulk::triples(v@)[i as int];
        assert(c.2 == v@[i as int].2@ && c.1 == v@[i as int].1@);
        let fits: bool = match merge_row(v[i].0, v[i].1.as_slice(), sets) {
            Ok(p) => p.1,
            Err(_) => true,
        };
        if v[i].2.len() > max as usize || !fits {
            assert(!change_within(c, row::cols_view(sets@), max));
            return Some(v[i].2.len());
        }
        i += 1;
    }
    None
}

/// Checks that the indexes can list the changed rows.
fn check_changes(meta: &TableMeta, v: &Vec<(u64, Vec<u8>, Vec<u8>)>) -> (r: Result<()>)
    ensures
        match r {
            Ok(_) => forall|x: int|
                0 <= x < v@.len() ==> store::indexable(
                    meta@,
                    (#[trigger] btree_bulk::triples(v@)[x]).2,
                    btree_bulk::triples(v@)[x].0,
                ),
            Err(e) => exists|x: int|
                0 <= x < v@.len() && store::unlistable(
                    meta@,
                    (#[trigger] btree_bulk::triples(v@)[x]).2,
                    btree_bulk::triples(v@)[x].0,
                    e,
                ),
        },
{
    let mut i: usize = 0;
    while i < v.len()
        invariant
            i <= v@.len(),
            forall|x: int|
                0 <= x < i ==> store::indexable(
                    meta@,
                    (#[trigger] btree_bulk::triples(v@)[x]).2,
                    btree_bulk::triples(v@)[x].0,
                ),
        decreases v@.len() - i,
    {
        let ghost c = btree_bulk::triples(v@)[i as int];
        assert(c.2 == v@[i as int].2@ && c.0 == v@[i as int].0);
        match store::check_entries(meta, v[i].0, v[i].2.as_slice()) {
            Ok(_) => {},
            Err(e) => {
                assert(store::unlistable(meta@, c.2, c.0, e));
                return Err(e);
            },
        }
        i += 1;
    }
    Ok(())
}

/// How many page numbers storing a row of at most `max` bytes again asks for.
pub open spec fn leaf_pages(max: u32) -> int {
    66 + btree_writer::pages_for(max as int)
}

/// Stores the rows again that had no room in their leaf.
fn replace_all(
    guard: &mut WriteGuard,
    meta: &mut TableMeta,
    moved: &Vec<(u64, Vec<u8>, Vec<u8>)>,
    Ghost(rows): Ghost<Map<u64, Seq<u8>>>,
    Ghost(first): Ghost<Seq<u64>>,
    Ghost(ps): Ghost<Seq<(u16, ValueView)>>,
    Ghost(max): Ghost<u32>,
) -> (r: Result<()>)
    requires
        old(guard).wf(),
    ensures
        r is Ok && file::tidy(old(guard).pages()) ==> file::tidy(final(guard).pages()),
        store::unpublished(*old(guard), *final(guard), old(meta)@.encrypted),
        moved@.len() == 0 ==> r is Ok,
        final(meta)@ == (TableView { root_page: final(meta)@.root_page, ..old(meta)@ }),
        ({
            let m = old(guard).pages();
            let m2 = final(guard).pages();
            let v = old(meta)@;
            let v2 = final(meta)@;
            let b = btree_bulk::triples(moved@);
            let ids = first + changed_ids(b);
            replace_ready(m, v, rows, first, b, ps) ==> match r {
                Ok(_) => {
                    &&& store::stage(m2, v2, rows, rows, 0)
                    &&& store::table_rows(m2, v2) == swapped(rows, ids, ps)
                    &&& store::only_table(m, m2, v, v2)
                },
                Err(e) => store::tree_error(e),
            }
        }),
        ({
            let b = btree_bulk::triples(moved@);
            replace_ready(old(guard).pages(), old(meta)@, rows, first, b, ps) && changes_within(
                b,
                ps,
                max,
            ) && old(guard).total() + leaf_pages(max) * moved@.len() <= u32::MAX ==> r is Ok
                && final(guard).total() <= old(guard).total() + leaf_pages(max) * moved@.len()
        }),
{
    let ghost m = guard.pages();
    let ghost v = meta@;
    let ghost b = btree_bulk::triples(moved@);
    let ghost ids = first + changed_ids(b);
    let ghost good = replace_ready(m, v, rows, first, b, ps);
    let ghost c = leaf_pages(max);
    let ghost owed = good && changes_within(b, ps, max) && guard.total() + c * moved@.len()
        <= u32::MAX;
    let n: usize = moved.len();
    let mut x: usize = 0;
    proof {
        store::only_table_none(m, v);
        assert(ids.take(first.len() as int) =~= first);
    }
    while x < n
        invariant
            x <= n,
            n == moved@.len(),
            m == old(guard).pages(),
            v == old(meta)@,
            b == btree_bulk::triples(moved@),
            ids == first + changed_ids(b),
            store::unpublished(*old(guard), *guard, old(meta)@.encrypted),
            file::tidy(old(guard).pages()) ==> file::tidy(guard.pages()),
            meta@ == (TableView { root_page: meta@.root_page, ..v }),
            good == replace_ready(m, v, rows, first, b, ps),
            c == leaf_pages(max),
            owed == (good && changes_within(b, ps, max) && old(guard).total() + c * moved@.len()
                <= u32::MAX),
            owed ==> guard.total() <= old(guard).total() + c * x,
            good ==> {
                &&& store::stage(guard.pages(), meta@, rows, rows, 0)
                &&& store::table_rows(guard.pages(), meta@) == swapped(
                    rows,
                    ids.take(first.len() + x),
                    ps,
                )
                &&& store::only_table(m, guard.pages(), v, meta@)
            },
        decreases n - x,
    {
        let ghost mx = guard.pages();
        let ghost vx = meta@;
        let id: u64 = moved[x].0;
        let bytes: &Vec<u8> = &moved[x].2;
        let ghost at = first.len() + x;
        proof {
            assert(b[x as int] == (
                moved@[x as int].0,
                moved@[x as int].1@,
                moved@[x as int].2@,
            ));
            if good {
                assert(ids[at] == changed_ids(b)[x as int]);
                assert(ids[at] == id);
                assert(rows.contains_key(b[x as int].0));
                swapped_step(rows, ids, ps, at);
                patched_keeps_id(rows[id], ps);
                assert(store::readable(b[x as int].2));
            }
            if owed {
                btree::never_deep(mx, vx.root_page);
                room::pages_grow(b[x as int].2.len() as int, max as int);
            }
            room::pages_grow(0, max as int);
            assert(c * (x + 1) == c * x + c && c * (x + 1) <= c * n) by (nonlinear_arith)
                requires
                    c >= 0,
                    x < n,
            ;
        }
        let same: bool = match row::extract_id(bytes.as_slice()) {
            Ok(found) => found == id,
            Err(_) => false,
        };
        if !same || bytes.len() > u32::MAX as usize {
            return Err(crate::error::corruption("updated row does not match its id"));
        }
        replace_in_tree(guard, meta, id, bytes.as_slice(), Ghost(rows))?;
        proof {
            if good {
                store::only_table_then(m, mx, guard.pages(), v, vx, meta@);
            }
        }
        x += 1;
    }
    proof {
        assert(ids.take(first.len() + n) =~= ids);
    }
    Ok(())
}

/// The rows that are to be stored again, and what was patched before.
pub open spec fn replace_ready(
    m: Map<u32, Seq<u8>>,
    v: TableView,
    rows: Map<u64, Seq<u8>>,
    first: Seq<u64>,
    b: Seq<(u64, Seq<u8>, Seq<u8>)>,
    ps: Seq<(u16, ValueView)>,
) -> bool {
    &&& store::stage(m, v, rows, rows, 0)
    &&& store::table_rows(m, v) == swapped(rows, first, ps)
    &&& changes_right(rows, ps, b)
    &&& (first + changed_ids(b)).no_duplicates()
    &&& forall|x: int| 0 <= x < b.len() ==> store::readable((#[trigger] b[x]).2)
    &&& forall|x: int| 0 <= x < b.len() ==> rows[(#[trigger] b[x]).0].len() >= 8 && btree_node::id_of(
        rows[b[x].0],
    ) == b[x].0
}

/// Brings the indexes in step with rows that were updated.
fn reindex_all(
    guard: &mut WriteGuard,
    meta: &mut TableMeta,
    changed: &Vec<(u64, Vec<u8>, Vec<u8>)>,
    Ghost(rows): Ghost<Map<u64, Seq<u8>>>,
    Ghost(ids): Ghost<Seq<u64>>,
    Ghost(start): Ghost<int>,
    Ghost(ps): Ghost<Seq<(u16, ValueView)>>,
) -> (r: Result<()>)
    requires
        old(guard).wf(),
    ensures
        r is Ok && file::tidy(old(guard).pages()) ==> file::tidy(final(guard).pages()),
        store::unpublished(*old(guard), *final(guard), old(meta)@.encrypted),
        store::rerooted(old(meta)@, final(meta)@),
        final(meta)@.root_page == old(meta)@.root_page,
        ({
            let m = old(guard).pages();
            let m2 = final(guard).pages();
            let v = old(meta)@;
            let v2 = final(meta)@;
            let b = btree_bulk::triples(changed@);
            let after = swapped(rows, ids.take(start + b.len()), ps);
            reindex_ready(m, v, rows, ids, start, b, ps) ==> match r {
                Ok(_) => {
                    &&& store::stage(m2, v2, after, after, 0)
                    &&& store::table_rows(m2, v2) == store::table_rows(m, v)
                    &&& store::only_table(m, m2, v, v2)
                },
                Err(e) => store::tree_error(e),
            }
        }),
        reindex_ready(
            old(guard).pages(),
            old(meta)@,
            rows,
            ids,
            start,
            btree_bulk::triples(changed@),
            ps,
        ) && old(guard).total() + 66 * old(meta)@.indexes.len() * changed@.len() <= u32::MAX
            ==> r is Ok && final(guard).total() <= old(guard).total() + 66 * old(meta)@.indexes.len()
            * changed@.len(),
{
    let ghost m = guard.pages();
    let ghost v = meta@;
    let ghost b = btree_bulk::triples(changed@);
    let ghost good = reindex_ready(m, v, rows, ids, start, b, ps);
    let ghost c = 66 * v.indexes.len() as int;
    let ghost owed = good && guard.total() + c * changed@.len() <= u32::MAX;
    let n: usize = changed.len();
    let mut x: usize = 0;
    proof {
        store::only_table_none(m, v);
    }
    while x < n
        invariant
            x <= n,
            n == changed@.len(),
            m == old(guard).pages(),
            v == old(meta)@,
            b == btree_bulk::triples(changed@),
            store::unpublished(*old(guard), *guard, old(meta)@.encrypted),
            file::tidy(old(guard).pages()) ==> file::tidy(guard.pages()),
            store::rerooted(v, meta@),
            meta@.root_page == v.root_page,
            good == reindex_ready(m, v, rows, ids, start, b, ps),
            c == 66 * v.indexes.len(),
            owed == (good && old(guard).total() + c * changed@.len() <= u32::MAX),
            owed ==> guard.total() <= old(guard).total() + c * x,
            good ==> {
                let now = swapped(rows, ids.take(start + x), ps);
                &&& store::stage(guard.pages(), meta@, now, now, 0)
                &&& store::table_rows(guard.pages(), meta@) == store::table_rows(m, v)
                &&& store::only_table(m, guard.pages(), v, meta@)
            },
        decreases n - x,
    {
        let ghost mx = guard.pages();
        let ghost vx = meta@;
        let ghost at = start + x;
        let ghost now = swapped(rows, ids.take(at), ps);
        let ghost id = b[x as int].0;
        let ghost less = now.remove(id);
        let ghost next = less.insert(id, b[x as int].2);
        proof {
            assert(b[x as int] == (
                changed@[x as int].0,
                changed@[x as int].1@,
                changed@[x as int].2@,
            ));
            if good {
                assert(changed_ids(b)[x as int] == id);
                assert(ids[at] == id);
                assert(rows.contains_key(b[x as int].0));
                swapped_step(rows, ids, ps, at);
                store::stage_start(mx, vx, now, now, less);
                assert(store::indexable(v, b[x as int].1, id));
                assert(store::indexable(v, b[x as int].2, id));
                store::rerooted_indexable(v, vx, b[x as int].1, id);
                store::stage_shallow(mx, vx, now);
            }
            assert(c * (x + 1) == c * x + c && (x + 1 <= n ==> c * (x + 1) <= c * n)) by (
            nonlinear_arith)
                requires
                    c >= 0,
                    x < n,
            ;
        }
        index_update_row(
            guard,
            meta,
            changed[x].0,
            changed[x].1.as_slice(),
            true,
            Ghost(now),
            Ghost(less),
        )?;
        let ghost my = guard.pages();
        let ghost vy = meta@;
        proof {
            if good {
                store::only_table_then(m, mx, my, v, vx, vy);
                store::stage_start(my, vy, less, less, next);
                store::rerooted_indexable(v, vy, b[x as int].2, id);
                room::stage_takes(my, vy, less, b[x as int].2, id);
            }
        }
        index_update_row(
            guard,
            meta,
            changed[x].0,
            changed[x].2.as_slice(),
            false,
            Ghost(less),
            Ghost(next),
        )?;
        proof {
            if good {
                store::only_table_then(m, my, guard.pages(), v, vy, meta@);
            }
        }
        x += 1;
    }
    Ok(())
}

/// The indexes list some of the rows as updated, and the next ones are known.
pub open spec fn reindex_ready(
    m: Map<u32, Seq<u8>>,
    v: TableView,
    rows: Map<u64, Seq<u8>>,
    ids: Seq<u64>,
    start: int,
    b: Seq<(u64, Seq<u8>, Seq<u8>)>,
    ps: Seq<(u16, ValueView)>,
) -> bool {
    let now = swapped(rows, ids.take(start), ps);
    &&& 0 <= start
    &&& start + b.len() <= ids.len()
    &&& ids.subrange(start, start + b.len() as int) == changed_ids(b)
    &&& ids.no_duplicates()
    &&& store::stage(m, v, now, now, 0)
    &&& changes_right(rows, ps, b)
    &&& forall|x: int|
        0 <= x < b.len() ==> store::indexable(v, (#[trigger] b[x]).1, b[x].0) && store::indexable(
            v,
            b[x].2,
            b[x].0,
        )
}

/// The table after its rows were updated, before and after the indexes are.
proof fn change_where_done(
    m: Map<u32, Seq<u8>>,
    m2: Map<u32, Seq<u8>>,
    v: TableView,
    v2: TableView,
    fs: Seq<FilterView>,
    ps: Seq<(u16, ValueView)>,
    ids: Seq<u64>,
)
    requires
        engine::table_sound(m, v),
        patches_storable(m, v, fs, ps),
        ids.no_duplicates(),
        forall|i: int| 0 <= i < ids.len() ==> store::table_rows(m, v).contains_key(#[trigger] ids[i]),
        forall|k: u64|
            store::table_rows(m, v).contains_key(k) ==> (#[trigger] ids.contains(k)) == hit(
                m,
                v,
                fs,
                k,
            ),
        v.indexes.len() > 0 ==> store::stage(
            m2,
            v2,
            swapped(store::table_rows(m, v), ids, ps),
            swapped(store::table_rows(m, v), ids, ps),
            0,
        ),
        v.indexes.len() == 0 ==> store::stage(
            m2,
            v2,
            store::table_rows(m, v),
            store::table_rows(m, v),
            0,
        ),
        store::table_rows(m2, v2) == swapped(store::table_rows(m, v), ids, ps),
        store::only_table(m, m2, v, v2),
        store::rerooted(v, v2),
    ensures
        engine::table_sound(m2, v2),
        store::table_rows(m2, v2) == patched_rows(m, v, fs, ps),
        ids.len() == hits(m, v, fs).len(),
{
    reveal(engine::table_sound);
    reveal(store::table_ok);
    let rows = store::table_rows(m, v);
    let new = swapped(rows, ids, ps);
    assert(new =~= patched_rows(m, v, fs, ps));
    assert(new.dom() =~= rows.dom());
    if v.indexes.len() == 0 {
        assert(store::stage(m2, v2, new, new, 0));
    }
    assert forall|k: u64| #[trigger] new.contains_key(k) implies store::indexable(v2, new[k], k) by {
        store::rerooted_indexable(v, v2, new[k], k);
        assert(rows.contains_key(k));
        assert(ids.contains(k) == hit(m, v, fs, k));
    }
    engine::system_page_kept(m, m2, v, v2);
    hits_counted(m, v, fs, ids);
}

/// What the update of the tree leaves for the rest of the work.
proof fn change_where_ready(
    m: Map<u32, Seq<u8>>,
    v: TableView,
    fs: Seq<FilterView>,
    ps: Seq<(u16, ValueView)>,
    a: Seq<(u64, Seq<u8>, Seq<u8>)>,
)
    requires
        engine::table_sound(m, v),
        patches_storable(m, v, fs, ps),
        changes_right(store::table_rows(m, v), ps, a),
        forall|x: int| 0 <= x < a.len() ==> hit(m, v, fs, (#[trigger] a[x]).0),
    ensures
        forall|x: int|
            0 <= x < a.len() ==> {
                &&& store::readable((#[trigger] a[x]).2)
                &&& store::indexable(v, a[x].1, a[x].0)
                &&& store::indexable(v, a[x].2, a[x].0)
                &&& store::table_rows(m, v)[a[x].0].len() >= 8
                &&& btree_node::id_of(store::table_rows(m, v)[a[x].0]) == a[x].0
            },
{
    reveal(engine::table_sound);
    reveal(store::table_ok);
    let rows = store::table_rows(m, v);
    assert forall|x: int| 0 <= x < a.len() implies {
        &&& store::readable((#[trigger] a[x]).2)
        &&& store::indexable(v, a[x].1, a[x].0)
        &&& store::indexable(v, a[x].2, a[x].0)
        &&& rows[a[x].0].len() >= 8
        &&& btree_node::id_of(rows[a[x].0]) == a[x].0
    } by {
        assert(rows.contains_key(a[x].0));
        assert(hit(m, v, fs, a[x].0));
        engine::sound_search(m, v, a[x].0);
    }
}

/// Patching rows cannot fail: no row is too long afterwards, and there are enough page
/// numbers.
pub open spec fn change_where_owed(
    m: Map<u32, Seq<u8>>,
    v: TableView,
    fs: Seq<FilterView>,
    ps: Seq<(u16, ValueView)>,
    max: u32,
    total: int,
) -> bool {
    &&& patches_within(m, v, fs, ps, max)
    &&& total + store::row_pages(v, max) * hits(m, v, fs).len() <= u32::MAX
}

/// Numbers of rows without repetition are as many as the rows that they pick.
proof fn hits_counted(
    m: Map<u32, Seq<u8>>,
    v: TableView,
    fs: Seq<FilterView>,
    ids: Seq<u64>,
)
    requires
        ids.no_duplicates(),
        forall|i: int| 0 <= i < ids.len() ==> store::table_rows(m, v).contains_key(#[trigger] ids[i]),
        forall|k: u64|
            store::table_rows(m, v).contains_key(k) ==> (#[trigger] ids.contains(k)) == hit(
                m,
                v,
                fs,
                k,
            ),
    ensures
        ids.len() == hits(m, v, fs).len(),
{
    ids.unique_seq_to_set();
    assert(ids.to_set() =~= hits(m, v, fs));
}

/// The changed rows are those that the filters accept.
proof fn changes_are_hits(
    m: Map<u32, Seq<u8>>,
    v: TableView,
    fs: Seq<FilterView>,
    ps: Seq<(u16, ValueView)>,
    rows: Map<u64, Seq<u8>>,
    a: Seq<(u64, Seq<u8>, Seq<u8>)>,
    b: Seq<(u64, Seq<u8>, Seq<u8>)>,
)
    requires
        rows == store::table_rows(m, v),
        changes_right(rows, ps, a),
        changes_right(rows, ps, b),
        (changed_ids(a) + changed_ids(b)).no_duplicates(),
        forall|k: u64|
            rows.contains_key(k) ==> (#[trigger] (changed_ids(a) + changed_ids(b)).contains(k)) == hit(
                m,
                v,
                fs,
                k,
            ),
    ensures
        forall|x: int|
            0 <= x < a.len() ==> hit(m, v, fs, (#[trigger] a[x]).0) && a[x].2 == patched(
                rows[a[x].0],
                ps,
            ),
        forall|x: int|
            0 <= x < b.len() ==> hit(m, v, fs, (#[trigger] b[x]).0) && b[x].2 == patched(
                rows[b[x].0],
                ps,
            ),
        a.len() + b.len() == hits(m, v, fs).len(),
        forall|max: u32|
            #![trigger patches_within(m, v, fs, ps, max)]
            changes_within(a, ps, max) && changes_within(b, ps, max) ==> patches_within(m, v, fs, ps, max),
        forall|max: u32|
            #![trigger patches_within(m, v, fs, ps, max)]
            patches_within(m, v, fs, ps, max) ==> changes_within(a, ps, max) && changes_within(b, ps, max),
{
    let ids = changed_ids(a) + changed_ids(b);
    assert forall|x: int| 0 <= x < a.len() implies hit(m, v, fs, (#[trigger] a[x]).0) by {
        assert(ids[x] == a[x].0);
        assert(ids.contains(a[x].0));
        assert(rows.contains_key(a[x].0));
    }
    assert forall|x: int| 0 <= x < b.len() implies hit(m, v, fs, (#[trigger] b[x]).0) by {
        assert(ids[a.len() + x] == b[x].0);
        assert(ids.contains(b[x].0));
        assert(rows.contains_key(b[x].0));
    }
    assert forall|i: int| 0 <= i < ids.len() implies rows.contains_key(#[trigger] ids[i]) by {
        if i < a.len() {
            assert(ids[i] == a[i].0);
        } else {
            assert(ids[i] == b[i - a.len()].0);
        }
    }
    hits_counted(m, v, fs, ids);
    assert forall|max: u32| changes_within(a, ps, max) && changes_within(b, ps, max) implies #[trigger] patches_within(
        m,
        v,
        fs,
        ps,
        max,
    ) by {
        assert forall|k: u64| #[trigger] hit(m, v, fs, k) implies patch_fits(rows[k], ps, max) by {
            assert(ids.contains(k));
            let i = choose|i: int| 0 <= i < ids.len() && ids[i] == k;
            if i < a.len() {
                assert(a[i].0 == k);
                assert(change_within(a[i], ps, max));
            } else {
                assert(b[i - a.len()].0 == k);
                assert(change_within(b[i - a.len()], ps, max));
            }
        }
    }
}

/// The page numbers for the parts of an update.
proof fn pages_parted(v: TableView, max: u32, p: int, q: int, total: int)
    requires
        0 <= p,
        0 <= q,
        0 <= total,
        total + store::row_pages(v, max) * (p + q) <= u32::MAX,
    ensures
        p + q <= u32::MAX,
        total + leaf_pages(max) * q + 66 * v.indexes.len() * p + 66 * v.indexes.len() * q
            <= u32::MAX,
        0 <= leaf_pages(max) * q,
        0 <= 66 * v.indexes.len() * p,
        0 <= 66 * v.indexes.len() * q,
{
    let ix = v.indexes.len() as int;
    let c = leaf_pages(max);
    room::pages_grow(0, max as int);
    assert(store::row_pages(v, max) == c + 66 * ix);
    assert((c + 66 * ix) * (p + q) == c * p + c * q + 66 * ix * p + 66 * ix * q && c * p >= p && c * q
        >= q && 66 * ix * p >= 0 && 66 * ix * q >= 0) by (nonlinear_arith)
        requires
            ix >= 0,
            c >= 66,
            p >= 0,
            q >= 0,
    ;
}

/// Updates the rows of a table that match, and returns how many.
pub fn change_where(
    guard: &mut WriteGuard,
    meta: &mut TableMeta,
    filters: &[Filter],
    fields: &[(&str, Value)],
    max: u32,
) -> (r: Result<u64>)
    requires
        old(guard).wf(),
    ensures
        r is Ok && file::tidy(old(guard).pages()) ==> file::tidy(final(guard).pages()),
        store::unpublished(*old(guard), *final(guard), old(meta)@.encrypted),
        store::rerooted(old(meta)@, final(meta)@),
        engine::table_sound(old(guard).pages(), old(meta)@) && patches_storable(
            old(guard).pages(),
            old(meta)@,
            query::filters_view(filters@),
            engine::picked(old(meta)@.columns, engine::data_view(fields@)),
        ) ==> change_where_outcome(
            old(guard).pages(),
            final(guard).pages(),
            old(meta)@,
            final(meta)@,
            query::filters_view(filters@),
            engine::picked(old(meta)@.columns, engine::data_view(fields@)),
            max,
            r,
        ),
        engine::table_sound(old(guard).pages(), old(meta)@) && patches_storable(
            old(guard).pages(),
            old(meta)@,
            query::filters_view(filters@),
            engine::picked(old(meta)@.columns, engine::data_view(fields@)),
        ) && change_where_owed(
            old(guard).pages(),
            old(meta)@,
            query::filters_view(filters@),
            engine::picked(old(meta)@.columns, engine::data_view(fields@)),
            max,
            old(guard).total() as int,
        ) ==> r is Ok,
        ({
            let m = old(guard).pages();
            let v = old(meta)@;
            let fs = query::filters_view(filters@);
            let ps = engine::picked(v.columns, engine::data_view(fields@));
            engine::table_sound(m, v) && patches_readable(m, v, fs, ps) && patches_within(
                m,
                v,
                fs,
                ps,
                max,
            ) && !patches_storable(m, v, fs, ps) ==> (r matches Err(e) && patch_unlistable(
                m,
                v,
                fs,
                ps,
                e,
            ))
        }),
{
    let ghost m = guard.pages();
    let ghost v = meta@;
    let ghost fs = query::filters_view(filters@);
    let ghost ps = engine::picked(v.columns, engine::data_view(fields@));
    let ghost rows = store::table_rows(m, v);
    let ghost good = engine::table_sound(m, v) && patches_storable(m, v, fs, ps);
    let ghost sound = engine::table_sound(m, v) && patches_readable(m, v, fs, ps);
    let fixed = meta.clone();
    let sets = pick_columns(&fixed, fields);
    let pred = |data: &[u8]| -> (b: bool)
        ensures
            b == query::passes(fixed@.columns, query::filters_view(filters@), data@),
        { row_passes(&fixed, filters, data) };
    let updater = |data: &[u8]| -> (b: Vec<u8>)
        requires
            data@.len() >= 8,
        ensures
            b@ == patched(data@, row::cols_view(sets@)),
            b@.len() >= 8,
            btree_node::id_of(b@) == btree_node::id_of(data@),
        { patch_columns(data, sets.as_slice()) };
    proof {
        assert(btree_bulk::decides(pred, passing(v, fs)));
        assert(btree_bulk::renews(updater, patching(ps)));
        if sound {
            tree_ready(m, v);
            reveal(engine::table_sound);
            store::always_workable(m, v);
        }
    }
    guard.set_sealed(meta.encrypted);
    let tree = BTreeWriter::new(meta.root_page);
    let (in_place, moved): (Vec<(u64, Vec<u8>, Vec<u8>)>, Vec<(u64, Vec<u8>, Vec<u8>)>) =
        tree.update_matching(guard, pred, updater)?;
    let ghost m1 = guard.pages();
    let ghost a = btree_bulk::triples(in_place@);
    let ghost b = btree_bulk::triples(moved@);
    let ghost ids = changed_ids(a) + changed_ids(b);
    proof {
        if sound {
            rows_renewed(m, m1, v, fs, ps, rows, a, b, guard.cap());
            changes_are_hits(m, v, fs, ps, rows, a, b);
        }
        if good {
            updated_ready(m, v, fs, ps, a, b);
            if change_where_owed(m, v, fs, ps, max, guard.total() as int) {
                pages_parted(v, max, a.len() as int, b.len() as int, guard.total() as int);
            }
        }
    }
    match over_limit(&in_place, sets.as_slice(), max) {
        Some(n) => {
            return Err(BoogyError::RowTooLarge(n));
        },
        None => {},
    }
    match over_limit(&moved, sets.as_slice(), max) {
        Some(n) => {
            return Err(BoogyError::RowTooLarge(n));
        },
        None => {},
    }
    assert(good ==> patches_within(m, v, fs, ps, max));
    match check_changes(meta, &in_place) {
        Ok(_) => {},
        Err(e) => {
            proof {
                let x = choose|x: int|
                    0 <= x < a.len() && store::unlistable(v, (#[trigger] a[x]).2, a[x].0, e);
                store::unlistable_not(v, a[x].2, a[x].0, e);
                assert(sound ==> hit(m, v, fs, a[x].0));
            }
            return Err(e);
        },
    }
    match check_changes(meta, &moved) {
        Ok(_) => {},
        Err(e) => {
            proof {
                let x = choose|x: int|
                    0 <= x < b.len() && store::unlistable(v, (#[trigger] b[x]).2, b[x].0, e);
                store::unlistable_not(v, b[x].2, b[x].0, e);
                assert(sound ==> hit(m, v, fs, b[x].0));
            }
            return Err(e);
        },
    }
    proof {
        if sound {
            assert forall|k: u64|
                rows.contains_key(k) && #[trigger] hit(m, v, fs, k) implies store::indexable(
                v,
                patched(rows[k], ps),
                k,
            ) by {
                assert(ids.contains(k));
                let x = choose|x: int| 0 <= x < ids.len() && ids[x] == k;
                if x < a.len() {
                    assert(a[x].0 == k);
                } else {
                    assert(b[x - a.len()].0 == k);
                }
            }
            assert(good);
        }
    }
    replace_all(
        guard,
        meta,
        &moved,
        Ghost(rows),
        Ghost(changed_ids(a)),
        Ghost(ps),
        Ghost(max),
    )?;
    let ghost m2 = guard.pages();
    let ghost v2 = meta@;
    proof {
        if good {
            store::only_table_then(m, m1, m2, v, v, v2);
        }
    }
    if meta.indexes.len() > 0 {
        proof {
            if good {
                reindex_start(m2, v, v2, rows, ps, a, b);
            }
        }
        reindex_all(
            guard,
            meta,
            &in_place,
            Ghost(rows),
            Ghost(ids),
            Ghost(0),
            Ghost(ps),
        )?;
        let ghost m3 = guard.pages();
        let ghost v3 = meta@;
        proof {
            if good {
                store::only_table_then(m, m2, m3, v, v2, v3);
                reindex_next(m3, v, v3, rows, ps, a, b);
            }
        }
        reindex_all(
            guard,
            meta,
            &moved,
            Ghost(rows),
            Ghost(ids),
            Ghost(a.len() as int),
            Ghost(ps),
        )?;
        proof {
            if good {
                store::only_table_then(m, m3, guard.pages(), v, v3, meta@);
                assert(ids.take(a.len() + b.len() as int) =~= ids);
            }
        }
    }
    proof {
        if good {
            assert forall|i: int| 0 <= i < ids.len() implies rows.contains_key(#[trigger] ids[i]) by {
                if i < a.len() {
                    assert(ids[i] == a[i].0);
                } else {
                    assert(ids[i] == b[i - a.len()].0);
                }
            }
            change_where_done(m, guard.pages(), v, meta@, fs, ps, ids);
        }
    }
    let n: u64 = in_place.len() as u64;
    let k: u64 = moved.len() as u64;
    if n > u64::MAX - k {
        return Err(crate::error::corruption("too many rows"));
    }
    Ok(n + k)
}

/// The tree of a table in order can be walked by the update.
proof fn tree_ready(m: Map<u32, Seq<u8>>, v: TableView)
    requires
        engine::table_sound(m, v),
    ensures
        store::stage(m, v, store::table_rows(m, v), store::table_rows(m, v), 0),
        btree::is_tree(m, v.root_page),
        btree_bulk::all_sound(m, btree::all_cells(m, v.root_page)),
        !btree_bulk::broken(m, btree::all_cells(m, v.root_page)),
{
    reveal(engine::table_sound);
    reveal(store::table_ok);
    store::cells_sound(m, v.root_page);
}

/// All updates of the tree can be stored and listed.
proof fn updated_ready(
    m: Map<u32, Seq<u8>>,
    v: TableView,
    fs: Seq<FilterView>,
    ps: Seq<(u16, ValueView)>,
    a: Seq<(u64, Seq<u8>, Seq<u8>)>,
    b: Seq<(u64, Seq<u8>, Seq<u8>)>,
)
    requires
        engine::table_sound(m, v),
        patches_storable(m, v, fs, ps),
        changes_right(store::table_rows(m, v), ps, a),
        changes_right(store::table_rows(m, v), ps, b),
        forall|k: u64|
            store::table_rows(m, v).contains_key(k) ==> (#[trigger] (changed_ids(a) + changed_ids(
                b,
            )).contains(k)) == hit(m, v, fs, k),
    ensures
        forall|x: int|
            0 <= x < a.len() ==> {
                &&& store::indexable(v, (#[trigger] a[x]).1, a[x].0)
                &&& store::indexable(v, a[x].2, a[x].0)
            },
        forall|x: int|
            0 <= x < b.len() ==> {
                &&& store::readable((#[trigger] b[x]).2)
                &&& store::indexable(v, b[x].1, b[x].0)
                &&& store::indexable(v, b[x].2, b[x].0)
                &&& store::table_rows(m, v)[b[x].0].len() >= 8
                &&& btree_node::id_of(store::table_rows(m, v)[b[x].0]) == b[x].0
            },
{
    let ids = changed_ids(a) + changed_ids(b);
    assert forall|x: int| 0 <= x < a.len() implies hit(m, v, fs, (#[trigger] a[x]).0) by {
        assert(ids[x] == a[x].0);
        assert(ids.contains(a[x].0));
        assert(store::table_rows(m, v).contains_key(a[x].0));
    }
    assert forall|x: int| 0 <= x < b.len() implies hit(m, v, fs, (#[trigger] b[x]).0) by {
        assert(ids[a.len() + x] == b[x].0);
        assert(ids.contains(b[x].0));
        assert(store::table_rows(m, v).contains_key(b[x].0));
    }
    change_where_ready(m, v, fs, ps, a);
    change_where_ready(m, v, fs, ps, b);
}

proof fn reindex_start(
    m: Map<u32, Seq<u8>>,
    v: TableView,
    v2: TableView,
    rows: Map<u64, Seq<u8>>,
    ps: Seq<(u16, ValueView)>,
    a: Seq<(u64, Seq<u8>, Seq<u8>)>,
    b: Seq<(u64, Seq<u8>, Seq<u8>)>,
)
    requires
        store::stage(m, v2, rows, rows, 0),
        store::rerooted(v, v2),
        changes_right(rows, ps, a),
        (changed_ids(a) + changed_ids(b)).no_duplicates(),
        forall|x: int|
            0 <= x < a.len() ==> store::indexable(v, (#[trigger] a[x]).1, a[x].0)
                && store::indexable(v, a[x].2, a[x].0),
    ensures
        reindex_ready(m, v2, rows, changed_ids(a) + changed_ids(b), 0, a, ps),
{
    let ids = changed_ids(a) + changed_ids(b);
    assert(swapped(rows, ids.take(0), ps) =~= rows);
    assert(ids.subrange(0, a.len() as int) =~= changed_ids(a));
    assert forall|x: int| 0 <= x < a.len() implies store::indexable(
        v2,
        (#[trigger] a[x]).1,
        a[x].0,
    ) && store::indexable(v2, a[x].2, a[x].0) by {
        store::rerooted_indexable(v, v2, a[x].1, a[x].0);
        store::rerooted_indexable(v, v2, a[x].2, a[x].0);
    }
}

proof fn reindex_next(
    m: Map<u32, Seq<u8>>,
    v: TableView,
    v2: TableView,
    rows: Map<u64, Seq<u8>>,
    ps: Seq<(u16, ValueView)>,
    a: Seq<(u64, Seq<u8>, Seq<u8>)>,
    b: Seq<(u64, Seq<u8>, Seq<u8>)>,
)
    requires
        ({
            let now = swapped(
                rows,
                (changed_ids(a) + changed_ids(b)).take(0 + a.len() as int),
                ps,
            );
            store::stage(m, v2, now, now, 0)
        }),
        store::rerooted(v, v2),
        changes_right(rows, ps, b),
        (changed_ids(a) + changed_ids(b)).no_duplicates(),
        forall|x: int|
            0 <= x < b.len() ==> store::indexable(v, (#[trigger] b[x]).1, b[x].0)
                && store::indexable(v, b[x].2, b[x].0),
    ensures
        reindex_ready(m, v2, rows, changed_ids(a) + changed_ids(b), a.len() as int, b, ps),
{
    let ids = changed_ids(a) + changed_ids(b);
    assert(ids.subrange(a.len() as int, a.len() + b.len() as int) =~= changed_ids(b));
    assert forall|x: int| 0 <= x < b.len() implies store::indexable(
        v2,
        (#[trigger] b[x]).1,
        b[x].0,
    ) && store::indexable(v2, b[x].2, b[x].0) by {
        store::rerooted_indexable(v, v2, b[x].1, b[x].0);
        store::rerooted_indexable(v, v2, b[x].2, b[x].0);
    }
}

}
