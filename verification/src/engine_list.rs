//! Many rows of a table, one after the other.

use crate::engine;
use crate::engine::{change_row, drop_row};
use crate::engine_bulk;
use crate::error::{BoogyError, Result};
use crate::file;
use crate::file::WriteGuard;
use crate::filter::FilterView;
use crate::query;
use crate::room;
use crate::row;
use crate::store;
use crate::table::TableView;
use crate::value::{Value, ValueView};
use vstd::prelude::*;

verus! {

/// What comes of removing listed rows.
pub open spec fn drop_listed_outcome(
    m: Map<u32, Seq<u8>>,
    m2: Map<u32, Seq<u8>>,
    v: TableView,
    v2: TableView,
    ids: Seq<u64>,
    r: Result<u64>,
) -> bool {
    match r {
        Ok(n) => {
            &&& n == ids.len()
            &&& engine::table_sound(m2, v2)
            &&& store::table_rows(m2, v2) == engine_bulk::without(store::table_rows(m, v), ids)
            &&& store::only_table(m, m2, v, v2)
        },
        Err(e) => store::tree_error(e) && !store::workable(m, v),
    }
}

/// The numbers name rows of a table, each once.
pub open spec fn ids_name(m: Map<u32, Seq<u8>>, v: TableView, ids: Seq<u64>) -> bool {
    &&& ids.no_duplicates()
    &&& forall|i: int| 0 <= i < ids.len() ==> store::table_rows(m, v).contains_key(#[trigger] ids[i])
}

proof fn same_table_then(v: TableView, v1: TableView, v2: TableView)
    requires
        engine::same_table(v, v1),
        engine::same_table(v1, v2),
    ensures
        engine::same_table(v, v2),
{
}

/// Removes listed rows.
pub fn drop_listed(guard: &mut WriteGuard, meta: &mut crate::table::TableMeta, ids: &Vec<u64>) -> (r:
    Result<u64>)
    requires
        old(guard).wf(),
    ensures
        r is Ok && file::tidy(old(guard).pages()) ==> file::tidy(final(guard).pages()),
        store::unpublished(*old(guard), *final(guard), old(meta)@.encrypted),
        engine::same_table(old(meta)@, final(meta)@),
        final(meta)@.next_rowid == old(meta)@.next_rowid,
        engine::table_sound(old(guard).pages(), old(meta)@) && ids_name(
            old(guard).pages(),
            old(meta)@,
            ids@,
        ) ==> drop_listed_outcome(
            old(guard).pages(),
            final(guard).pages(),
            old(meta)@,
            final(meta)@,
            ids@,
            r,
        ),
{
    let ghost m = guard.pages();
    let ghost v = meta@;
    let ghost rows = store::table_rows(m, v);
    let ghost good = engine::table_sound(m, v) && ids_name(m, v, ids@);
    let n: usize = ids.len();
    let mut count: u64 = 0;
    let mut x: usize = 0;
    proof {
        engine_bulk::without_none(rows, ids@);
        store::only_table_none(m, v);
    }
    while x < n
        invariant
            x <= n,
            n == ids@.len(),
            count <= x,
            store::unpublished(*old(guard), *guard, old(meta)@.encrypted),
            file::tidy(old(guard).pages()) ==> file::tidy(guard.pages()),
            engine::same_table(v, meta@),
            meta@.next_rowid == v.next_rowid,
            good ==> {
                &&& ids_name(m, v, ids@)
                &&& count == x
                &&& engine::table_sound(guard.pages(), meta@)
                &&& store::table_rows(guard.pages(), meta@) == engine_bulk::without(
                    rows,
                    ids@.take(x as int),
                )
                &&& store::only_table(m, guard.pages(), v, meta@)
                &&& store::workable(m, v) ==> store::workable(guard.pages(), meta@)
            },
            rows == store::table_rows(m, v),
            m == old(guard).pages(),
            v == old(meta)@,
            good == (engine::table_sound(m, v) && ids_name(m, v, ids@)),
        decreases n - x,
    {
        let ghost mx = guard.pages();
        let ghost vx = meta@;
        proof {
            if good {
                engine_bulk::without_step(rows, ids@, x as int);
            }
        }
        let gone: bool = drop_row(guard, meta, ids[x])?;
        proof {
            same_table_then(v, vx, meta@);
            if good {
                store::only_table_then(m, mx, guard.pages(), v, vx, meta@);
            }
        }
        if gone {
            count = count + 1;
        }
        x += 1;
    }
    assert(ids@.take(n as int) =~= ids@);
    Ok(count)
}

/// Rows of which the listed ones have new fields.
pub open spec fn refreshed(
    v: TableView,
    rows: Map<u64, Seq<u8>>,
    ids: Seq<u64>,
    fields: Seq<(Seq<char>, ValueView)>,
) -> Map<u64, Seq<u8>> {
    Map::new(
        |k: u64| rows.contains_key(k),
        |k: u64|
            if ids.contains(k) {
                engine::updated_row(v, k, rows[k], fields)
            } else {
                rows[k]
            },
    )
}

/// The new bytes of the listed rows can be read back.
pub open spec fn refreshable(
    m: Map<u32, Seq<u8>>,
    v: TableView,
    ids: Seq<u64>,
    fields: Seq<(Seq<char>, ValueView)>,
) -> bool {
    let rows = store::table_rows(m, v);
    forall|i: int|
        0 <= i < ids.len() ==> {
            let k = #[trigger] ids[i];
            store::readable(engine::updated_row(v, k, rows[k], fields))
        }
}

/// The indexes cannot list the new bytes of one of the listed rows.
pub open spec fn listed_unlistable(
    rows: Map<u64, Seq<u8>>,
    v: TableView,
    ids: Seq<u64>,
    fields: Seq<(Seq<char>, ValueView)>,
    e: BoogyError,
) -> bool {
    exists|i: int|
        0 <= i < ids.len() && store::unlistable(
            v,
            engine::updated_row(v, #[trigger] ids[i], rows[ids[i]], fields),
            ids[i],
            e,
        )
}

proof fn refreshed_step(
    v: TableView,
    rows: Map<u64, Seq<u8>>,
    ids: Seq<u64>,
    fields: Seq<(Seq<char>, ValueView)>,
    x: int,
)
    requires
        0 <= x < ids.len(),
        ids.no_duplicates(),
        rows.contains_key(ids[x]),
    ensures
        refreshed(v, rows, ids.take(x + 1), fields) == refreshed(
            v,
            rows,
            ids.take(x),
            fields,
        ).insert(ids[x], engine::updated_row(v, ids[x], rows[ids[x]], fields)),
        refreshed(v, rows, ids.take(x), fields).contains_key(ids[x]),
        refreshed(v, rows, ids.take(x), fields)[ids[x]] == rows[ids[x]],
{
    let a = ids.take(x);
    let b = ids.take(x + 1);
    assert forall|k: u64| b.contains(k) == (a.contains(k) || k == ids[x]) by {
        if b.contains(k) {
            let i = choose|i: int| 0 <= i < b.len() && b[i] == k;
            if i < x {
                assert(a[i] == k);
            }
        }
        if a.contains(k) {
            let i = choose|i: int| 0 <= i < a.len() && a[i] == k;
            assert(b[i] == k);
        }
        assert(b[x] == ids[x]);
    }
    assert(!a.contains(ids[x])) by {
        if a.contains(ids[x]) {
            let i = choose|i: int| 0 <= i < a.len() && a[i] == ids[x];
            assert(ids[i] == ids[x]);
        }
    }
    assert(refreshed(v, rows, b, fields) =~= refreshed(v, rows, a, fields).insert(
        ids[x],
        engine::updated_row(v, ids[x], rows[ids[x]], fields),
    ));
}

/// What is stored and listed of a row depends on the columns alone.
pub proof fn columns_decide(v: TableView, w: TableView, k: u64, b: Seq<u8>, fields: Seq<(Seq<char>, ValueView)>)
    requires
        engine::same_table(v, w),
    ensures
        engine::updated_row(v, k, b, fields) == engine::updated_row(w, k, b, fields),
        engine::new_row(v, k, fields) == engine::new_row(w, k, fields),
        forall|c: Seq<u8>| #[trigger] store::indexable(w, c, k) == store::indexable(v, c, k),
        engine::types_ok(w, fields) == engine::types_ok(v, fields),
        engine::locked(w) == engine::locked(v),
{
    reveal(engine::updated_row);
    let u = TableView { row_count: v.row_count, next_rowid: v.next_rowid, ..w };
    assert forall|c: Seq<u8>| #[trigger] store::indexable(w, c, k) == store::indexable(v, c, k) by {
        store::rerooted_indexable(v, u, c, k);
        engine::trees_decide(Map::empty(), u, w);
        assert(store::indexable(u, c, k) == store::indexable(w, c, k));
    }
    assert forall|i: int| 0 <= i < v.indexes.len() implies #[trigger] engine::index_type_ok(
        w.columns,
        w.indexes[i],
        fields,
    ) == engine::index_type_ok(v.columns, v.indexes[i], fields) by {
        assert(u.indexes[i] == w.indexes[i]);
    }
    if engine::types_ok(v, fields) {
        assert forall|i: int| 0 <= i < w.indexes.len() implies engine::index_type_ok(
            w.columns,
            #[trigger] w.indexes[i],
            fields,
        ) by {
            assert(engine::index_type_ok(v.columns, v.indexes[i], fields));
            assert(engine::index_type_ok(w.columns, w.indexes[i], fields));
        }
    }
    if engine::types_ok(w, fields) {
        assert forall|i: int| 0 <= i < v.indexes.len() implies engine::index_type_ok(
            v.columns,
            #[trigger] v.indexes[i],
            fields,
        ) by {
            assert(engine::index_type_ok(w.columns, w.indexes[i], fields));
        }
    }
}

/// Giving listed rows new fields can only fail if the indexes cannot list them: they can
/// be decoded, are not too long afterwards, and there are enough page numbers.
pub open spec fn listed_owed(
    rows: Map<u64, Seq<u8>>,
    v: TableView,
    ids: Seq<u64>,
    fields: Seq<(Seq<char>, ValueView)>,
    max: u32,
    total: int,
) -> bool {
    &&& forall|i: int|
        0 <= i < ids.len() ==> {
            let k = #[trigger] ids[i];
            row::decodable(rows[k]) && engine::change_fits(v, k, rows[k], fields, max)
        }
    &&& total + store::row_pages(v, max) * ids.len() <= u32::MAX
}

/// One of the listed rows would be longer than allowed.
pub open spec fn listed_too_large(
    rows: Map<u64, Seq<u8>>,
    v: TableView,
    ids: Seq<u64>,
    fields: Seq<(Seq<char>, ValueView)>,
    max: u32,
    n: int,
) -> bool {
    exists|i: int|
        0 <= i < ids.len() && row::decodable(rows[#[trigger] ids[i]]) && !engine::change_fits(
            v,
            ids[i],
            rows[ids[i]],
            fields,
            max,
        ) && engine::updated_row(v, ids[i], rows[ids[i]], fields).len() == n
}

/// What comes of giving listed rows new fields.
pub open spec fn change_listed_outcome(
    m: Map<u32, Seq<u8>>,
    m2: Map<u32, Seq<u8>>,
    v: TableView,
    v2: TableView,
    ids: Seq<u64>,
    fields: Seq<(Seq<char>, ValueView)>,
    max: u32,
    total: int,
    r: Result<u64>,
) -> bool {
    match r {
        Ok(n) => {
            &&& n == ids.len()
            &&& forall|i: int|
                0 <= i < ids.len() ==> engine::change_fits(
                    v,
                    #[trigger] ids[i],
                    store::table_rows(m, v)[ids[i]],
                    fields,
                    max,
                ) && store::indexable(
                    v,
                    engine::updated_row(v, ids[i], store::table_rows(m, v)[ids[i]], fields),
                    ids[i],
                )
            &&& engine::table_sound(m2, v2)
            &&& store::table_rows(m2, v2) == refreshed(v, store::table_rows(m, v), ids, fields)
            &&& store::only_table(m, m2, v, v2)
        },
        Err(BoogyError::RowTooLarge(n)) => listed_too_large(
            store::table_rows(m, v),
            v,
            ids,
            fields,
            max,
            n as int,
        ),
        Err(e) => {
            &&& store::tree_error(e)
            &&& ids.len() > 0
            &&& ids.len() == 1 ==> !engine::change_owed(m, v, ids[0], fields, max, total)
            &&& listed_owed(store::table_rows(m, v), v, ids, fields, max, total)
                ==> listed_unlistable(store::table_rows(m, v), v, ids, fields, e)
        },
    }
}

/// After some of the listed rows, the next one can be changed too.
proof fn listed_next(
    rows: Map<u64, Seq<u8>>,
    mx: Map<u32, Seq<u8>>,
    v: TableView,
    vx: TableView,
    ids: Seq<u64>,
    fields: Seq<(Seq<char>, ValueView)>,
    max: u32,
    first: int,
    total: int,
    x: int,
)
    requires
        listed_owed(rows, v, ids, fields, max, first),
        0 <= x < ids.len(),
        engine::same_table(v, vx),
        total <= first + store::row_pages(v, max) * x,
        store::table_rows(mx, vx).contains_key(ids[x]),
        store::table_rows(mx, vx)[ids[x]] == rows[ids[x]],
        ({
            let bytes = engine::updated_row(v, ids[x], rows[ids[x]], fields);
            store::readable(bytes) && store::indexable(v, bytes, ids[x])
        }),
    ensures
        engine::change_owed(mx, vx, ids[x], fields, max, total),
        store::most_pages(
            vx,
            engine::updated_row(vx, ids[x], rows[ids[x]], fields).len() as int,
        ) <= store::row_pages(v, max),
        store::row_pages(v, max) * (x + 1) == store::row_pages(v, max) * x + store::row_pages(
            v,
            max,
        ),
{
    let k = ids[x];
    columns_decide(v, vx, k, rows[k], fields);
    room::some_steps(v, max, x + 1, ids.len() as int);
    room::one_step_more(v, max, x);
    room::pages_grow(
        engine::updated_row(v, k, rows[k], fields).len() as int,
        max as int,
    );
}

/// What can be listed does not depend on the roots and counts of a table.
pub proof fn relisted_rows(v: TableView, vx: TableView)
    requires
        engine::same_table(v, vx),
    ensures
        forall|b: Seq<u8>, k: u64| #[trigger]
            store::indexable(vx, b, k) == store::indexable(v, b, k),
{
    let u = TableView { row_count: v.row_count, next_rowid: v.next_rowid, ..vx };
    assert forall|b: Seq<u8>, k: u64| #[trigger]
        store::indexable(vx, b, k) == store::indexable(v, b, k) by {
        store::rerooted_indexable(v, u, b, k);
        assert(store::indexable(u, b, k) == store::indexable(vx, b, k)) by {
            engine::trees_decide(Map::empty(), u, vx);
        }
    }
}

/// Which error comes does not depend on the roots and counts of a table.
pub proof fn relisted(v: TableView, vx: TableView, bytes: Seq<u8>, k: u64, e: BoogyError)
    requires
        engine::same_table(v, vx),
    ensures
        store::unlistable(vx, bytes, k, e) ==> store::unlistable(v, bytes, k, e),
{
    if store::unlistable(vx, bytes, k, e) {
        let j = choose|j: int|
            0 <= j < vx.indexes.len() && #[trigger] store::entry_fault(
                store::entry_of(vx.columns, vx.indexes[j], bytes, k),
                e,
            ) && forall|i: int|
                0 <= i < j ==> store::short_entry(
                    #[trigger] store::entry_of(vx.columns, vx.indexes[i], bytes, k),
                );
        let u = TableView { row_count: v.row_count, next_rowid: v.next_rowid, ..vx };
        assert(u.indexes == vx.indexes && u.columns == vx.columns);
        assert forall|i: int| 0 <= i < v.indexes.len() implies #[trigger] store::entry_of(
            v.columns,
            v.indexes[i],
            bytes,
            k,
        ) == store::entry_of(vx.columns, vx.indexes[i], bytes, k) by {
            assert(u.indexes[i] == vx.indexes[i]);
        }
        assert(store::entry_fault(store::entry_of(v.columns, v.indexes[j], bytes, k), e));
        assert forall|i: int| 0 <= i < j implies store::short_entry(
            #[trigger] store::entry_of(v.columns, v.indexes[i], bytes, k),
        ) by {
            assert(store::short_entry(store::entry_of(vx.columns, vx.indexes[i], bytes, k)));
        }
    }
}

/// Gives listed rows new fields.
#[verifier::rlimit(60)]
#[verifier::spinoff_prover]
pub fn change_listed(
    guard: &mut WriteGuard,
    meta: &mut crate::table::TableMeta,
    ids: &Vec<u64>,
    fields: &[(&str, Value)],
    max: u32,
) -> (r: Result<u64>)
    requires
        old(guard).wf(),
    ensures
        r is Ok && file::tidy(old(guard).pages()) ==> file::tidy(final(guard).pages()),
        store::unpublished(*old(guard), *final(guard), old(meta)@.encrypted),
        engine::same_table(old(meta)@, final(meta)@),
        final(meta)@.next_rowid == old(meta)@.next_rowid,
        final(meta)@.row_count == old(meta)@.row_count,
        engine::table_sound(old(guard).pages(), old(meta)@) && ids_name(
            old(guard).pages(),
            old(meta)@,
            ids@,
        ) && refreshable(
            old(guard).pages(),
            old(meta)@,
            ids@,
            engine::data_view(fields@),
        ) ==> change_listed_outcome(
            old(guard).pages(),
            final(guard).pages(),
            old(meta)@,
            final(meta)@,
            ids@,
            engine::data_view(fields@),
            max,
            old(guard).total(),
            r,
        ),
{
    let ghost m = guard.pages();
    let ghost v = meta@;
    let ghost fs = engine::data_view(fields@);
    let ghost rows = store::table_rows(m, v);
    let ghost good = engine::table_sound(m, v) && ids_name(m, v, ids@) && refreshable(
        m,
        v,
        ids@,
        fs,
    );
    let ghost owed = good && listed_owed(rows, v, ids@, fs, max, guard.total());
    let n: usize = ids.len();
    let mut count: u64 = 0;
    let mut x: usize = 0;
    proof {
        assert(refreshed(v, rows, ids@.take(0), fs) =~= rows);
        store::only_table_none(m, v);
    }
    while x < n
        invariant
            x <= n,
            n == ids@.len(),
            count <= x,
            store::unpublished(*old(guard), *guard, old(meta)@.encrypted),
            file::tidy(old(guard).pages()) ==> file::tidy(guard.pages()),
            x == 0 ==> *guard == *old(guard) && meta@ == v,
            engine::same_table(v, meta@),
            meta@.next_rowid == v.next_rowid,
            meta@.row_count == v.row_count,
            fs == engine::data_view(fields@),
            good ==> {
                &&& ids_name(m, v, ids@)
                &&& refreshable(m, v, ids@, fs)
                &&& count == x
                &&& forall|j: int|
                    0 <= j < x ==> engine::change_fits(
                        v,
                        #[trigger] ids@[j],
                        rows[ids@[j]],
                        fs,
                        max,
                    ) && store::indexable(
                        v,
                        engine::updated_row(v, ids@[j], rows[ids@[j]], fs),
                        ids@[j],
                    )
                &&& engine::table_sound(guard.pages(), meta@)
                &&& store::table_rows(guard.pages(), meta@) == refreshed(
                    v,
                    rows,
                    ids@.take(x as int),
                    fs,
                )
                &&& store::only_table(m, guard.pages(), v, meta@)
            },
            owed == (good && listed_owed(rows, v, ids@, fs, max, old(guard).total())),
            owed ==> guard.total() <= old(guard).total() + store::row_pages(v, max) * x,
            rows == store::table_rows(m, v),
            m == old(guard).pages(),
            v == old(meta)@,
            good == (engine::table_sound(m, v) && ids_name(m, v, ids@) && refreshable(
                m,
                v,
                ids@,
                fs,
            )),
        decreases n - x,
    {
        let ghost mx = guard.pages();
        let ghost vx = meta@;
        let ghost k = ids@[x as int];
        proof {
            if good {
                refreshed_step(v, rows, ids@, fs, x as int);
                columns_decide(v, vx, k, rows[k], fs);
            }
            if owed && store::indexable(v, engine::updated_row(v, k, rows[k], fs), k) {
                listed_next(rows, mx, v, vx, ids@, fs, max, old(guard).total(), guard.total(), x as int);
            }
        }
        let done: bool = match change_row(guard, meta, ids[x], fields, max) {
            Ok(d) => d,
            Err(e) => {
                proof {
                    if good && !store::indexable(v, engine::updated_row(v, k, rows[k], fs), k) {
                        relisted(v, vx, engine::updated_row(v, k, rows[k], fs), k, e);
                        assert(ids@[x as int] == k);
                    }
                }
                return Err(e);
            },
        };
        proof {
            same_table_then(v, vx, meta@);
            if good {
                store::only_table_then(m, mx, guard.pages(), v, vx, meta@);
            }
        }
        if done {
            count = count + 1;
        }
        x += 1;
    }
    assert(ids@.take(n as int) =~= ids@);
    Ok(count)
}

/// One of the first rows has the number and passes filters.
spec fn passes_before(
    all: Seq<(u64, Vec<u8>)>,
    v: TableView,
    fs: Seq<FilterView>,
    n: int,
    k: u64,
) -> bool {
    exists|j: int|
        0 <= j < n && (#[trigger] all[j]).0 == k && query::passes(v.columns, fs, all[j].1@)
}

/// The numbers of the rows that pass filters.
pub fn passing_ids(
    all: &Vec<(u64, Vec<u8>)>,
    meta: &crate::table::TableMeta,
    filters: &[crate::filter::Filter],
) -> (ids: Vec<u64>)
    ensures
        forall|k: u64| #[trigger]
            ids@.contains(k) <==> exists|i: int|
                0 <= i < all@.len() && (#[trigger] all@[i]).0 == k && query::passes(
                    meta@.columns,
                    query::filters_view(filters@),
                    all@[i].1@,
                ),
        (forall|i: int, j: int|
            0 <= i < j < all@.len() ==> (#[trigger] all@[i]).0 != (#[trigger] all@[j]).0)
            ==> ids@.no_duplicates(),
{
    let n: usize = all.len();
    let mut ids: Vec<u64> = Vec::new();
    let mut i: usize = 0;
    while i < n
        invariant
            i <= n,
            n == all@.len(),
            forall|x: int|
                0 <= x < ids@.len() ==> passes_before(
                    all@,
                    meta@,
                    query::filters_view(filters@),
                    i as int,
                    #[trigger] ids@[x],
                ),
            forall|j: int|
                0 <= j < i && query::passes(
                    meta@.columns,
                    query::filters_view(filters@),
                    (#[trigger] all@[j]).1@,
                ) ==> ids@.contains(all@[j].0),
            (forall|a: int, b: int|
                0 <= a < b < all@.len() ==> (#[trigger] all@[a]).0 != (#[trigger] all@[b]).0)
                ==> ids@.no_duplicates(),
        decreases n - i,
    {
        let ghost before = ids@;
        if query::row_passes(meta, filters, all[i].1.as_slice()) {
            ids.push(all[i].0);
            proof {
                assert forall|j: int|
                    0 <= j < i + 1 && query::passes(
                        meta@.columns,
                        query::filters_view(filters@),
                        (#[trigger] all@[j]).1@,
                    ) implies ids@.contains(all@[j].0) by {
                    if j < i {
                        let x = choose|x: int| 0 <= x < before.len() && before[x] == all@[j].0;
                        assert(ids@[x] == all@[j].0);
                    } else {
                        assert(ids@[before.len() as int] == all@[j].0);
                    }
                }
            }
        }
        proof {
            assert forall|x: int| 0 <= x < ids@.len() implies passes_before(
                all@,
                meta@,
                query::filters_view(filters@),
                i + 1,
                #[trigger] ids@[x],
            ) by {
                if x < before.len() {
                    assert(ids@[x] == before[x]);
                    let j = choose|j: int|
                        0 <= j < i && (#[trigger] all@[j]).0 == before[x] && query::passes(
                            meta@.columns,
                            query::filters_view(filters@),
                            all@[j].1@,
                        );
                    assert(all@[j].0 == ids@[x]);
                } else {
                    assert(all@[i as int].0 == ids@[x]);
                }
            }
        }
        i += 1;
    }
    proof {
        assert forall|k: u64| #[trigger] ids@.contains(k) implies exists|i: int|
            0 <= i < all@.len() && (#[trigger] all@[i]).0 == k && query::passes(
                meta@.columns,
                query::filters_view(filters@),
                all@[i].1@,
            ) by {
            let x = choose|x: int| 0 <= x < ids@.len() && ids@[x] == k;
            assert(ids@[x] == k);
        }
    }
    ids
}

}
