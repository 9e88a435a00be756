//! What a search of vectors gives, and what is found of vectors that were inserted,
//! updated or deleted.

use crate::error::{BoogyError, Result};
use crate::filter;
use crate::filter::{Filter, FilterView};
use crate::find_laws::shown;
use crate::names;
use crate::query;
use crate::query::{columns_in, RowView};
use crate::query_laws;
use crate::query_laws::read_or_null;
use crate::row;
use crate::session;
use crate::session::StateView;
use crate::table;
use crate::value::ValueView;
use crate::vector::catalog;
use crate::vector::catalog::{NamedCollection, VectorCatalog};
use crate::vector::collection;
use crate::vector::collection::{CollectionView, Measure, VectorCollection};
use crate::vector::hnsw;
use crate::vector::types::VectorResult;
use crate::vector::vecfile;
use vstd::prelude::*;

verus! {

// ---------------------------------------------------------------------------
// The filter of a search
// ---------------------------------------------------------------------------

proof fn first_of_name(cols: Seq<(Seq<char>, ValueView)>, name: Seq<char>)
    ensures
        ({
            let x = catalog::first_named(cols, name);
            ||| cols.contains((name, x))
            ||| x == ValueView::Null && forall|y: ValueView| !cols.contains((name, y))
        }),
    decreases cols.len(),
{
    if cols.len() > 0 {
        let rest = cols.skip(1);
        let x = catalog::first_named(cols, name);
        if cols[0].0 == name {
            assert(cols[0] == (name, x));
            assert(cols.contains(cols[0]));
        } else {
            first_of_name(rest, name);
            assert(x == catalog::first_named(rest, name));
            if rest.contains((name, x)) {
                let i = choose|i: int| 0 <= i < rest.len() && rest[i] == (name, x);
                assert(cols[i + 1] == (name, x));
            } else {
                assert forall|y: ValueView| !cols.contains((name, y)) by {
                    if cols.contains((name, y)) {
                        let i = choose|i: int| 0 <= i < cols.len() && cols[i] == (name, y);
                        assert(i > 0);
                        assert(rest[i - 1] == (name, y));
                        assert(rest.contains((name, y)));
                    }
                }
            }
        }
    }
}

/// Among the columns of a row the filter of a search looks at the one that it names, and
/// sees what is read under that name, or null.
pub proof fn filter_looks_at_its_column(r: RowView, name: Seq<char>)
    requires
        row::well_laid(r.data),
        query_laws::tellable(r.names),
    ensures
        catalog::first_named(columns_in(r), name) == read_or_null(r, name),
{
    let x = catalog::first_named(columns_in(r), name);
    first_of_name(columns_in(r), name);
    query_laws::columns_are_values(r, name, x);
    if let Some(y) = query::value_in(r, name) {
        query_laws::columns_are_values(r, name, y);
    }
}

/// The row of a number passes a filter: it is there, and the filter holds of what is read
/// under the name of its column.
pub open spec fn row_passes(s: StateView, table: Seq<char>, f: FilterView, id: u64) -> bool {
    &&& s.rows(session::place_of(s, table)).contains_key(id)
    &&& filter::holds(read_or_null(shown(s, table, id), f.column), f.op, f.value)
}

/// A table whose rows a search can be filtered by.
pub open spec fn filterable(s: StateView, table: Seq<char>) -> bool {
    let i = session::place_of(s, table);
    &&& session::usable(s, table)
    &&& s.in_order(i)
    &&& query_laws::tellable(table::column_names(s.tables[i].columns))
    &&& crate::find_laws::all_well_laid(s.rows(i))
}

/// A search takes a row exactly if it passes the filter, as a query would have it.
pub proof fn allowed_is_passing(s: StateView, table: Seq<char>, f: FilterView, id: u64, b: bool)
    requires
        filterable(s, table),
        catalog::row_allowed(s, table, f, id, b),
    ensures
        b <==> row_passes(s, table, f, id),
        b <==> s.rows(session::place_of(s, table)).contains_key(id) && query::accepts(
            s.tables[session::place_of(s, table)].columns,
            f,
            s.rows(session::place_of(s, table))[id],
        ),
{
    let i = session::place_of(s, table);
    let rows = s.rows(i);
    if rows.contains_key(id) {
        assert(row::well_laid(rows[id]));
        filter_looks_at_its_column(shown(s, table, id), f.column);
        query_laws::filter_sees_named_column(s.tables[i].columns, f, rows[id]);
    }
}

// ---------------------------------------------------------------------------
// Searching
// ---------------------------------------------------------------------------

/// A node whose vector is there and was not deleted.
pub open spec fn in_use(a: CollectionView, node: u32) -> bool {
    node < a.file.header.node_capacity && !a.file.is_gone(node)
}

/// The filter of a search lets the row of a node pass.
pub open spec fn node_passes(
    s: StateView,
    table: Seq<char>,
    a: CollectionView,
    f: Option<Filter>,
    node: u32,
) -> bool {
    match f {
        None => true,
        Some(p) => a.rows.contains_key(node) && row_passes(s, table, p@, a.rows[node]),
    }
}

/// A result is the row of a node that is in use and passes the filter, with the distance of
/// the vector of this node from the query.
pub open spec fn right_result(
    g: Measure,
    s: StateView,
    table: Seq<char>,
    a: CollectionView,
    f: Option<Filter>,
    query: Seq<u32>,
    x: VectorResult,
    node: u32,
) -> bool {
    &&& in_use(a, node)
    &&& a.rows.contains_key(node)
    &&& a.rows[node] == x.rowid
    &&& node_passes(s, table, a, f, node)
    &&& g(query, a.file.vector_of(node), x.distance)
}

/// A result is right. See [`right_result`].
pub open spec fn is_right(
    g: Measure,
    s: StateView,
    table: Seq<char>,
    a: CollectionView,
    f: Option<Filter>,
    query: Seq<u32>,
    x: VectorResult,
) -> bool {
    exists|node: u32| #[trigger] right_result(g, s, table, a, f, query, x, node)
}

/// Where the results come from: each is that of a node that was found, in the same order.
proof fn results_from(rows: Map<u32, u64>, found: Seq<hnsw::Scored>)
    ensures
        ({
            let r = collection::results_of(rows, found);
            &&& r.len() <= found.len()
            &&& forall|i: int|
                0 <= i < r.len() ==> #[trigger] result_at(rows, found, r, i) is Some
            &&& forall|i: int, j: int|
                0 <= i < j < r.len() ==> (#[trigger] result_at(rows, found, r, i))->0 < (
                #[trigger] result_at(rows, found, r, j))->0
            &&& (forall|n: int| 0 <= n < found.len() ==> rows.contains_key((#[trigger] found[n]).0))
                ==> r.len() == found.len()
            &&& forall|n: int|
                0 <= n < found.len() && rows.contains_key((#[trigger] found[n]).0) ==> r.contains(
                    VectorResult { rowid: rows[found[n].0], distance: found[n].1 },
                )
        }),
    decreases found.len(),
{
    let r = collection::results_of(rows, found);
    if found.len() > 0 {
        let few = found.drop_last();
        let rest = collection::results_of(rows, few);
        let l = found.len() - 1;
        results_from(rows, few);
        assert forall|i: int| 0 <= i < r.len() implies #[trigger] result_at(rows, found, r, i)
            == if i < rest.len() {
                result_at(rows, few, rest, i)
            } else {
                Some(l)
            } by {
            if i < rest.len() {
                assert(r[i] == rest[i]);
            }
            place_in_more(rows, found, r, rest, i);
        }
        assert forall|i: int, j: int| 0 <= i < j < r.len() implies (#[trigger] result_at(
            rows,
            found,
            r,
            i,
        ))->0 < (#[trigger] result_at(rows, found, r, j))->0 by {
            assert(result_at(rows, few, rest, i) is Some);
            place_within(rows, few, rest, i);
            if j < rest.len() {
                assert(result_at(rows, few, rest, j) is Some);
            }
        }
        assert forall|n: int|
            0 <= n < found.len() && rows.contains_key((#[trigger] found[n]).0) implies r.contains(
            VectorResult { rowid: rows[found[n].0], distance: found[n].1 },
        ) by {
            let x = VectorResult { rowid: rows[found[n].0], distance: found[n].1 };
            if n < few.len() {
                assert(few[n] == found[n]);
                assert(rest.contains(x));
                let i = choose|i: int| 0 <= i < rest.len() && rest[i] == x;
                assert(r[i] == x);
            } else {
                assert(r[r.len() - 1] == x);
            }
        }
        if forall|n: int| 0 <= n < found.len() ==> rows.contains_key((#[trigger] found[n]).0) {
            assert forall|n: int| 0 <= n < few.len() implies rows.contains_key(
                (#[trigger] few[n]).0,
            ) by {
                assert(few[n] == found[n]);
            }
            assert(rows.contains_key(found[l].0));
        }
    }
}

/// Which of the nodes that were found a result is of.
spec fn result_at(
    rows: Map<u32, u64>,
    found: Seq<hnsw::Scored>,
    r: Seq<VectorResult>,
    i: int,
) -> Option<int>
    decreases found.len(),
{
    if found.len() == 0 {
        None
    } else if rows.contains_key(found.last().0) {
        if i == r.len() - 1 {
            Some(found.len() - 1)
        } else {
            result_at(rows, found.drop_last(), r.drop_last(), i)
        }
    } else {
        result_at(rows, found.drop_last(), r, i)
    }
}

proof fn place_in_more(
    rows: Map<u32, u64>,
    found: Seq<hnsw::Scored>,
    r: Seq<VectorResult>,
    rest: Seq<VectorResult>,
    i: int,
)
    requires
        found.len() > 0,
        r == collection::results_of(rows, found),
        rest == collection::results_of(rows, found.drop_last()),
        0 <= i < r.len(),
    ensures
        result_at(rows, found, r, i) == if i < rest.len() {
            result_at(rows, found.drop_last(), rest, i)
        } else {
            Some(found.len() - 1)
        },
{
    if rows.contains_key(found.last().0) {
        assert(r.drop_last() =~= rest);
    }
}

proof fn place_within(rows: Map<u32, u64>, found: Seq<hnsw::Scored>, r: Seq<VectorResult>, i: int)
    requires
        r == collection::results_of(rows, found),
        0 <= i < r.len(),
    ensures
        result_at(rows, found, r, i) matches Some(n) && 0 <= n < found.len() && rows.contains_key(
            found[n].0,
        ) && r[i] == (VectorResult { rowid: rows[found[n].0], distance: found[n].1 }),
    decreases found.len(),
{
    if found.len() > 0 {
        let rest = collection::results_of(rows, found.drop_last());
        place_in_more(rows, found, r, rest, i);
        if i < rest.len() {
            place_within(rows, found.drop_last(), rest, i);
            assert(r[i] == rest[i]);
            let n = result_at(rows, found.drop_last(), rest, i)->0;
            assert(found.drop_last()[n] == found[n]);
        }
    }
}

/// What a search for the nearest vectors gives: no more results than were asked for, nearest
/// first, each the row of a vector that is there and passes the filter, with the distance
/// of that vector from the query; and no node gives two results.
pub proof fn search_gives_right_rows(
    g: Measure,
    s: StateView,
    table: Seq<char>,
    a: CollectionView,
    f: Option<Filter>,
    query: Seq<u32>,
    k: u32,
    ef_search: u32,
    r: Seq<VectorResult>,
)
    requires
        f is Some ==> filterable(s, table),
        collection::searched(
            g,
            a,
            catalog::filtered(s, table, a.rows, f),
            query,
            k,
            ef_search,
            r,
        ),
    ensures
        r.len() <= k,
        forall|i: int, j: int|
            0 <= i < j < r.len() ==> (#[trigger] r[i]).distance <= (#[trigger] r[j]).distance,
        forall|i: int| 0 <= i < r.len() ==> is_right(g, s, table, a, f, query, #[trigger] r[i]),
        (forall|v: u32, w: u32|
            #![trigger a.rows[v], a.rows[w]]
            a.rows.contains_key(v) && a.rows.contains_key(w) && v != w ==> a.rows[v] != a.rows[w])
            ==> forall|i: int, j: int|
            0 <= i < j < r.len() ==> (#[trigger] r[i]).rowid != (#[trigger] r[j]).rowid,
        a.file.header.entry_point is None ==> r.len() == 0,
{
    if let Some(ep) = a.file.header.entry_point {
        let near = collection::from_vector(g, a.file, query);
        let allowed = catalog::filtered(s, table, a.rows, f);
        let found = choose|found: Seq<hnsw::Scored>| #[trigger]
            hnsw::nearest_found(
                near,
                collection::linked_in(a.file),
                collection::gone_in(a.file),
                allowed,
                k,
                ef_search,
                ep,
                a.file.header.max_layer,
                found,
            ) && r == collection::results_of(a.rows, found);
        hnsw::found_are_open(
            near,
            collection::linked_in(a.file),
            collection::gone_in(a.file),
            allowed,
            k,
            ef_search,
            ep,
            a.file.header.max_layer,
            found,
        );
        results_from(a.rows, found);
        assert forall|i: int| 0 <= i < r.len() implies is_right(
            g,
            s,
            table,
            a,
            f,
            query,
            #[trigger] r[i],
        ) by {
            place_within(a.rows, found, r, i);
            let n = result_at(a.rows, found, r, i)->0;
            let node = found[n].0;
            assert(allowed(node, true));
            if let Some(p) = f {
                allowed_is_passing(s, table, p@, a.rows[node], true);
            }
            assert(right_result(g, s, table, a, f, query, r[i], node));
        }
        assert forall|i: int, j: int| 0 <= i < j < r.len() implies (#[trigger] r[i]).distance <= (
        #[trigger] r[j]).distance by {
            place_within(a.rows, found, r, i);
            place_within(a.rows, found, r, j);
            let n = result_at(a.rows, found, r, i)->0;
            let o = result_at(a.rows, found, r, j)->0;
            assert(n < o);
            assert(found[n].1 <= found[o].1);
        }
        if forall|v: u32, w: u32|
            #![trigger a.rows[v], a.rows[w]]
            a.rows.contains_key(v) && a.rows.contains_key(w) && v != w ==> a.rows[v] != a.rows[w] {
            assert forall|i: int, j: int| 0 <= i < j < r.len() implies (#[trigger] r[i]).rowid != (
            #[trigger] r[j]).rowid by {
                place_within(a.rows, found, r, i);
                place_within(a.rows, found, r, j);
                let n = result_at(a.rows, found, r, i)->0;
                let o = result_at(a.rows, found, r, j)->0;
                assert(n < o);
                assert(found[n].0 != found[o].0);
                assert(a.rows[found[n].0] != a.rows[found[o].0]);
            }
        }
    }
}

/// The nodes that a search looked at, with their distances: each one that is in use and
/// passes the filter is among the results, or is no nearer than any of the `k` of them.
/// The neighbors of all were looked at too, but for those of nodes that are no nearer than
/// all results.
pub open spec fn looked_at(
    g: Measure,
    s: StateView,
    table: Seq<char>,
    a: CollectionView,
    f: Option<Filter>,
    query: Seq<u32>,
    k: u32,
    r: Seq<VectorResult>,
    start: u32,
    seen: Map<u32, i64>,
) -> bool {
    &&& seen.contains_key(start)
    &&& forall|v: u32| #[trigger]
        seen.contains_key(v) && v < a.file.header.node_capacity ==> g(
            query,
            a.file.vector_of(v),
            seen[v],
        )
    &&& forall|v: u32| #[trigger]
        seen.contains_key(v) && in_use(a, v) && a.rows.contains_key(v) && node_passes(
            s,
            table,
            a,
            f,
            v,
        ) ==> r.contains(VectorResult { rowid: a.rows[v], distance: seen[v] }) || (r.len() == k
            && no_nearer(r, seen[v]))
    &&& forall|v: u32, w: u32|
        #![trigger seen.contains_key(v), seen.contains_key(w)]
        seen.contains_key(v) && v < a.file.header.node_capacity && a.file.neighbors_of(v, 0).contains(
            w,
        ) ==> seen.contains_key(w) || (r.len() == k && no_nearer(r, seen[v]))
}

/// No result is farther than the distance.
pub open spec fn no_nearer(r: Seq<VectorResult>, d: i64) -> bool {
    forall|i: int| 0 <= i < r.len() ==> (#[trigger] r[i]).distance <= d
}

/// A search gives the nearest of what it looked at, and it looks at all neighbors of what
/// is near: where it gives fewer results than were asked for it has looked at all that can
/// be reached, and has left nothing out that passes.
pub proof fn search_gives_the_nearest(
    g: Measure,
    s: StateView,
    table: Seq<char>,
    a: CollectionView,
    f: Option<Filter>,
    query: Seq<u32>,
    k: u32,
    ef_search: u32,
    r: Seq<VectorResult>,
)
    requires
        f is Some ==> filterable(s, table),
        a.file.header.entry_point is Some,
        forall|v: u32| #[trigger] in_use(a, v) ==> a.rows.contains_key(v),
        collection::searched(
            g,
            a,
            catalog::filtered(s, table, a.rows, f),
            query,
            k,
            ef_search,
            r,
        ),
    ensures
        exists|start: u32, seen: Map<u32, i64>| #[trigger]
            looked_at(g, s, table, a, f, query, k, r, start, seen),
{
    let ep = a.file.header.entry_point->0;
    let near = collection::from_vector(g, a.file, query);
    let lists = collection::linked_in(a.file);
    let gone = collection::gone_in(a.file);
    let allowed = catalog::filtered(s, table, a.rows, f);
    let found = choose|found: Seq<hnsw::Scored>| #[trigger]
        hnsw::nearest_found(
            near,
            lists,
            gone,
            allowed,
            k,
            ef_search,
            ep,
            a.file.header.max_layer,
            found,
        ) && r == collection::results_of(a.rows, found);
    let w = hnsw::beam_width(k, ef_search);
    let (start, full) = choose|start: u32, full: Seq<hnsw::Scored>| #[trigger]
        hnsw::layer_found(near, lists, gone, allowed, seq![start], w, 0, full) && hnsw::reached(
            near,
            lists,
            gone,
            a.file.header.max_layer as int,
            0,
            ep,
            start,
        ) && found == full.take(
            if k < full.len() {
                k as int
            } else {
                full.len() as int
            },
        );
    let (seen, order) = choose|seen: Map<u32, i64>, order: Seq<u32>| #[trigger]
        hnsw::beam(near, lists, gone, allowed, w, 0, seen, Seq::empty(), full)
            && #[trigger] hnsw::discovered(lists, 0, seq![start], seen, order) && (forall|i: int|
            0 <= i < seq![start].len() ==> seen.contains_key(#[trigger] seq![start][i]));
    hnsw::found_are_open(
        near,
        lists,
        gone,
        allowed,
        k,
        ef_search,
        ep,
        a.file.header.max_layer,
        found,
    );
    results_from(a.rows, found);
    assert(seq![start][0] == start);
    assert forall|n: int| 0 <= n < found.len() implies a.rows.contains_key((#[trigger] found[n]).0) by {
        assert(gone(found[n].0, false));
        assert(in_use(a, found[n].0));
    }
    assert(r.len() == found.len());
    assert forall|d: i64| #[trigger] hnsw::beaten(full, w, d) implies r.len() == k && no_nearer(r, d) by {
        assert forall|i: int| 0 <= i < r.len() implies (#[trigger] r[i]).distance <= d by {
            place_within(a.rows, found, r, i);
            let n = result_at(a.rows, found, r, i)->0;
            assert(found[n] == full[n]);
        }
    }
    assert forall|v: u32| #[trigger]
        seen.contains_key(v) && in_use(a, v) && a.rows.contains_key(v) && node_passes(
            s,
            table,
            a,
            f,
            v,
        ) implies r.contains(VectorResult { rowid: a.rows[v], distance: seen[v] }) || (r.len() == k
        && no_nearer(r, seen[v])) by {
        assert(!gone(v, true));
        if allowed(v, false) {
            if let Some(p) = f {
                allowed_is_passing(s, table, p@, a.rows[v], false);
            }
        }
        if full.contains((v, seen[v])) {
            let n = choose|n: int| 0 <= n < full.len() && full[n] == (v, seen[v]);
            if n < found.len() {
                assert(found[n] == full[n]);
            } else {
                assert forall|i: int| 0 <= i < r.len() implies (#[trigger] r[i]).distance <= seen[v] by {
                    place_within(a.rows, found, r, i);
                    let o = result_at(a.rows, found, r, i)->0;
                    assert(found[o] == full[o]);
                    assert(full[o].1 <= full[n].1);
                }
            }
        } else {
            assert(hnsw::beaten(full, w, seen[v]));
        }
    }
    assert forall|v: u32, x: u32|
        #![trigger seen.contains_key(v), seen.contains_key(x)]
        seen.contains_key(v) && v < a.file.header.node_capacity && a.file.neighbors_of(v, 0).contains(
            x,
        ) implies seen.contains_key(x) || (r.len() == k && no_nearer(r, seen[v])) by {
        if hnsw::expanded(lists, 0, seen, v) {
            let list = choose|list: Seq<u32>| #[trigger]
                lists(v, 0, list) && forall|i: int|
                    0 <= i < list.len() ==> seen.contains_key(#[trigger] list[i]);
            let i = choose|i: int| 0 <= i < list.len() && list[i] == x;
            assert(seen.contains_key(list[i]));
        } else {
            assert(hnsw::beaten(full, w, seen[v]));
        }
    }
    assert(looked_at(g, s, table, a, f, query, k, r, start, seen));
}

/// How far a search looked: it passed by a neighbor of a node only after it had seen as many
/// nodes in use as `k` and `ef_search` say, none of them farther than that node. The results
/// are the first of these.
pub open spec fn looked_far(
    a: CollectionView,
    k: u32,
    ef_search: u32,
    r: Seq<VectorResult>,
    start: u32,
    seen: Map<u32, i64>,
    best: Seq<u32>,
) -> bool {
    &&& seen.contains_key(start)
    &&& best.no_duplicates()
    &&& forall|i: int|
        0 <= i < best.len() ==> seen.contains_key(#[trigger] best[i]) && in_use(a, best[i])
    &&& forall|i: int, j: int|
        0 <= i < j < best.len() ==> seen[#[trigger] best[i]] <= seen[#[trigger] best[j]]
    &&& r.len() == if best.len() < k {
        best.len() as int
    } else {
        k as int
    }
    &&& forall|v: u32, w: u32|
        #![trigger seen.contains_key(v), seen.contains_key(w)]
        seen.contains_key(v) && v < a.file.header.node_capacity && a.file.neighbors_of(v, 0).contains(
            w,
        ) && !seen.contains_key(w) ==> {
            &&& best.len() >= k
            &&& best.len() >= ef_search
            &&& forall|i: int| 0 <= i < best.len() ==> seen[#[trigger] best[i]] <= seen[v]
        }
}

/// A search with a wider beam looks further, and one that finds fewer than it may keep has
/// looked at all that can be reached.
pub proof fn wider_searches_look_further(
    g: Measure,
    a: CollectionView,
    allowed: hnsw::Flags,
    query: Seq<u32>,
    k: u32,
    ef_search: u32,
    r: Seq<VectorResult>,
)
    requires
        a.file.header.entry_point is Some,
        forall|v: u32| #[trigger] in_use(a, v) ==> a.rows.contains_key(v),
        collection::searched(g, a, allowed, query, k, ef_search, r),
    ensures
        exists|start: u32, seen: Map<u32, i64>, best: Seq<u32>| #[trigger]
            looked_far(a, k, ef_search, r, start, seen, best),
{
    let ep = a.file.header.entry_point->0;
    let near = collection::from_vector(g, a.file, query);
    let lists = collection::linked_in(a.file);
    let gone = collection::gone_in(a.file);
    let found = choose|found: Seq<hnsw::Scored>| #[trigger]
        hnsw::nearest_found(
            near,
            lists,
            gone,
            allowed,
            k,
            ef_search,
            ep,
            a.file.header.max_layer,
            found,
        ) && r == collection::results_of(a.rows, found);
    let w = hnsw::beam_width(k, ef_search);
    let (start, full) = choose|start: u32, full: Seq<hnsw::Scored>| #[trigger]
        hnsw::layer_found(near, lists, gone, allowed, seq![start], w, 0, full) && hnsw::reached(
            near,
            lists,
            gone,
            a.file.header.max_layer as int,
            0,
            ep,
            start,
        ) && found == full.take(
            if k < full.len() {
                k as int
            } else {
                full.len() as int
            },
        );
    let (seen, order) = choose|seen: Map<u32, i64>, order: Seq<u32>| #[trigger]
        hnsw::beam(near, lists, gone, allowed, w, 0, seen, Seq::empty(), full)
            && #[trigger] hnsw::discovered(lists, 0, seq![start], seen, order) && (forall|i: int|
            0 <= i < seq![start].len() ==> seen.contains_key(#[trigger] seq![start][i]));
    let best = Seq::new(full.len(), |i: int| full[i].0);
    results_from(a.rows, found);
    assert(seq![start][0] == start);
    assert forall|i: int| 0 <= i < best.len() implies seen.contains_key(#[trigger] best[i])
        && in_use(a, best[i]) && seen[best[i]] == full[i].1 by {
        assert(gone(full[i].0, false));
    }
    assert forall|i: int, j: int| 0 <= i < best.len() && 0 <= j < best.len() && i != j implies best[i]
        != best[j] by {
        if i < j {
            assert(full[i].0 != full[j].0);
        } else {
            assert(full[j].0 != full[i].0);
        }
    }
    assert forall|n: int| 0 <= n < found.len() implies a.rows.contains_key((#[trigger] found[n]).0) by {
        assert(found[n] == full[n]);
        assert(best[n] == full[n].0);
    }
    assert forall|i: int, j: int| 0 <= i < j < best.len() implies seen[#[trigger] best[i]]
        <= seen[#[trigger] best[j]] by {
        assert(full[i].1 <= full[j].1);
    }
    assert forall|v: u32, x: u32|
        #![trigger seen.contains_key(v), seen.contains_key(x)]
        seen.contains_key(v) && v < a.file.header.node_capacity && a.file.neighbors_of(v, 0).contains(
            x,
        ) && !seen.contains_key(x) implies best.len() >= k && best.len() >= ef_search && forall|
        i: int,
    | 0 <= i < best.len() ==> seen[#[trigger] best[i]] <= seen[v] by {
        if hnsw::expanded(lists, 0, seen, v) {
            let list = choose|list: Seq<u32>| #[trigger]
                lists(v, 0, list) && forall|i: int|
                    0 <= i < list.len() ==> seen.contains_key(#[trigger] list[i]);
            let i = choose|i: int| 0 <= i < list.len() && list[i] == x;
            assert(seen.contains_key(list[i]));
        }
        assert(hnsw::beaten(full, w, seen[v]));
        assert forall|i: int| 0 <= i < best.len() implies seen[#[trigger] best[i]] <= seen[v] by {
            assert(full[i].1 <= seen[v]);
        }
    }
    assert(looked_far(a, k, ef_search, r, start, seen, best));
}

// ---------------------------------------------------------------------------
// Changing vectors
// ---------------------------------------------------------------------------

/// A vector that was inserted belongs to its row and is kept as it was given; the vectors
/// of all other rows are kept.
pub proof fn insert_keeps_the_vector(
    g: Measure,
    a: VectorCollection,
    b: VectorCollection,
    rowid: u64,
    vector: Seq<u32>,
    layer: u32,
    node: u32,
)
    requires
        a@.wf(),
        collection::insert_outcome(g, a, b, rowid, vector, layer, Ok(node)),
    ensures
        !a@.nodes.contains_key(rowid),
        b@.nodes == a@.nodes.insert(rowid, node),
        b@.rows == a@.rows.insert(node, rowid),
        b@.file.vector_of(node) == vector,
        b@.file.header.entry_point is Some,
        forall|other: u64|
            a@.nodes.contains_key(other) && a@.nodes[other] != node && a@.nodes[other]
                < a@.file.header.node_capacity ==> b@.nodes.contains_key(other)
                && #[trigger] b@.file.vector_of(b@.nodes[other]) == a@.file.vector_of(
                a@.nodes[other],
            ),
{
    let key = a.vecfile.key();
    let connections = choose|connections: Seq<(u32, u32, Vec<u32>)>|
        {
            &&& #[trigger] collection::planned(
                g,
                collection::with_new_node(a@.file, vector, layer),
                node,
                layer,
                connections,
            )
            &&& b@ == (CollectionView {
                file: collection::with_inserted(a@.file, vector, layer, connections),
                nodes: a@.nodes.insert(rowid, node),
                rows: a@.rows.insert(node, rowid),
            })
            &&& crate::vector::wal::appended_all(
                a.wal.log@,
                b.wal.log@,
                key,
                collection::insert_entries(a@.file, vector, layer, connections).push(
                    crate::vector::wal::EntryView::Commit,
                ),
            )
        };
    collection::insert_keeps_vectors(a@.file, vector, layer, connections);
}

proof fn lists_keep_wf(f: vecfile::FileView, connections: Seq<(u32, u32, Vec<u32>)>)
    requires
        f.wf(),
    ensures
        collection::connected(f, connections).wf(),
        collection::connected(f, connections).header == f.header,
    decreases connections.len(),
{
    if connections.len() > 0 {
        lists_keep_wf(f, connections.drop_last());
    }
}

/// An insert leaves a collection well formed, with the new node inside its file.
proof fn insert_keeps_wf(
    g: Measure,
    a: VectorCollection,
    b: VectorCollection,
    rowid: u64,
    vector: Seq<u32>,
    layer: u32,
    node: u32,
)
    requires
        a@.wf(),
        collection::insert_outcome(g, a, b, rowid, vector, layer, Ok(node)),
    ensures
        b@.wf(),
        node < b@.file.header.node_capacity,
        a@.file.header.node_capacity <= b@.file.header.node_capacity,
{
    let f = a@.file;
    let key = a.vecfile.key();
    let connections = choose|connections: Seq<(u32, u32, Vec<u32>)>|
        {
            &&& #[trigger] collection::planned(
                g,
                collection::with_new_node(a@.file, vector, layer),
                node,
                layer,
                connections,
            )
            &&& b@ == (CollectionView {
                file: collection::with_inserted(a@.file, vector, layer, connections),
                nodes: a@.nodes.insert(rowid, node),
                rows: a@.rows.insert(node, rowid),
            })
            &&& crate::vector::wal::appended_all(
                a.wal.log@,
                b.wal.log@,
                key,
                collection::insert_entries(a@.file, vector, layer, connections).push(
                    crate::vector::wal::EntryView::Commit,
                ),
            )
        };
    new_node_keeps_wf(f, vector, layer);
    lists_keep_wf(collection::with_new_node(f, vector, layer), connections);
}

proof fn new_node_keeps_wf(f: vecfile::FileView, vector: Seq<u32>, layer: u32)
    requires
        f.wf(),
        collection::allowed_options(f.header.dimensions, f.header.m),
        vector.len() == f.header.dimensions,
        collection::insertable(f, layer),
    ensures
        ({
            let f2 = collection::with_new_node(f, vector, layer);
            &&& f2.wf()
            &&& f2.header.dimensions == f.header.dimensions
            &&& f2.header.m == f.header.m
            &&& collection::next_node(f) < f2.header.node_capacity
            &&& f.header.node_capacity <= f2.header.node_capacity
        }),
{
    let f0 = vecfile::with_node(f);
    if f.header.free_list_head is None && f.header.node_count >= f.header.node_capacity {
        vecfile::doubling_keeps(f);
    }
    assert(f0.wf());
    let f1 = vecfile::with_vector(f0, collection::next_node(f), vector);
    vecfile::size_fits(f1);
}

/// Vectors that were inserted together belong to their rows and are kept as they were
/// given, where each has a node of its own.
pub proof fn batch_keeps_the_vectors(
    g: Measure,
    a: VectorCollection,
    b: VectorCollection,
    items: Seq<(u64, Vec<u32>, u32)>,
    nodes: Seq<u32>,
    j: int,
)
    requires
        a@.wf(),
        nodes.no_duplicates(),
        catalog::inserted_each(g, a, b, items, nodes),
        0 <= j < items.len(),
    ensures
        b@.nodes.contains_key(items[j].0) && b@.nodes[items[j].0] == nodes[j],
        b@.rows.contains_key(nodes[j]) && b@.rows[nodes[j]] == items[j].0,
        b@.file.vector_of(nodes[j]) == items[j].1@,
        !a@.nodes.contains_key(items[j].0),
{
    batch_of_vectors(g, a, b, items, nodes, j);
}

proof fn batch_of_vectors(
    g: Measure,
    a: VectorCollection,
    b: VectorCollection,
    items: Seq<(u64, Vec<u32>, u32)>,
    nodes: Seq<u32>,
    j: int,
)
    requires
        a@.wf(),
        nodes.no_duplicates(),
        catalog::inserted_each(g, a, b, items, nodes),
    ensures
        b@.wf(),
        nodes.len() == items.len(),
        forall|x: u64| a@.nodes.contains_key(x) ==> #[trigger] b@.nodes.contains_key(x),
        0 <= j < items.len() ==> {
            &&& nodes[j] < b@.file.header.node_capacity
            &&& b@.nodes.contains_key(items[j].0) && b@.nodes[items[j].0] == nodes[j]
            &&& b@.rows.contains_key(nodes[j]) && b@.rows[nodes[j]] == items[j].0
            &&& b@.file.vector_of(nodes[j]) == items[j].1@
            &&& !a@.nodes.contains_key(items[j].0)
        },
    decreases items.len(),
{
    if items.len() > 0 {
        let l = items.len() - 1;
        let mid = choose|mid: VectorCollection|
            catalog::inserted_each(g, a, mid, items.drop_last(), nodes.drop_last())
                && #[trigger] collection::insert_outcome(
                g,
                mid,
                b,
                items.last().0,
                items.last().1@,
                items.last().2,
                Ok(nodes.last()),
            );
        let fewer = nodes.drop_last();
        assert(fewer.no_duplicates()) by {
            assert forall|x: int, y: int|
                0 <= x < fewer.len() && 0 <= y < fewer.len() && x != y implies fewer[x] != fewer[y] by {
                assert(nodes[x] != nodes[y]);
            }
        }
        batch_of_vectors(g, a, mid, items.drop_last(), fewer, j);
        insert_keeps_wf(g, mid, b, items.last().0, items.last().1@, items.last().2, nodes.last());
        insert_keeps_the_vector(
            g,
            mid,
            b,
            items.last().0,
            items.last().1@,
            items.last().2,
            nodes.last(),
        );
        if 0 <= j < l {
            assert(items.drop_last()[j] == items[j] && fewer[j] == nodes[j]);
            assert(nodes[j] != nodes[l]);
            assert(b@.file.vector_of(b@.nodes[items[j].0]) == mid@.file.vector_of(
                mid@.nodes[items[j].0],
            ));
        }
    }
}

/// A vector that was deleted belongs to no row, and its node is gone; the vectors of all
/// other rows are kept.
pub proof fn delete_drops_the_vector(
    a: VectorCollection,
    b: VectorCollection,
    rowid: u64,
)
    requires
        a@.wf(),
        collection::delete_outcome(a, b, rowid, Ok(())),
    ensures
        a@.nodes.contains_key(rowid),
        b@.nodes == a@.nodes.remove(rowid),
        b@.rows == a@.rows.remove(a@.nodes[rowid]),
        b@.file.is_gone(a@.nodes[rowid]),
        b@.wf(),
        forall|other: u64|
            b@.nodes.contains_key(other) && a@.nodes[other] != a@.nodes[rowid] && a@.nodes[other]
                < a@.file.header.node_capacity ==> #[trigger] b@.file.vector_of(b@.nodes[other])
                == a@.file.vector_of(a@.nodes[other]) && b@.file.is_gone(b@.nodes[other])
                == a@.file.is_gone(a@.nodes[other]),
{
    let f = a@.file;
    let node = a@.nodes[rowid];
    let dims = f.header.dimensions;
    vecfile::slot_inside(node as int, dims as int, f.header.node_capacity as int);
    assert forall|other: u64|
        b@.nodes.contains_key(other) && a@.nodes[other] != a@.nodes[rowid] && a@.nodes[other]
            < f.header.node_capacity implies #[trigger] b@.file.vector_of(b@.nodes[other])
        == f.vector_of(a@.nodes[other]) && b@.file.is_gone(b@.nodes[other]) == f.is_gone(
        a@.nodes[other],
    ) by {
        let n = a@.nodes[other];
        vecfile::slot_inside(n as int, dims as int, f.header.node_capacity as int);
        vecfile::slots_apart(n as int, node as int, dims as int);
        assert(b@.file.vector_of(n) =~= f.vector_of(n));
    }
}

/// After an update the row has the new vector.
pub proof fn update_replaces_the_vector(
    g: Measure,
    a: VectorCollection,
    b: VectorCollection,
    rowid: u64,
    vector: Seq<u32>,
    layer: u32,
    node: u32,
)
    requires
        a@.wf(),
        collection::update_outcome(g, a, b, rowid, vector, layer, Ok(node)),
    ensures
        a@.nodes.contains_key(rowid),
        b@.nodes == a@.nodes.insert(rowid, node),
        b@.rows.contains_key(node) && b@.rows[node] == rowid,
        b@.file.vector_of(node) == vector,
{
    let mid = choose|mid: VectorCollection| #[trigger]
        collection::delete_outcome(a, mid, rowid, Ok(())) && mid.vecfile.key() == a.vecfile.key()
            && collection::insert_outcome(g, mid, b, rowid, vector, layer, Ok(node));
    delete_drops_the_vector(a, mid, rowid);
    insert_keeps_the_vector(g, mid, b, rowid, vector, layer, node);
    assert(b@.nodes =~= a@.nodes.insert(rowid, node));
}

/// A row whose vector was deleted is in no answer.
pub proof fn deleted_row_is_not_found(
    g: Measure,
    s: StateView,
    table: Seq<char>,
    a: VectorCollection,
    b: VectorCollection,
    rowid: u64,
    f: Option<Filter>,
    query: Seq<u32>,
    k: u32,
    ef_search: u32,
    r: Seq<VectorResult>,
    i: int,
)
    requires
        a@.wf(),
        forall|v: u32| #[trigger]
            a@.rows.contains_key(v) && a@.rows[v] == rowid ==> v == a@.nodes[rowid],
        collection::delete_outcome(a, b, rowid, Ok(())),
        f is Some ==> filterable(s, table),
        collection::searched(
            g,
            b@,
            catalog::filtered(s, table, b@.rows, f),
            query,
            k,
            ef_search,
            r,
        ),
        0 <= i < r.len(),
    ensures
        r[i].rowid != rowid,
{
    search_gives_right_rows(g, s, table, b@, f, query, k, ef_search, r);
    assert(is_right(g, s, table, b@, f, query, r[i]));
    let node = choose|node: u32| #[trigger] right_result(g, s, table, b@, f, query, r[i], node);
    assert(a@.rows.contains_key(node));
}

// ---------------------------------------------------------------------------
// Collections by name
// ---------------------------------------------------------------------------

/// A collection is found under its names, and only under these.
pub proof fn collection_by_name(c: VectorCatalog, table: Seq<char>, name: Seq<char>)
    ensures
        match c.place(table, name) {
            Some(i) => 0 <= i < c.entries@.len() && c.entries@[i].table@ == table
                && c.entries@[i].name@ == name,
            None => forall|i: int|
                0 <= i < c.entries@.len() ==> !((#[trigger] c.entries@[i]).table@ == table
                    && c.entries@[i].name@ == name),
        },
{
    entry_by_name(c.entries@, table, name);
}

proof fn entry_by_name(v: Seq<NamedCollection>, table: Seq<char>, name: Seq<char>)
    ensures
        match catalog::catalog_place(v, table, name) {
            Some(i) => 0 <= i < v.len() && catalog::called(v[i], table, name),
            None => forall|i: int|
                0 <= i < v.len() ==> !catalog::called(#[trigger] v[i], table, name),
        },
    decreases v.len(),
{
    if v.len() > 0 {
        let rest = v.drop_last();
        entry_by_name(rest, table, name);
        if catalog::catalog_place(v, table, name) is None {
            assert forall|i: int| 0 <= i < v.len() implies !catalog::called(
                #[trigger] v[i],
                table,
                name,
            ) by {
                if i < rest.len() {
                    assert(rest[i] == v[i]);
                }
            }
        } else if let Some(i) = catalog::catalog_place(rest, table, name) {
            assert(rest[i] == v[i]);
        }
    }
}

// ---------------------------------------------------------------------------
// The table of a collection
// ---------------------------------------------------------------------------

/// The row of the table of a collection says which node belongs to the row of its number.
pub open spec fn says_node(r: RowView, node: u32) -> bool {
    query::value_in(r, "node_id"@) == Some(ValueView::Integer(node as i64))
}

proof fn last_pair(pairs: Seq<(u64, u32)>, j: int)
    requires
        0 <= j < pairs.len(),
        forall|x: int, y: int|
            0 <= x < y < pairs.len() ==> (#[trigger] pairs[x]).0 != (#[trigger] pairs[y]).0,
    ensures
        collection::nodes_of(pairs).contains_key(pairs[j].0),
        collection::nodes_of(pairs)[pairs[j].0] == pairs[j].1,
    decreases pairs.len(),
{
    let rest = pairs.drop_last();
    if j < rest.len() {
        assert forall|x: int, y: int| 0 <= x < y < rest.len() implies (#[trigger] rest[x]).0 != (
        #[trigger] rest[y]).0 by {
            assert(rest[x] == pairs[x] && rest[y] == pairs[y]);
        }
        last_pair(rest, j);
        assert(rest[j] == pairs[j]);
        assert(pairs[j].0 != pairs[pairs.len() - 1].0);
    }
}

proof fn last_pair_back(pairs: Seq<(u64, u32)>, j: int)
    requires
        0 <= j < pairs.len(),
        forall|x: int, y: int|
            0 <= x < y < pairs.len() ==> (#[trigger] pairs[x]).1 != (#[trigger] pairs[y]).1,
    ensures
        collection::rows_of(pairs).contains_key(pairs[j].1),
        collection::rows_of(pairs)[pairs[j].1] == pairs[j].0,
    decreases pairs.len(),
{
    let rest = pairs.drop_last();
    if j < rest.len() {
        assert forall|x: int, y: int| 0 <= x < y < rest.len() implies (#[trigger] rest[x]).1 != (
        #[trigger] rest[y]).1 by {
            assert(rest[x] == pairs[x] && rest[y] == pairs[y]);
        }
        last_pair_back(rest, j);
        assert(rest[j] == pairs[j]);
        assert(pairs[j].1 != pairs[pairs.len() - 1].1);
    }
}

proof fn every_row_listed(rows: Seq<RowView>, nodes: Seq<u32>)
    requires
        nodes.len() == rows.len(),
        forall|j: int| 0 <= j < rows.len() ==> says_node(#[trigger] rows[j], nodes[j]),
    ensures
        names::mappings_in(rows).len() == rows.len(),
        forall|j: int|
            0 <= j < rows.len() ==> #[trigger] names::mappings_in(rows)[j] == (rows[j].id, nodes[j]),
    decreases rows.len(),
{
    if rows.len() > 0 {
        let few = rows.drop_last();
        let less = nodes.drop_last();
        assert forall|j: int| 0 <= j < few.len() implies says_node(#[trigger] few[j], less[j]) by {
            assert(few[j] == rows[j]);
        }
        every_row_listed(few, less);
        let l = rows.len() - 1;
        assert(says_node(rows[l], nodes[l]));
        assert(names::low32(nodes[l] as i64) == nodes[l]);
        assert forall|j: int| 0 <= j < rows.len() implies #[trigger] names::mappings_in(rows)[j] == (
            rows[j].id,
            nodes[j],
        ) by {
            if j < l {
                assert(names::mappings_in(few)[j] == (few[j].id, less[j]));
            }
        }
    }
}

/// The nodes of rows are read back from the table of a collection as they were noted there,
/// and so are the rows of nodes.
pub proof fn noted_nodes_read_back(rows: Seq<RowView>, nodes: Seq<u32>, j: int)
    requires
        nodes.len() == rows.len(),
        forall|x: int| 0 <= x < rows.len() ==> says_node(#[trigger] rows[x], nodes[x]),
        forall|x: int, y: int|
            0 <= x < y < rows.len() ==> (#[trigger] rows[x]).id != (#[trigger] rows[y]).id,
        0 <= j < rows.len(),
    ensures
        collection::nodes_of(names::mappings_in(rows)).contains_key(rows[j].id),
        collection::nodes_of(names::mappings_in(rows))[rows[j].id] == nodes[j],
        nodes.no_duplicates() ==> collection::rows_of(names::mappings_in(rows)).contains_key(
            nodes[j],
        ) && collection::rows_of(names::mappings_in(rows))[nodes[j]] == rows[j].id,
{
    let pairs = names::mappings_in(rows);
    every_row_listed(rows, nodes);
    assert forall|x: int, y: int| 0 <= x < y < pairs.len() implies (#[trigger] pairs[x]).0 != (
    #[trigger] pairs[y]).0 by {
        assert(rows[x].id != rows[y].id);
    }
    last_pair(pairs, j);
    if nodes.no_duplicates() {
        assert forall|x: int, y: int| 0 <= x < y < pairs.len() implies (#[trigger] pairs[x]).1 != (
        #[trigger] pairs[y]).1 by {
            assert(nodes[x] != nodes[y]);
        }
        last_pair_back(pairs, j);
    }
}

/// The row that is noted for a node says this node.
pub proof fn node_is_noted(row: query::Row, names: Seq<Seq<char>>, node: u32)
    requires
        crate::change_laws::reads_as_given(row, names, catalog::node_data(node)),
        names.contains("node_id"@),
    ensures
        says_node(row@, node),
{
    let data = catalog::node_data(node);
    let x = ValueView::Integer(node as i64);
    assert(data[0] == ("node_id"@, x));
    assert(data.contains(("node_id"@, x)));
    assert(crate::row_laws::reads_pair(row@, names, data, "node_id"@, x));
}

/// A vector is inserted only for a row that is there, and into the collection that is named;
/// all other collections stay.
pub proof fn vector_goes_to_its_row(
    g: Measure,
    s: StateView,
    s2: StateView,
    a: VectorCatalog,
    b: VectorCatalog,
    table: Seq<char>,
    name: Seq<char>,
    rowid: u64,
    vector: Seq<u32>,
    layer: u32,
    max: u32,
    found: Result<Option<query::Row>>,
    done: Result<u32>,
    j: int,
)
    requires
        a.inv(),
        catalog::vector_inserted(
            g,
            s,
            s2,
            a,
            b,
            table,
            name,
            rowid,
            vector,
            layer,
            max,
            found,
            done,
            Ok(()),
        ),
        session::got(s, table, rowid, found),
    ensures
        found matches Ok(Some(_)),
        a.place(table, name) matches Some(i) && done matches Ok(node) && {
            let x = a.entries@[i].collection@;
            let y = b.entries@[i].collection@;
            &&& a.entries@[i].table@ == table && a.entries@[i].name@ == name
            &&& !x.nodes.contains_key(rowid)
            &&& y.nodes == x.nodes.insert(rowid, node)
            &&& y.file.vector_of(node) == vector
            &&& 0 <= j < a.entries@.len() && j != i ==> b.entries@[j] == a.entries@[j]
        },
{
    collection_by_name(a, table, name);
    let i = a.place(table, name)->0;
    assert(a.entries@[i].collection.inv());
    insert_keeps_the_vector(
        g,
        a.entries@[i].collection,
        b.entries@[i].collection,
        rowid,
        vector,
        layer,
        done->Ok_0,
    );
}

/// A vector of another length is refused with both lengths, and one for a row that has a
/// vector is refused too; nothing is changed. A vector that is not there is not deleted or
/// updated.
pub proof fn wrong_vectors_refused(
    g: Measure,
    a: VectorCollection,
    b: VectorCollection,
    rowid: u64,
    vector: Seq<u32>,
    layer: u32,
    r: Result<u32>,
    d: Result<()>,
)
    ensures
        collection::insert_outcome(g, a, b, rowid, vector, layer, r) ==> {
            &&& vector.len() != a@.file.header.dimensions ==> r == Err::<u32, BoogyError>(
                BoogyError::VectorDimensionMismatch {
                    expected: a@.file.header.dimensions,
                    got: vector.len() as u32,
                },
            ) && b@ == a@
            &&& a@.nodes.contains_key(rowid) ==> r is Err && b@ == a@
            &&& r is Err ==> b@.nodes == a@.nodes && b@.rows == a@.rows
        },
        !a@.nodes.contains_key(rowid) ==> {
            &&& collection::delete_outcome(a, b, rowid, d) ==> (d matches Err(e) && e is VectorError)
                && b@ == a@
            &&& collection::update_outcome(g, a, b, rowid, vector, layer, r) ==> r is Err && b@ == a@
        },
{
}

/// A vector is refused for a row that is not there, and without a collection; nothing is
/// changed.
pub proof fn vector_without_row_refused(
    g: Measure,
    s: StateView,
    s2: StateView,
    a: VectorCatalog,
    b: VectorCatalog,
    table: Seq<char>,
    name: Seq<char>,
    rowid: u64,
    vector: Seq<u32>,
    layer: u32,
    max: u32,
    found: Result<Option<query::Row>>,
    done: Result<u32>,
    r: Result<()>,
)
    requires
        session::usable(s, table),
        s.in_order(session::place_of(s, table)),
        session::got(s, table, rowid, found),
        catalog::vector_inserted(
            g,
            s,
            s2,
            a,
            b,
            table,
            name,
            rowid,
            vector,
            layer,
            max,
            found,
            done,
            r,
        ),
    ensures
        !s.rows(session::place_of(s, table)).contains_key(rowid) ==> (r matches Err(e)
            && e is RowNotFound) && session::same(s, s2) && a == b,
        s.rows(session::place_of(s, table)).contains_key(rowid) && a.place(table, name) is None ==> (
        r matches Err(BoogyError::VectorCollectionNotFound(t)) && t@ == table + "."@ + name)
            && session::same(s, s2) && a == b,
{
}

/// The entry point is in the highest layer: a new node is the entry point if it is the first
/// or reaches higher than all others; otherwise the entry point stays.
pub proof fn highest_is_entry(
    g: Measure,
    a: VectorCollection,
    b: VectorCollection,
    rowid: u64,
    vector: Seq<u32>,
    layer: u32,
    node: u32,
)
    requires
        collection::insert_outcome(g, a, b, rowid, vector, layer, Ok(node)),
    ensures
        ({
            let h = a@.file.header;
            let k = b@.file.header;
            &&& h.entry_point is None || layer > h.max_layer ==> k.entry_point == Some(node)
                && k.max_layer == layer
            &&& h.entry_point is Some && layer <= h.max_layer ==> k.entry_point == h.entry_point
                && k.max_layer == h.max_layer
        }),
{
}

proof fn first_is_open(f: vecfile::FileView, list: Seq<u32>)
    ensures
        collection::first_open(f, list) matches Some(v) ==> list.contains(v) && v
            < f.header.node_capacity && !f.is_gone(v),
        collection::first_open(f, list) is None ==> forall|i: int|
            0 <= i < list.len() ==> (#[trigger] list[i]) >= f.header.node_capacity || f.is_gone(
                list[i],
            ),
    decreases list.len(),
{
    if list.len() > 0 {
        let rest = list.skip(1);
        first_is_open(f, rest);
        if let Some(v) = collection::first_open(f, rest) {
            let i = choose|i: int| 0 <= i < rest.len() && rest[i] == v;
            assert(list[i + 1] == v);
        }
        assert(list.contains(list[0]));
        assert forall|i: int|
            0 <= i < list.len() && collection::first_open(f, list) is None implies (
        #[trigger] list[i]) >= f.header.node_capacity || f.is_gone(list[i]) by {
            if i > 0 {
                assert(rest[i - 1] == list[i]);
            }
        }
    }
}

/// A delete leaves the entry point, unless it is the node that is deleted: then a neighbor in
/// use takes its place, if there is one.
pub proof fn entry_is_handed_on(a: VectorCollection, b: VectorCollection, rowid: u64)
    requires
        a@.wf(),
        collection::delete_outcome(a, b, rowid, Ok(())),
    ensures
        ({
            let f = a@.file;
            let node = a@.nodes[rowid];
            let k = b@.file.header;
            &&& f.header.entry_point != Some(node) ==> k.entry_point == f.header.entry_point
            &&& f.header.entry_point == Some(node) ==> match k.entry_point {
                Some(v) => f.neighbors_of(node, 0).contains(v) && !f.is_gone(v),
                None => forall|i: int|
                    0 <= i < f.neighbors_of(node, 0).len() ==> (#[trigger] f.neighbors_of(
                        node,
                        0,
                    )[i]) >= f.header.node_capacity || f.is_gone(f.neighbors_of(node, 0)[i]),
            }
            &&& k.max_layer == f.header.max_layer
        }),
{
    first_is_open(a@.file, a@.file.neighbors_of(a@.nodes[rowid], 0));
}

/// A vector that is deleted is dropped from the collection that is named and from its table,
/// and from nothing else.
pub proof fn delete_reaches_the_table(
    s: StateView,
    s2: StateView,
    a: VectorCatalog,
    b: VectorCatalog,
    table: Seq<char>,
    name: Seq<char>,
    rowid: u64,
    cleared: Result<bool>,
    r: Result<Option<query::Row>>,
    j: int,
)
    requires
        a.inv(),
        catalog::vector_deleted(s, s2, a, b, table, name, rowid, cleared, Ok(())),
    ensures
        a.place(table, name) matches Some(i) && {
            let x = a.entries@[i].collection@;
            let y = b.entries@[i].collection@;
            &&& a.entries@[i].table@ == table && a.entries@[i].name@ == name
            &&& x.nodes.contains_key(rowid)
            &&& y.nodes == x.nodes.remove(rowid)
            &&& y.file.is_gone(x.nodes[rowid])
            &&& 0 <= j < a.entries@.len() && j != i ==> b.entries@[j] == a.entries@[j]
        },
        ({
            let mapping = names::mapping_name(table, name);
            s.in_order(session::place_of(s, mapping)) && session::usable(s, mapping) && cleared
                == Ok::<bool, BoogyError>(true) && session::got(s2, mapping, rowid, r) ==> r == Ok::<
                Option<query::Row>,
                BoogyError,
            >(None)
        }),
{
    collection_by_name(a, table, name);
    let i = a.place(table, name)->0;
    assert(a.entries@[i].collection.inv());
    delete_drops_the_vector(a.entries@[i].collection, b.entries@[i].collection, rowid);
    let mapping = names::mapping_name(table, name);
    if s.in_order(session::place_of(s, mapping)) && session::usable(s, mapping) && cleared == Ok::<
        bool,
        BoogyError,
    >(true) && session::got(s2, mapping, rowid, r) {
        crate::laws::delete_then_get(s, s2, mapping, rowid, r);
    }
}

/// A vector that is updated is replaced in the collection that is named, and the table of the
/// collection says the new node.
pub proof fn update_reaches_the_table(
    g: Measure,
    s: StateView,
    mid: StateView,
    s2: StateView,
    a: VectorCatalog,
    b: VectorCatalog,
    table: Seq<char>,
    name: Seq<char>,
    rowid: u64,
    vector: Seq<u32>,
    layer: u32,
    max: u32,
    done: Result<u32>,
    cleared: Result<bool>,
    r: Result<Option<query::Row>>,
    j: int,
)
    requires
        a.inv(),
        catalog::vector_updated(
            g,
            s,
            mid,
            s2,
            a,
            b,
            table,
            name,
            rowid,
            vector,
            layer,
            max,
            done,
            cleared,
            Ok(()),
        ),
    ensures
        a.place(table, name) matches Some(i) && done matches Ok(node) && {
            let x = a.entries@[i].collection@;
            let y = b.entries@[i].collection@;
            &&& a.entries@[i].table@ == table && a.entries@[i].name@ == name
            &&& x.nodes.contains_key(rowid)
            &&& y.nodes == x.nodes.insert(rowid, node)
            &&& y.file.vector_of(node) == vector
            &&& 0 <= j < a.entries@.len() && j != i ==> b.entries@[j] == a.entries@[j]
        },
        ({
            let mapping = names::mapping_name(table, name);
            crate::change_laws::ready(mid, mapping) && crate::laws::keepable(
                mid.tables[session::place_of(mid, mapping)],
                rowid,
                catalog::node_data(done->Ok_0),
            ) && crate::change_laws::names_of(mid, mapping).contains("node_id"@) && session::got(
                s2,
                mapping,
                rowid,
                r,
            ) ==> (r matches Ok(Some(row)) && row@.id == rowid && says_node(row@, done->Ok_0))
        }),
{
    collection_by_name(a, table, name);
    let i = a.place(table, name)->0;
    assert(a.entries@[i].collection.inv());
    update_replaces_the_vector(
        g,
        a.entries@[i].collection,
        b.entries@[i].collection,
        rowid,
        vector,
        layer,
        done->Ok_0,
    );
    let mapping = names::mapping_name(table, name);
    let data = catalog::node_data(done->Ok_0);
    if crate::change_laws::ready(mid, mapping) && crate::laws::keepable(
        mid.tables[session::place_of(mid, mapping)],
        rowid,
        data,
    ) && crate::change_laws::names_of(mid, mapping).contains("node_id"@) && session::got(
        s2,
        mapping,
        rowid,
        r,
    ) {
        crate::change_laws::insert_with_id_reads_back(mid, s2, mapping, rowid, data, max, r);
        node_is_noted(
            r->Ok_0->Some_0,
            crate::change_laws::names_of(mid, mapping),
            done->Ok_0,
        );
    }
}

/// The tables of collections are listed with the names of their tables and collections, and
/// no other tables are.
pub proof fn collections_are_listed(
    all: Seq<Seq<char>>,
    name: Seq<char>,
    table: Seq<char>,
    collection: Seq<char>,
)
    ensures
        catalog::mapping_tables(all).contains((name, table, collection)) <==> all.contains(name)
            && names::mapping_parts(name) == Some((table, collection)),
        table.len() > 0 && collection.len() > 0 && !table.contains('_') && all.contains(
            "__vec_"@ + table + "_"@ + collection,
        ) ==> catalog::mapping_tables(all).contains(
            ("__vec_"@ + table + "_"@ + collection, table, collection),
        ),
{
    listed_as_parted(all, name, table, collection);
    if table.len() > 0 && collection.len() > 0 && !table.contains('_') {
        names::mapping_name_parts(table, collection);
        listed_as_parted(all, names::mapping_name(table, collection), table, collection);
    }
}

proof fn listed_as_parted(
    all: Seq<Seq<char>>,
    name: Seq<char>,
    table: Seq<char>,
    collection: Seq<char>,
)
    ensures
        catalog::mapping_tables(all).contains((name, table, collection)) <==> all.contains(name)
            && names::mapping_parts(name) == Some((table, collection)),
    decreases all.len(),
{
    let out = catalog::mapping_tables(all);
    let want = (name, table, collection);
    if all.len() > 0 {
        let few = all.drop_last();
        let rest = catalog::mapping_tables(few);
        listed_as_parted(few, name, table, collection);
        assert(all =~= few.push(all.last()));
        if few.contains(name) {
            let i = choose|i: int| 0 <= i < few.len() && few[i] == name;
            assert(all[i] == name);
        }
        if rest.contains(want) {
            let i = choose|i: int| 0 <= i < rest.len() && rest[i] == want;
            assert(out[i] == want);
        }
        if all.last() == name && names::mapping_parts(name) == Some((table, collection)) {
            assert(out.last() == want);
        }
        if out.contains(want) {
            let i = choose|i: int| 0 <= i < out.len() && out[i] == want;
            if i < rest.len() {
                assert(rest[i] == want);
            }
        }
        if all.contains(name) {
            let i = choose|i: int| 0 <= i < all.len() && all[i] == name;
            if i < few.len() {
                assert(few[i] == name);
            }
        }
    }
}

/// Different random numbers are followed by different ones, and none but zero by zero.
pub proof fn random_numbers_go_on(x: u64, y: u64)
    ensures
        collection::xorshift(x) == collection::xorshift(y) ==> x == y,
        collection::xorshift(x) == 0 ==> x == 0,
{
    let a = x ^ (x << 13u64);
    let c = y ^ (y << 13u64);
    let b = a ^ (a >> 7u64);
    let d = c ^ (c >> 7u64);
    assert(b ^ (b << 17u64) == d ^ (d << 17u64) ==> b == d) by (bit_vector);
    assert(a ^ (a >> 7u64) == c ^ (c >> 7u64) ==> a == c) by (bit_vector);
    assert(x ^ (x << 13u64) == y ^ (y << 13u64) ==> x == y) by (bit_vector);
    assert(b ^ (b << 17u64) == 0 ==> b == 0) by (bit_vector);
    assert(a ^ (a >> 7u64) == 0 ==> a == 0) by (bit_vector);
    assert(x ^ (x << 13u64) == 0 ==> x == 0) by (bit_vector);
}

// ---------------------------------------------------------------------------
// Walking through the layers
// ---------------------------------------------------------------------------

/// A node has one distance.
pub open spec fn one_distance(dist: hnsw::Near) -> bool {
    forall|v: u32, d: i64, e: i64| #[trigger] dist(v, d) && #[trigger] dist(v, e) ==> d == e
}

proof fn path_nears(
    dist: hnsw::Near,
    lists: hnsw::Lists,
    gone: hnsw::Flags,
    layer: u32,
    path: Seq<hnsw::Scored>,
    i: int,
)
    requires
        hnsw::walked(dist, lists, gone, layer, path),
        0 <= i < path.len(),
    ensures
        path[i].1 <= path[0].1,
        i > 0 ==> path[i].1 < path[0].1 && gone(path[i].0, false),
    decreases i,
{
    if i > 0 {
        path_nears(dist, lists, gone, layer, path, i - 1);
        assert(hnsw::hop(dist, lists, gone, layer, path[i - 1], path[i - 1 + 1]));
    }
}

proof fn descent_nears(
    dist: hnsw::Near,
    lists: hnsw::Lists,
    gone: hnsw::Flags,
    top: int,
    target: int,
    a: hnsw::Scored,
    b: hnsw::Scored,
)
    requires
        hnsw::descended(dist, lists, gone, top, target, a, b),
    ensures
        b.1 <= a.1,
        b == a || b.1 < a.1 && gone(b.0, false),
        top > target ==> hnsw::settled(dist, lists, gone, (target + 1) as u32, b),
    decreases top - target,
{
    if top > target {
        let path = choose|path: Seq<hnsw::Scored>| #[trigger]
            hnsw::walked(dist, lists, gone, (target + 1) as u32, path) && path.last() == b
                && hnsw::descended(dist, lists, gone, top, target + 1, a, path[0]);
        descent_nears(dist, lists, gone, top, target + 1, a, path[0]);
        path_nears(dist, lists, gone, (target + 1) as u32, path, path.len() - 1);
    }
}

/// The walks through the upper layers never lead away from the query: they end at the entry
/// point, or at a node that is in use and nearer; and there no neighbor that is in use is
/// nearer.
pub proof fn walks_lead_nearer(
    dist: hnsw::Near,
    lists: hnsw::Lists,
    gone: hnsw::Flags,
    top: int,
    target: int,
    entry: u32,
    end: u32,
    d: i64,
    e: i64,
)
    requires
        one_distance(dist),
        hnsw::reached(dist, lists, gone, top, target, entry, end),
        dist(entry, d),
        dist(end, e),
    ensures
        e <= d,
        end == entry || e < d && gone(end, false),
        top > target ==> exists|list: Seq<u32>| #[trigger]
            lists(end, (target + 1) as u32, list) && forall|i: int, x: i64|
                0 <= i < list.len() && #[trigger] dist(list[i], x) ==> x >= e || gone(list[i], true),
{
    if top > target {
        let (p, q) = choose|p: i64, q: i64| #[trigger]
            dist(entry, p) && #[trigger] dist(end, q) && hnsw::descended(
                dist,
                lists,
                gone,
                top,
                target,
                (entry, p),
                (end, q),
            );
        assert(p == d && q == e);
        descent_nears(dist, lists, gone, top, target, (entry, p), (end, q));
        let list = choose|list: Seq<u32>| #[trigger]
            lists(end, (target + 1) as u32, list) && hnsw::no_nearer(dist, gone, list, q);
        assert forall|i: int, x: i64|
            0 <= i < list.len() && #[trigger] dist(list[i], x) implies x >= e || gone(list[i], true) by {
            assert(hnsw::far_enough(dist, gone, list[i], q));
        }
    }
}

/// A node that a new node was linked to is linked back where it has room, and keeps all
/// neighbors that it had; otherwise it keeps the nearest. It never has more than fit.
pub proof fn neighbors_link_back(
    between: hnsw::Gaps,
    lists: hnsw::Lists,
    gone: hnsw::Flags,
    node: u32,
    layer: u32,
    m: u32,
    neighbor: u32,
    entry: (u32, u32, Vec<u32>),
)
    requires
        hnsw::back_linked(between, lists, gone, node, m, layer, neighbor, entry),
    ensures
        entry.0 == neighbor,
        entry.1 == layer,
        entry.2@.len() <= if layer == 0 {
            2 * m
        } else {
            m as int
        },
        exists|list: Seq<u32>| #[trigger]
            lists(neighbor, layer, list) && {
                &&& forall|i: int|
                    0 <= i < entry.2@.len() ==> list.contains(#[trigger] entry.2@[i]) || entry.2@[i]
                        == node
                &&& (if list.contains(node) {
                    list.len() as int
                } else {
                    list.len() as int + 1
                }) <= (if layer == 0 {
                    2 * m
                } else {
                    m as int
                }) ==> entry.2@.contains(node) && forall|i: int|
                    0 <= i < list.len() ==> entry.2@.contains(#[trigger] list[i])
            },
{
    let cap = hnsw::neighbor_cap(m, layer);
    let out = entry.2@;
    let list = choose|list: Seq<u32>| #[trigger]
        lists(neighbor, layer, list) && {
            let full = hnsw::joined(list, node);
            if full.len() > cap {
                exists|scored: Seq<hnsw::Scored>| #[trigger]
                    hnsw::measured(between, gone, neighbor, full, scored) && out == hnsw::first_ids(
                        hnsw::ranked(scored),
                        cap,
                    )
            } else {
                out == full
            }
        };
    let full = hnsw::joined(list, node);
    assert forall|x: u32| full.contains(x) implies list.contains(x) || x == node by {
        let i = choose|i: int| 0 <= i < full.len() && full[i] == x;
        if i < list.len() {
            assert(list[i] == x);
        }
    }
    assert forall|i: int| 0 <= i < list.len() implies full.contains(#[trigger] list[i]) by {
        assert(full[i] == list[i]);
    }
    assert(full.contains(node)) by {
        if !list.contains(node) {
            assert(full[list.len() as int] == node);
        }
    }
    if full.len() > cap {
        let scored = choose|scored: Seq<hnsw::Scored>| #[trigger]
            hnsw::measured(between, gone, neighbor, full, scored) && out == hnsw::first_ids(
                hnsw::ranked(scored),
                cap,
            );
        measured_are_open(between, gone, neighbor, full, scored);
        hnsw::ranking_orders(scored);
        assert forall|i: int| 0 <= i < out.len() implies list.contains(#[trigger] out[i]) || out[i]
            == node by {
            let y = hnsw::ranked(scored)[i];
            assert(out[i] == y.0);
            assert(hnsw::ranked(scored).contains(y));
            let x = choose|x: int| 0 <= x < scored.len() && scored[x] == y;
            assert(full.contains(scored[x].0));
        }
    } else {
        assert forall|i: int| 0 <= i < out.len() implies list.contains(#[trigger] out[i]) || out[i]
            == node by {
            assert(full.contains(out[i]));
        }
    }
}

// ---------------------------------------------------------------------------
// Choosing neighbors
// ---------------------------------------------------------------------------

/// The nodes that are chosen of candidates: as many as were asked for, or all; each a
/// candidate, and none that was left out is nearer than one that was chosen.
pub proof fn chosen_are_nearest(candidates: Seq<hnsw::Scored>, m: int, i: int, left: hnsw::Scored)
    requires
        m >= 0,
    ensures
        ({
            let chosen = hnsw::first_ids(hnsw::ranked(candidates), m);
            &&& chosen.len() == if m < candidates.len() {
                m
            } else {
                candidates.len() as int
            }
            &&& 0 <= i < chosen.len() ==> exists|d: i64|
                #![trigger candidates.contains((chosen[i], d))]
                candidates.contains((chosen[i], d)) && (candidates.contains(left)
                    && !chosen.contains(left.0) ==> d <= left.1)
        }),
{
    let all = hnsw::ranked(candidates);
    let chosen = hnsw::first_ids(all, m);
    hnsw::ranking_orders(candidates);
    if 0 <= i < chosen.len() {
        let d = all[i].1;
        assert(chosen[i] == all[i].0);
        assert(all[i] == (chosen[i], d));
        assert(all.contains(all[i]));
        assert(candidates.contains((chosen[i], d)));
        if candidates.contains(left) && !chosen.contains(left.0) {
            assert(all.contains(left));
            let n = choose|n: int| 0 <= n < all.len() && all[n] == left;
            if n < chosen.len() {
                assert(chosen[n] == left.0);
            }
            assert(i < n);
            assert(all[i].1 <= all[n].1);
        }
    }
}

/// Of a list of neighbors those are measured that are not deleted, from the node itself, and
/// no others.
pub proof fn measured_are_open(
    between: hnsw::Gaps,
    is_deleted: hnsw::Flags,
    node: u32,
    list: Seq<u32>,
    out: Seq<hnsw::Scored>,
)
    requires
        hnsw::measured(between, is_deleted, node, list, out),
    ensures
        forall|i: int|
            0 <= i < out.len() ==> list.contains((#[trigger] out[i]).0) && is_deleted(out[i].0, false)
                && between(node, out[i].0, out[i].1),
        forall|n: int|
            0 <= n < list.len() ==> is_deleted(#[trigger] list[n], true) || exists|i: int|
                0 <= i < out.len() && (#[trigger] out[i]).0 == list[n],
    decreases list.len(),
{
    if list.len() > 0 {
        let rest = list.drop_last();
        let l = list.last();
        assert(list[list.len() - 1] == l);
        let gone = is_deleted(l, true) && hnsw::measured(between, is_deleted, node, rest, out);
        let few = if gone {
            out
        } else {
            out.drop_last()
        };
        measured_are_open(between, is_deleted, node, rest, few);
        assert forall|i: int| 0 <= i < out.len() implies list.contains((#[trigger] out[i]).0)
            && is_deleted(out[i].0, false) && between(node, out[i].0, out[i].1) by {
            if i < few.len() {
                assert(few[i] == out[i]);
                let x = choose|x: int| 0 <= x < rest.len() && rest[x] == out[i].0;
                assert(list[x] == out[i].0);
            }
        }
        assert forall|n: int| 0 <= n < list.len() implies is_deleted(#[trigger] list[n], true)
            || exists|i: int| 0 <= i < out.len() && (#[trigger] out[i]).0 == list[n] by {
            if n < rest.len() {
                assert(rest[n] == list[n]);
                if !is_deleted(list[n], true) {
                    let i = choose|i: int| 0 <= i < few.len() && (#[trigger] few[i]).0 == rest[n];
                    assert(out[i].0 == list[n]);
                }
            } else if !gone {
                assert(out[out.len() - 1].0 == l);
            }
        }
    }
}

/// A collection that was created is found under its names, and all others where they were.
pub proof fn created_collection_is_found(
    a: VectorCatalog,
    b: VectorCatalog,
    table: Seq<char>,
    name: Seq<char>,
    other: Seq<char>,
    more: Seq<char>,
)
    requires
        a.place(table, name) is None,
        catalog::catalog_grown(a, b, table, name),
    ensures
        b.place(table, name) == Some(a.entries@.len() as int),
        other != table || more != name ==> b.place(other, more) == a.place(other, more),
        a.place(other, more) matches Some(i) ==> b.entries@[i] == a.entries@[i],
{
    collection_by_name(a, other, more);
    let i = a.place(other, more);
    if let Some(x) = i {
        assert(b.entries@.drop_last()[x] == b.entries@[x]);
    }
}

/// A collection that was dropped is not found any more if no other has its names.
pub proof fn dropped_collection_is_gone(
    a: VectorCatalog,
    b: VectorCatalog,
    table: Seq<char>,
    name: Seq<char>,
    i: int,
)
    requires
        a.place(table, name) == Some(i),
        b.entries@ == a.entries@.remove(i),
        forall|x: int|
            0 <= x < a.entries@.len() && catalog::called(#[trigger] a.entries@[x], table, name)
                ==> x == i,
    ensures
        b.place(table, name) is None,
{
    collection_by_name(a, table, name);
    collection_by_name(b, table, name);
    if let Some(x) = b.place(table, name) {
        let y = if x < i {
            x
        } else {
            x + 1
        };
        assert(b.entries@[x] == a.entries@[y]);
        assert(catalog::called(a.entries@[y], table, name));
    }
}

}
