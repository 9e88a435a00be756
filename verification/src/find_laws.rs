//! What searches give: the rows that pass the filters and no others, in the order that
//! was asked for, and the part of them that was asked for.

use crate::btree;
use crate::db_rows;
use crate::engine;
use crate::error::{BoogyError, Result};
use crate::filter;
use crate::filter::{FilterOp, FilterView, FindOptions, Sort};
use crate::finder;
use crate::index;
use crate::laws;
use crate::query;
use crate::query::{FindResult, RowView};
use crate::query_laws;
use crate::query_laws::read_or_null;
use crate::row;
use crate::session;
use crate::session::StateView;
use crate::store;
use crate::table;
use crate::table::TableView;
use crate::tree;
use crate::tree::Key;
use crate::value;
use crate::value::{Type, ValueView};
use crate::value_laws;
use vstd::prelude::*;

verus! {

// ---------------------------------------------------------------------------
// What a search is about
// ---------------------------------------------------------------------------

/// All rows are laid out as inserts and updates lay them out.
pub open spec fn all_well_laid(rows: Map<u64, Seq<u8>>) -> bool {
    forall|k: u64| rows.contains_key(k) ==> row::well_laid(#[trigger] rows[k])
}

/// Each filter holds of what is read under the name of its column.
pub open spec fn passes_all(r: RowView, fs: Seq<FilterView>) -> bool {
    forall|i: int|
        0 <= i < fs.len() ==> filter::holds(
            read_or_null(r, (#[trigger] fs[i]).column),
            fs[i].op,
            fs[i].value,
        )
}

/// The value suits an index on a column of the type.
pub open spec fn suits_column(t: Type, x: ValueView) -> bool {
    value_laws::of_kind(x, t) && !index::is_torn(x)
}

/// Where a filter is on a column with an index, the values of the column are of its type.
pub open spec fn suits_indexes(
    rows: Map<u64, Seq<u8>>,
    v: TableView,
    fs: Seq<FilterView>,
) -> bool {
    forall|j: int, k: u64|
        #![trigger fs[j], rows[k]]
        0 <= j < fs.len() && rows.contains_key(k) && table::index_for(v.indexes, fs[j].column)
            is Some && table::column_type(v.columns, fs[j].column) is Some ==> suits_column(
            table::column_type(v.columns, fs[j].column)->0,
            read_or_null(
                query::row_of(rows[k], table::column_names(v.columns)),
                fs[j].column,
            ),
        )
}

/// The table is there and its rows can be searched: its columns have different names, its
/// rows are laid out as they are written, indexed values are of the type of their column,
/// and a filter that stands alone is on a column of the table.
pub open spec fn in_reach(s: StateView, table: Seq<char>, fs: Seq<FilterView>) -> bool {
    let i = session::place_of(s, table);
    let v = s.tables[i];
    &&& session::usable(s, table)
    &&& s.in_order(i)
    &&& query_laws::tellable(table::column_names(v.columns))
    &&& all_well_laid(s.rows(i))
    &&& suits_indexes(s.rows(i), v, fs)
    &&& fs.len() == 1 ==> table::column_names(v.columns).contains(fs[0].column)
    &&& s.rows(i).dom().len() <= u32::MAX
}

/// The row that a table shows under a number.
pub open spec fn shown(s: StateView, table: Seq<char>, k: u64) -> RowView {
    let i = session::place_of(s, table);
    query::row_of(s.rows(i)[k], table::column_names(s.tables[i].columns))
}

/// The numbers of the rows of which all filters hold.
pub open spec fn passing_ids(s: StateView, table: Seq<char>, fs: Seq<FilterView>) -> Set<u64> {
    Set::new(
        |k: u64|
            s.rows(session::place_of(s, table)).contains_key(k) && passes_all(
                shown(s, table, k),
                fs,
            ),
    )
}

/// A row passes filters exactly if each holds of what is read under the name of its column.
pub proof fn passes_is_named(v: TableView, fs: Seq<FilterView>, bytes: Seq<u8>)
    requires
        query_laws::tellable(table::column_names(v.columns)),
    ensures
        query::passes(v.columns, fs, bytes) <==> passes_all(
            query::row_of(bytes, table::column_names(v.columns)),
            fs,
        ),
{
    let r = query::row_of(bytes, table::column_names(v.columns));
    assert forall|i: int| 0 <= i < fs.len() implies query::accepts(
        v.columns,
        #[trigger] fs[i],
        bytes,
    ) == filter::holds(read_or_null(r, fs[i].column), fs[i].op, fs[i].value) by {
        query_laws::filter_sees_named_column(v.columns, fs[i], bytes);
    }
    if query::passes(v.columns, fs, bytes) {
        assert forall|i: int| 0 <= i < fs.len() implies filter::holds(
            read_or_null(r, (#[trigger] fs[i]).column),
            fs[i].op,
            fs[i].value,
        ) by {
            assert(query::accepts(v.columns, fs[i], bytes));
        }
    }
}

proof fn seen_is_read(v: TableView, name: Seq<char>, bytes: Seq<u8>)
    requires
        query_laws::tellable(table::column_names(v.columns)),
    ensures
        query::actual(v.columns, name, bytes) == read_or_null(
            query::row_of(bytes, table::column_names(v.columns)),
            name,
        ),
{
    query_laws::column_at(v.columns, name);
}

/// An index finds a row by a value exactly if the filter accepts the row.
proof fn index_hit_is_accept(
    v: TableView,
    f: FilterView,
    k: u64,
    bytes: Seq<u8>,
)
    requires
        finder::answers(v, f),
        row::well_laid(bytes),
        suits_column(
            table::column_type(v.columns, f.column)->0,
            query::actual(v.columns, f.column, bytes),
        ),
    ensures
        finder::filter_code(v, f) matches Some(p) && (finder::index_hit(
            v,
            v.indexes[table::index_for(v.indexes, f.column)->0],
            p,
            (k, bytes),
        ) <==> query::accepts(v.columns, f, bytes)),
{
    let t = table::column_type(v.columns, f.column)->0;
    let ix = v.indexes[table::index_for(v.indexes, f.column)->0];
    let x = query::actual(v.columns, f.column, bytes);
    table::index_for_first(v.indexes, f.column);
    table::column_known(v.columns, f.column);
    let c = table::column_id(v.columns, f.column)->0;
    row::extracted_is_decoded(bytes, c, x);
    assert(store::entry_of(v.columns, ix, bytes, k) == Some(index::key_code(t, x, k)));
    match (x, f.value) {
        (ValueView::Integer(a), ValueView::Integer(b)) => {
            index::integer_prefix_matches(b, a, k);
            value_laws::operators_on_integers(a, b);
        },
        (ValueView::Text(a), ValueView::Text(b)) => {
            index::text_prefix_matches(b, a, k);
            value_laws::equality_is_sameness(a, b, Seq::empty(), Seq::empty());
        },
        (ValueView::Real(a), ValueView::Real(b)) => {
            index::real_prefix_matches(b, a, k);
        },
        _ => {},
    }
}

proof fn first_index_filter(v: TableView, fs: Seq<FilterView>)
    ensures
        finder::index_filter(v, fs) matches Some(j) ==> 0 <= j < fs.len() && finder::answers(
            v,
            fs[j],
        ),
    decreases fs.len(),
{
    if fs.len() > 0 {
        first_index_filter(v, fs.drop_last());
        if let Some(j) = finder::index_filter(v, fs.drop_last()) {
            assert(fs.drop_last()[j] == fs[j]);
        }
    }
}

/// Whether an index answers a search or a scan does, it is about the rows that pass, in
/// the order of their numbers.
proof fn search_is_scan(m: Map<u32, Seq<u8>>, v: TableView, fs: Seq<FilterView>)
    requires
        engine::table_sound(m, v),
        query_laws::tellable(table::column_names(v.columns)),
        all_well_laid(store::table_rows(m, v)),
        suits_indexes(store::table_rows(m, v), v, fs),
        fs.len() == 1 ==> table::column_names(v.columns).contains(fs[0].column),
        finder::row_list(m, v).len() <= u32::MAX,
    ensures
        finder::searchable(m, v, fs),
        finder::matching(m, v, fs) == finder::row_list(m, v).filter(finder::found_by_scan(v, fs)),
{
    let list = finder::row_list(m, v);
    let rows = store::table_rows(m, v);
    let cells = btree::all_cells(m, v.root_page);
    laws::list_of_rows(m, v);
    if fs.len() == 1 {
        table::column_known(v.columns, fs[0].column);
        let c = table::column_id(v.columns, fs[0].column)->0;
        assert forall|x: int| 0 <= x < cells.len() implies btree::expands(
            m,
            (#[trigger] cells[x]).1,
        ) && btree::seen(m, cells[x].1, c) is Some && (row::lookup(
            btree::whole(m, cells[x].1).1,
            c,
        ) is At ==> btree::has_raw(btree::whole(m, cells[x].1).1, c)) by {
            let it = list[x];
            assert(it == btree::whole(m, cells[x].1));
            assert(row::well_laid(rows[it.0]));
            row::extracted_is_decoded(it.1, c, ValueView::Null);
        }
    }
    first_index_filter(v, fs);
    match finder::index_filter(v, fs) {
        Some(j) => {
            let f = fs[j];
            let ix = v.indexes[table::index_for(v.indexes, f.column)->0];
            table::index_for_first(v.indexes, f.column);
            let t = table::column_type(v.columns, f.column)->0;
            assert(finder::filter_code(v, f) is Some);
            let p = finder::filter_code(v, f)->0;
            let by_index = finder::found_by_index(v, ix, p, fs);
            let by_scan = finder::found_by_scan(v, fs);
            assert forall|i: int| 0 <= i < list.len() implies by_index(#[trigger] list[i])
                == by_scan(list[i]) by {
                let it = list[i];
                assert(rows[it.0] == it.1);
                assert(row::well_laid(rows[it.0]));
                seen_is_read(v, f.column, it.1);
                assert(suits_column(t, query::actual(v.columns, f.column, it.1))) by {
                    assert(fs[j] == f && rows[it.0] == it.1);
                }
                index_hit_is_accept(v, f, it.0, it.1);
                if query::passes(v.columns, fs, it.1) {
                    assert(query::accepts(v.columns, fs[j], it.1));
                }
            }
            finder::filter_same(list, by_index, by_scan);
        },
        None => {
            if fs.len() == 1 {
                let c = table::column_id(v.columns, fs[0].column)->0;
                assert(fs =~= seq![fs[0]]);
                laws::scan_is_filter(m, v, fs[0], c, cells);
            }
        },
    }
}

// ---------------------------------------------------------------------------
// Lists of rows
// ---------------------------------------------------------------------------

proof fn ascending_part(s: Seq<(u64, Seq<u8>)>, p: spec_fn((u64, Seq<u8>)) -> bool)
    requires
        tree::items_ok(s, None, None),
    ensures
        forall|i: int, j: int|
            0 <= i < j < s.filter(p).len() ==> (#[trigger] s.filter(p)[i]).0 < (
            #[trigger] s.filter(p)[j]).0,
    decreases s.len(),
{
    reveal(Seq::filter);
    if s.len() > 0 {
        let rest = s.drop_last();
        let few = rest.filter(p);
        assert forall|i: int, j: int| 0 <= i < j < rest.len() implies (#[trigger] rest[i]).0.before(
            (#[trigger] rest[j]).0,
        ) by {
            assert(s[i].0.before(s[j].0));
        }
        ascending_part(rest, p);
        if p(s.last()) {
            assert forall|i: int, j: int| 0 <= i < j < few.len() + 1 implies (
            #[trigger] s.filter(p)[i]).0 < (#[trigger] s.filter(p)[j]).0 by {
                if j == few.len() {
                    laws::filtered_members(rest, p, few[i]);
                    assert(few.contains(few[i]));
                    let x = choose|x: int| 0 <= x < rest.len() && rest[x] == few[i];
                    assert(s[x].0.before(s[s.len() - 1].0));
                }
            }
        }
    }
}

/// The rows that a scan for filters finds: those that pass, each once, in the order of
/// their numbers.
proof fn scan_lists(s: StateView, table: Seq<char>, fs: Seq<FilterView>)
    requires
        session::usable(s, table),
        s.in_order(session::place_of(s, table)),
        query_laws::tellable(
            table::column_names(s.tables[session::place_of(s, table)].columns),
        ),
    ensures
        ({
            let i = session::place_of(s, table);
            let found = session::scan_matches(s, i, fs);
            let ids = passing_ids(s, table, fs);
            &&& forall|x: int|
                0 <= x < found.len() ==> ids.contains((#[trigger] found[x]).0) && found[x].1
                    == s.rows(i)[found[x].0] && query::row_of(
                    found[x].1,
                    table::column_names(s.tables[i].columns),
                ) == shown(s, table, found[x].0) && shown(s, table, found[x].0).id == found[x].0
            &&& forall|x: int, y: int|
                0 <= x < y < found.len() ==> (#[trigger] found[x]).0 < (#[trigger] found[y]).0
            &&& forall|k: u64| #[trigger]
                ids.contains(k) ==> exists|x: int|
                    0 <= x < found.len() && (#[trigger] found[x]).0 == k
            &&& found.len() == ids.len()
            &&& ids.finite()
        }),
{
    let i = session::place_of(s, table);
    let m = s.pages;
    let v = s.tables[i];
    let list = finder::row_list(m, v);
    let p = finder::found_by_scan(v, fs);
    let found = list.filter(p);
    let rows = s.rows(i);
    let ids = passing_ids(s, table, fs);
    laws::list_of_rows(m, v);
    ascending_part(list, p);
    assert forall|x: int| 0 <= x < found.len() implies ids.contains((#[trigger] found[x]).0)
        && found[x].1 == rows[found[x].0] && shown(s, table, found[x].0).id == found[x].0 by {
        laws::filtered_members(list, p, found[x]);
        assert(found.contains(found[x]));
        let y = choose|y: int| 0 <= y < list.len() && list[y] == found[x];
        assert(rows[list[y].0] == list[y].1);
        passes_is_named(v, fs, found[x].1);
    }
    assert forall|k: u64| #[trigger] ids.contains(k) implies exists|x: int|
        0 <= x < found.len() && (#[trigger] found[x]).0 == k by {
        passes_is_named(v, fs, rows[k]);
        assert(tree::item_find(list, k) == Some(rows[k]));
        let y = choose|y: int| 0 <= y < list.len() && (#[trigger] list[y]).0 == k;
        assert(rows[list[y].0] == list[y].1);
        laws::filtered_members(list, p, list[y]);
        assert(list.contains(list[y]));
        let x = choose|x: int| 0 <= x < found.len() && found[x] == list[y];
        assert(found[x].0 == k);
    }
    let keys = found.map_values(|it: (u64, Seq<u8>)| it.0);
    assert forall|a: int, b: int| 0 <= a < keys.len() && 0 <= b < keys.len() && a != b implies keys[a]
        != keys[b] by {
        if a < b {
            assert(found[a].0 < found[b].0);
        } else {
            assert(found[b].0 < found[a].0);
        }
    }
    assert(keys.no_duplicates());
    keys.unique_seq_to_set();
    assert forall|k: u64| keys.to_set().contains(k) <==> ids.contains(k) by {
        if ids.contains(k) {
            let x = choose|x: int| 0 <= x < found.len() && (#[trigger] found[x]).0 == k;
            assert(keys[x] == k);
        }
        if keys.contains(k) {
            let x = choose|x: int| 0 <= x < keys.len() && keys[x] == k;
            assert(found[x].0 == k);
        }
    }
    assert(keys.to_set() =~= ids);
}

proof fn list_counts(s: StateView, table: Seq<char>)
    requires
        session::usable(s, table),
        s.in_order(session::place_of(s, table)),
    ensures
        finder::row_list(
            s.pages,
            s.tables[session::place_of(s, table)],
        ).len() == s.rows(session::place_of(s, table)).dom().len(),
{
    let i = session::place_of(s, table);
    let list = finder::row_list(s.pages, s.tables[i]);
    let rows = s.rows(i);
    laws::list_of_rows(s.pages, s.tables[i]);
    let keys = list.map_values(|it: (u64, Seq<u8>)| it.0);
    assert forall|a: int, b: int| 0 <= a < keys.len() && 0 <= b < keys.len() && a != b implies keys[a]
        != keys[b] by {
        if a < b {
            assert(list[a].0.before(list[b].0));
        } else {
            assert(list[b].0.before(list[a].0));
        }
    }
    assert(keys.no_duplicates());
    keys.unique_seq_to_set();
    assert forall|k: u64| keys.to_set().contains(k) <==> rows.dom().contains(k) by {
        if rows.contains_key(k) {
            assert(tree::item_find(list, k) == Some(rows[k]));
            let y = choose|y: int| 0 <= y < list.len() && (#[trigger] list[y]).0 == k;
            assert(keys[y] == k);
        }
        if keys.contains(k) {
            let x = choose|x: int| 0 <= x < keys.len() && keys[x] == k;
            assert(rows.contains_key(list[x].0));
        }
    }
    assert(keys.to_set() =~= rows.dom());
}

/// A search of the database and one in a transaction give the same.
pub proof fn find_is_scan(s: StateView, table: Seq<char>, opts: FindOptions, r: Result<FindResult>)
    requires
        in_reach(s, table, query::filters_view(opts.filters@)),
        db_rows::found(s, table, opts, r),
    ensures
        session::scan_found(s, table, opts, r),
        r is Ok,
{
    let i = session::place_of(s, table);
    list_counts(s, table);
    search_is_scan(s.pages, s.tables[i], query::filters_view(opts.filters@));
}

// ---------------------------------------------------------------------------
// What is found
// ---------------------------------------------------------------------------

/// Nothing is skipped and nothing cut off.
pub open spec fn whole_answer(opts: FindOptions) -> bool {
    opts.offset is None && opts.limit is None
}

/// The rows of an answer are rows of the table that pass all filters, each once. If nothing
/// was skipped or cut off they are all that pass. The total, if it was asked for, is how
/// many pass.
pub open spec fn right_answer(
    s: StateView,
    table: Seq<char>,
    opts: FindOptions,
    f: FindResult,
) -> bool {
    let fs = query::filters_view(opts.filters@);
    let rows = s.rows(session::place_of(s, table));
    let out = query::rows_view(f.rows@);
    &&& forall|x: int|
        0 <= x < out.len() ==> rows.contains_key((#[trigger] out[x]).id) && out[x] == shown(
            s,
            table,
            out[x].id,
        ) && passes_all(out[x], fs)
    &&& forall|x: int, y: int|
        0 <= x < y < out.len() ==> (#[trigger] out[x]).id != (#[trigger] out[y]).id
    &&& whole_answer(opts) ==> forall|k: u64|
        rows.contains_key(k) && passes_all(#[trigger] shown(s, table, k), fs) ==> exists|x: int|
            0 <= x < out.len() && (#[trigger] out[x]).id == k
    &&& f.total is Some <==> opts.include_total
    &&& f.total matches Some(n) ==> n == passing_ids(s, table, fs).len()
    &&& whole_answer(opts) ==> out.len() == passing_ids(s, table, fs).len()
}

/// What a query makes of the rows that it is about, before it skips any.
spec fn all_found(s: StateView, table: Seq<char>, opts: FindOptions) -> Seq<RowView> {
    let i = session::place_of(s, table);
    query::sorted_by_all(
        finder::named(
            session::scan_matches(s, i, query::filters_view(opts.filters@)),
            s.tables[i],
        ),
        opts.sort@,
    )
}

proof fn sorting_permutes(rows: Seq<RowView>, sorts: Seq<Sort>)
    ensures
        query::sorted_by_all(rows, sorts).to_multiset() == rows.to_multiset(),
        query::sorted_by_all(rows, sorts).len() == rows.len(),
    decreases sorts.len(),
{
    if sorts.len() > 0 {
        let next = query::sorted_by(rows, sorts.last().column@, sorts.last().dir);
        query::sorting_orders(rows, sorts.last().column@, sorts.last().dir);
        sorting_permutes(next, sorts.drop_last());
    }
}

/// Rows with different numbers still have different numbers in another order.
proof fn permuted_once(a: Seq<RowView>, b: Seq<RowView>)
    requires
        a.to_multiset() == b.to_multiset(),
        forall|x: int, y: int| 0 <= x < y < a.len() ==> (#[trigger] a[x]).id < (#[trigger] a[y]).id,
    ensures
        forall|x: RowView| #[trigger] b.contains(x) <==> a.contains(x),
        forall|x: int, y: int|
            0 <= x < y < b.len() ==> (#[trigger] b[x]).id != (#[trigger] b[y]).id,
{
    a.to_multiset_ensures();
    b.to_multiset_ensures();
    assert forall|x: RowView| #[trigger] b.contains(x) <==> a.contains(x) by {
        assert(b.contains(x) <==> b.to_multiset().count(x) > 0);
        assert(a.contains(x) <==> a.to_multiset().count(x) > 0);
    }
    assert forall|x: int, y: int| 0 <= x < a.len() && 0 <= y < a.len() && x != y implies a[x] != a[y] by {
        if x < y {
            assert(a[x].id < a[y].id);
        } else {
            assert(a[y].id < a[x].id);
        }
    }
    assert(a.no_duplicates());
    a.lemma_multiset_has_no_duplicates();
    b.lemma_multiset_has_no_duplicates_conv();
    assert(b.no_duplicates());
    assert forall|x: int, y: int| 0 <= x < y < b.len() implies (#[trigger] b[x]).id != (
    #[trigger] b[y]).id by {
        assert(b[x] != b[y]);
        assert(b.contains(b[x]) && b.contains(b[y]));
        let p = choose|p: int| 0 <= p < a.len() && a[p] == b[x];
        let q = choose|q: int| 0 <= q < a.len() && a[q] == b[y];
        if p < q {
            assert(a[p].id < a[q].id);
        } else if q < p {
            assert(a[q].id < a[p].id);
        }
    }
}

proof fn all_found_right(s: StateView, table: Seq<char>, opts: FindOptions)
    requires
        session::usable(s, table),
        s.in_order(session::place_of(s, table)),
        query_laws::tellable(
            table::column_names(s.tables[session::place_of(s, table)].columns),
        ),
    ensures
        ({
            let fs = query::filters_view(opts.filters@);
            let ids = passing_ids(s, table, fs);
            let out = all_found(s, table, opts);
            &&& out.len() == ids.len()
            &&& forall|x: int|
                0 <= x < out.len() ==> ids.contains((#[trigger] out[x]).id) && out[x] == shown(
                    s,
                    table,
                    out[x].id,
                )
            &&& forall|x: int, y: int|
                0 <= x < y < out.len() ==> (#[trigger] out[x]).id != (#[trigger] out[y]).id
            &&& forall|k: u64| #[trigger]
                ids.contains(k) ==> exists|x: int| 0 <= x < out.len() && (#[trigger] out[x]).id == k
        }),
{
    let i = session::place_of(s, table);
    let fs = query::filters_view(opts.filters@);
    let ids = passing_ids(s, table, fs);
    let found = session::scan_matches(s, i, fs);
    let a = finder::named(found, s.tables[i]);
    let out = all_found(s, table, opts);
    scan_lists(s, table, fs);
    assert forall|x: int| 0 <= x < a.len() implies #[trigger] a[x] == shown(s, table, found[x].0)
        && a[x].id == found[x].0 by {
        assert(ids.contains(found[x].0));
    }
    assert forall|x: int, y: int| 0 <= x < y < a.len() implies (#[trigger] a[x]).id < (
    #[trigger] a[y]).id by {
        assert(found[x].0 < found[y].0);
    }
    sorting_permutes(a, opts.sort@);
    permuted_once(a, out);
    assert forall|x: int| 0 <= x < out.len() implies ids.contains((#[trigger] out[x]).id) && out[x]
        == shown(s, table, out[x].id) by {
        assert(out.contains(out[x]));
        let p = choose|p: int| 0 <= p < a.len() && a[p] == out[x];
        assert(ids.contains(found[p].0));
    }
    assert forall|k: u64| #[trigger] ids.contains(k) implies exists|x: int|
        0 <= x < out.len() && (#[trigger] out[x]).id == k by {
        let p = choose|p: int| 0 <= p < found.len() && (#[trigger] found[p]).0 == k;
        assert(a[p].id == k);
        assert(a.contains(a[p]));
        assert(out.contains(a[p]));
        let x = choose|x: int| 0 <= x < out.len() && out[x] == a[p];
        assert(out[x].id == k);
    }
}

/// The part of rows that an offset and a limit cut out.
proof fn part_of_rows(all: Seq<RowView>, offset: Option<u32>, limit: Option<u32>)
    requires
        all.len() <= u32::MAX,
    ensures
        ({
            let out = query::page_rows(all, offset, limit);
            let skip: int = match offset {
                Some(n) => n as int,
                None => 0,
            };
            let left = all.len() - skip;
            &&& left <= 0 ==> out.len() == 0
            &&& left > 0 && limit is None ==> out.len() == left
            &&& left > 0 && (limit matches Some(n) && n >= left) ==> out.len() == left
            &&& left > 0 && (limit matches Some(n) && n < left) ==> out.len() == limit->0
            &&& forall|x: int| 0 <= x < out.len() ==> #[trigger] out[x] == all[skip + x]
            &&& out.len() > 0 ==> skip + out.len() <= all.len()
            &&& offset is None && limit is None ==> out == all
        }),
{
    if offset is None && limit is None {
        assert(query::page_rows(all, offset, limit) =~= all);
    }
}

/// There are no more rows to be found than can be counted.
proof fn found_countable(s: StateView, table: Seq<char>, opts: FindOptions)
    requires
        in_reach(s, table, query::filters_view(opts.filters@)),
    ensures
        all_found(s, table, opts).len() <= u32::MAX,
        all_found(s, table, opts).len() == session::scan_matches(
            s,
            session::place_of(s, table),
            query::filters_view(opts.filters@),
        ).len(),
{
    let i = session::place_of(s, table);
    let fs = query::filters_view(opts.filters@);
    list_counts(s, table);
    shorter(finder::row_list(s.pages, s.tables[i]), finder::found_by_scan(s.tables[i], fs));
    sorting_permutes(finder::named(session::scan_matches(s, i, fs), s.tables[i]), opts.sort@);
}

/// A search in a transaction gives the rows that pass all filters, and no others.
pub proof fn transaction_finds_what_passes(
    s: StateView,
    table: Seq<char>,
    opts: FindOptions,
    r: Result<FindResult>,
)
    requires
        in_reach(s, table, query::filters_view(opts.filters@)),
        session::scan_found(s, table, opts, r),
    ensures
        r matches Ok(f) && right_answer(s, table, opts, f),
{
    let fs = query::filters_view(opts.filters@);
    let all = all_found(s, table, opts);
    let f = r->Ok_0;
    let out = query::rows_view(f.rows@);
    all_found_right(s, table, opts);
    found_countable(s, table, opts);
    part_of_rows(all, opts.offset, opts.limit);
    let skip = skipped(opts);
    let ids = passing_ids(s, table, fs);
    assert(out == query::page_rows(all, opts.offset, opts.limit));
    assert forall|x: int| 0 <= x < out.len() implies s.rows(session::place_of(s, table)).contains_key(
        (#[trigger] out[x]).id,
    ) && out[x] == shown(s, table, out[x].id) && passes_all(out[x], fs) by {
        assert(out[x] == all[skip + x]);
        assert(ids.contains(all[skip + x].id));
    }
    assert forall|x: int, y: int| 0 <= x < y < out.len() implies (#[trigger] out[x]).id != (
    #[trigger] out[y]).id by {
        assert(out[x] == all[skip + x] && out[y] == all[skip + y]);
    }
    if whole_answer(opts) {
        assert forall|k: u64|
            s.rows(session::place_of(s, table)).contains_key(k) && passes_all(
                #[trigger] shown(s, table, k),
                fs,
            ) implies exists|x: int| 0 <= x < out.len() && (#[trigger] out[x]).id == k by {
            assert(ids.contains(k));
        }
    }
}

proof fn shorter(s: Seq<(u64, Seq<u8>)>, p: spec_fn((u64, Seq<u8>)) -> bool)
    ensures
        s.filter(p).len() <= s.len(),
    decreases s.len(),
{
    reveal(Seq::filter);
    if s.len() > 0 {
        shorter(s.drop_last(), p);
    }
}

/// A search gives the rows that pass all filters, and no others, whether an index answers
/// it or not.
pub proof fn find_gives_what_passes(
    s: StateView,
    table: Seq<char>,
    opts: FindOptions,
    r: Result<FindResult>,
)
    requires
        in_reach(s, table, query::filters_view(opts.filters@)),
        db_rows::found(s, table, opts, r),
    ensures
        r matches Ok(f) && right_answer(s, table, opts, f),
{
    find_is_scan(s, table, opts, r);
    transaction_finds_what_passes(s, table, opts, r);
}

/// The rows of an answer stand in the order that was asked for: the first column in which
/// two rows differ decides, and rows that differ in none stand in the order of their
/// numbers.
pub proof fn find_sorts(
    s: StateView,
    table: Seq<char>,
    opts: FindOptions,
    ts: Seq<Type>,
    r: Result<FindResult>,
    x: int,
    y: int,
)
    requires
        in_reach(s, table, query::filters_view(opts.filters@)),
        db_rows::found(s, table, opts, r) || session::scan_found(s, table, opts, r),
        ts.len() == opts.sort@.len(),
        forall|n: int, k: u64|
            #![trigger ts[n], s.rows(session::place_of(s, table)).contains_key(k)]
            0 <= n < ts.len() && s.rows(session::place_of(s, table)).contains_key(k)
                ==> query_laws::kind_ok(shown(s, table, k), opts.sort@[n].column@, ts[n]),
    ensures
        r matches Ok(f) && (0 <= x < y < f.rows@.len() ==> query_laws::belongs_before(
            f.rows@[x]@,
            f.rows@[y]@,
            opts.sort@,
        )),
{
    if db_rows::found(s, table, opts, r) {
        find_is_scan(s, table, opts, r);
    }
    let i = session::place_of(s, table);
    let fs = query::filters_view(opts.filters@);
    let found = session::scan_matches(s, i, fs);
    let a = finder::named(found, s.tables[i]);
    let f = r->Ok_0;
    let all = all_found(s, table, opts);
    scan_lists(s, table, fs);
    assert forall|p: int, q: int| 0 <= p < q < a.len() implies (#[trigger] a[p]).id < (
    #[trigger] a[q]).id by {
        assert(found[p].0 < found[q].0);
        assert(passing_ids(s, table, fs).contains(found[p].0));
        assert(passing_ids(s, table, fs).contains(found[q].0));
    }
    assert forall|n: int| 0 <= n < opts.sort@.len() implies query_laws::one_kind(
        a,
        (#[trigger] opts.sort@[n]).column@,
        ts[n],
    ) by {
        assert forall|p: int| 0 <= p < a.len() implies query_laws::kind_ok(
            #[trigger] a[p],
            opts.sort@[n].column@,
            ts[n],
        ) by {
            assert(passing_ids(s, table, fs).contains(found[p].0));
            assert(a[p] == shown(s, table, found[p].0));
            assert(ts[n] == ts[n]);
            assert(s.rows(i).contains_key(found[p].0));
        }
    }
    query_laws::sorted_by_columns(a, opts.sort@, ts);
    let skip = query::skip_of(opts.offset);
    let out = query::rows_view(f.rows@);
    assert(out == query::page_rows(all, opts.offset, opts.limit));
    if 0 <= x < y < f.rows@.len() {
        assert(out[x] == all[skip + x] && out[y] == all[skip + y]);
        assert(out[x] == f.rows@[x]@ && out[y] == f.rows@[y]@);
        assert(query_laws::belongs_before(all[skip + x], all[skip + y], opts.sort@));
    }
}

/// How many rows are skipped.
pub open spec fn skipped(opts: FindOptions) -> int {
    match opts.offset {
        Some(n) => n as int,
        None => 0,
    }
}

/// A search with an offset and a limit gives that part of what the same search gives
/// without them, and counts all of it.
pub proof fn find_cuts_out_a_part(
    s: StateView,
    table: Seq<char>,
    part: FindOptions,
    whole: FindOptions,
    x: FindResult,
    y: FindResult,
)
    requires
        in_reach(s, table, query::filters_view(whole.filters@)),
        query::filters_view(part.filters@) == query::filters_view(whole.filters@),
        part.sort@ == whole.sort@,
        whole_answer(whole),
        db_rows::found(s, table, part, Ok(x)) || session::scan_found(s, table, part, Ok(x)),
        db_rows::found(s, table, whole, Ok(y)) || session::scan_found(s, table, whole, Ok(y)),
    ensures
        skipped(part) >= y.rows@.len() ==> x.rows@.len() == 0,
        skipped(part) < y.rows@.len() && part.limit is None ==> x.rows@.len() == y.rows@.len()
            - skipped(part),
        skipped(part) < y.rows@.len() && (part.limit matches Some(n) && n >= y.rows@.len() - skipped(
            part,
        )) ==> x.rows@.len() == y.rows@.len() - skipped(part),
        skipped(part) < y.rows@.len() && (part.limit matches Some(n) && n < y.rows@.len() - skipped(
            part,
        )) ==> x.rows@.len() == part.limit->0,
        forall|j: int|
            0 <= j < x.rows@.len() ==> (#[trigger] x.rows@[j])@ == y.rows@[skipped(part) + j]@,
        part.include_total ==> (x.total matches Some(n) && n == y.rows@.len()),
        !part.include_total ==> x.total is None,
{
    if db_rows::found(s, table, part, Ok(x)) {
        find_is_scan(s, table, part, Ok(x));
    }
    if db_rows::found(s, table, whole, Ok(y)) {
        find_is_scan(s, table, whole, Ok(y));
    }
    let all = all_found(s, table, whole);
    let out = query::rows_view(x.rows@);
    let full = query::rows_view(y.rows@);
    found_countable(s, table, whole);
    part_of_rows(all, part.offset, part.limit);
    part_of_rows(all, whole.offset, whole.limit);
    assert(full == all);
    assert(out == query::page_rows(all, part.offset, part.limit));
    assert(out.len() == x.rows@.len() && full.len() == y.rows@.len());
    assert forall|j: int| 0 <= j < x.rows@.len() implies (#[trigger] x.rows@[j])@ == y.rows@[skipped(
        part,
    ) + j]@ by {
        assert(out[j] == x.rows@[j]@);
        assert(out[j] == all[skipped(part) + j]);
        assert(full[skipped(part) + j] == y.rows@[skipped(part) + j]@);
    }
}

/// Counting gives how many rows pass all filters, which is how many a search finds.
pub proof fn count_is_find(
    s: StateView,
    table: Seq<char>,
    fs: Seq<FilterView>,
    n: Result<u64>,
)
    requires
        in_reach(s, table, fs),
        db_rows::counted(s, table, fs, n) || session::scan_counted(s, table, fs, n),
    ensures
        n matches Ok(c) && c == passing_ids(s, table, fs).len(),
        forall|opts: FindOptions, f: FindResult|
            query::filters_view(opts.filters@) == fs && whole_answer(opts) && #[trigger]
            db_rows::found(s, table, opts, Ok(f)) ==> n == Ok::<u64, BoogyError>(
                f.rows@.len() as u64,
            ),
{
    let i = session::place_of(s, table);
    let v = s.tables[i];
    list_counts(s, table);
    search_is_scan(s.pages, v, fs);
    scan_lists(s, table, fs);
    if fs.len() == 0 {
        assert(passing_ids(s, table, fs) =~= s.rows(i).dom());
        reveal(engine::table_sound);
    }
    assert forall|opts: FindOptions, f: FindResult|
        query::filters_view(opts.filters@) == fs && whole_answer(opts) && #[trigger]
        db_rows::found(s, table, opts, Ok(f)) implies n == Ok::<u64, BoogyError>(
        f.rows@.len() as u64,
    ) by {
        find_gives_what_passes(s, table, opts, Ok(f));
        assert(query::rows_view(f.rows@).len() == f.rows@.len());
    }
}

/// A search for an integer above, below or equal to a bound finds exactly the rows whose
/// integer is above, below or equal to it.
pub proof fn find_by_integer(
    s: StateView,
    table: Seq<char>,
    opts: FindOptions,
    r: Result<FindResult>,
    f: FilterView,
    bound: i64,
    k: u64,
    x: i64,
)
    requires
        query::filters_view(opts.filters@) == seq![f],
        f.value == ValueView::Integer(bound),
        whole_answer(opts),
        in_reach(s, table, seq![f]),
        db_rows::found(s, table, opts, r),
        s.rows(session::place_of(s, table)).contains_key(k),
        query::value_in(shown(s, table, k), f.column) == Some(ValueView::Integer(x)),
    ensures
        r is Ok,
        ({
            let given = exists|j: int|
                0 <= j < r->Ok_0.rows@.len() && (#[trigger] r->Ok_0.rows@[j])@.id == k;
            &&& f.op == FilterOp::Eq ==> (given <==> x == bound)
            &&& f.op == FilterOp::Ne ==> (given <==> x != bound)
            &&& f.op == FilterOp::Lt ==> (given <==> x < bound)
            &&& f.op == FilterOp::Le ==> (given <==> x <= bound)
            &&& f.op == FilterOp::Gt ==> (given <==> x > bound)
            &&& f.op == FilterOp::Ge ==> (given <==> x >= bound)
        }),
{
    find_gives_what_passes(s, table, opts, r);
    value_laws::operators_on_integers(x, bound);
    let out = query::rows_view(r->Ok_0.rows@);
    let fs = seq![f];
    assert(fs[0] == f);
    let yes = filter::holds(ValueView::Integer(x), f.op, ValueView::Integer(bound));
    if yes {
        assert(passes_all(shown(s, table, k), fs));
        let j = choose|j: int| 0 <= j < out.len() && (#[trigger] out[j]).id == k;
        assert(r->Ok_0.rows@[j]@ == out[j]);
    }
    if exists|j: int| 0 <= j < r->Ok_0.rows@.len() && (#[trigger] r->Ok_0.rows@[j])@.id == k {
        let j = choose|j: int|
            0 <= j < r->Ok_0.rows@.len() && (#[trigger] r->Ok_0.rows@[j])@.id == k;
        assert(out[j] == r->Ok_0.rows@[j]@);
        assert(passes_all(out[j], fs));
        assert(filter::holds(read_or_null(out[j], fs[0].column), fs[0].op, fs[0].value));
    }
}

}
