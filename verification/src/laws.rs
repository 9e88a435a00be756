//! What holds of the operations on rows together: what was written is read back,
//! other rows stay, and an index finds what a scan finds.

use crate::btree;
use crate::db;
use crate::db::BoogyDb;
use crate::db_rows;
use crate::engine;
use crate::error::Result;
use crate::filter::{FilterOp, FilterView, FindOptions};
use crate::finder;
use crate::index;
use crate::index_node;
use crate::index_tree;
use crate::query;
use crate::query::{FindResult, Row};
use crate::row;
use crate::session;
use crate::session::StateView;
use crate::store;
use crate::table;
use crate::table::{IndexView, TableView};
use crate::transaction;
use crate::tree;
use crate::tree::Key;
use crate::value::{ColumnView, Type, ValueView};
use vstd::prelude::*;

verus! {

/// A table keeps its place and its columns when its rows change.
pub proof fn place_stays(s: StateView, s2: StateView, table: Seq<char>)
    requires
        session::usable(s, table),
        session::retabled(s, s2, session::place_of(s, table)),
    ensures
        session::usable(s2, table),
        session::place_of(s2, table) == session::place_of(s, table),
        s2.tables[session::place_of(s, table)].columns == s.tables[session::place_of(
            s,
            table,
        )].columns,
{
    let i = session::place_of(s, table);
    table::place_first(table::table_names_of(s.tables), table);
    assert(s2.tables[i].name == s.tables[i].name);
    assert(table::table_names_of(s2.tables) =~= table::table_names_of(s.tables));
}

/// A row that was inserted can be read back: it is not too long.
pub open spec fn keepable(v: TableView, k: u64, data: Seq<(Seq<char>, ValueView)>) -> bool {
    let bytes = engine::new_row(v, k, data);
    v.row_count < u64::MAX && store::readable(bytes)
}

/// A row that was inserted is read back.
pub proof fn insert_then_get(
    s: StateView,
    s2: StateView,
    table: Seq<char>,
    data: Seq<(Seq<char>, ValueView)>,
    max: u32,
    id: u64,
    r: Result<Option<Row>>,
)
    requires
        s.in_order(session::place_of(s, table)),
        session::usable(s, table),
        keepable(s.tables[session::place_of(s, table)], id, data),
        session::inserted(s, s2, table, data, max, Ok(id)),
        session::got(s2, table, id, r),
    ensures
        r matches Ok(Some(row)) && row@ == query::row_of(
            engine::new_row(s.tables[session::place_of(s, table)], id, data),
            table::column_names(s.tables[session::place_of(s, table)].columns),
        ) && row@.id == id,
{
    let i = session::place_of(s, table);
    let v = s.tables[i];
    place_stays(s, s2, table);
    engine::row_starts(id, engine::picked(v.columns, data));
    assert(s2.rows(i).contains_key(id));
    assert(s2.rows(i)[id] == engine::new_row(v, id, data));
}

/// A row that was inserted under a number of its own is read back.
pub proof fn insert_with_id_then_get(
    s: StateView,
    s2: StateView,
    table: Seq<char>,
    k: u64,
    data: Seq<(Seq<char>, ValueView)>,
    max: u32,
    r: Result<Option<Row>>,
)
    requires
        s.in_order(session::place_of(s, table)),
        session::usable(s, table),
        keepable(s.tables[session::place_of(s, table)], k, data),
        session::inserted_with_id(s, s2, table, k, data, max, Ok(())),
        session::got(s2, table, k, r),
    ensures
        r matches Ok(Some(row)) && row@ == query::row_of(
            engine::new_row(s.tables[session::place_of(s, table)], k, data),
            table::column_names(s.tables[session::place_of(s, table)].columns),
        ) && row@.id == k,
{
    let i = session::place_of(s, table);
    let v = s.tables[i];
    place_stays(s, s2, table);
    engine::row_starts(k, engine::picked(v.columns, data));
    assert(s2.rows(i).contains_key(k));
    assert(s2.rows(i)[k] == engine::new_row(v, k, data));
}

/// An insert leaves all other rows, of this table and of others, as they were.
pub proof fn insert_keeps_others(
    s: StateView,
    s2: StateView,
    table: Seq<char>,
    k: u64,
    data: Seq<(Seq<char>, ValueView)>,
    max: u32,
)
    requires
        s.in_order(session::place_of(s, table)),
        session::usable(s, table),
        keepable(s.tables[session::place_of(s, table)], k, data),
        session::inserted_with_id(s, s2, table, k, data, max, Ok(())),
    ensures
        s2.in_order(session::place_of(s, table)),
        s.sound() ==> s2.sound(),
        forall|x: u64|
            x != k ==> (#[trigger] s2.rows(session::place_of(s, table)).contains_key(x) <==> s.rows(
                session::place_of(s, table),
            ).contains_key(x)) && (s.rows(session::place_of(s, table)).contains_key(x) ==> s2.rows(
                session::place_of(s, table),
            )[x] == s.rows(session::place_of(s, table))[x]),
        forall|j: int|
            0 <= j < s.tables.len() && j != session::place_of(s, table) && s.in_order(j)
                && engine::separate(
                s.pages,
                s.tables[j],
                s.tables[session::place_of(s, table)],
            ) ==> s2.in_order(j) && #[trigger] s2.rows(j) == s.rows(j),
{
    let i = session::place_of(s, table);
    table::place_first(table::table_names_of(s.tables), table);
    assert forall|j: int|
        0 <= j < s.tables.len() && j != i && s.in_order(j) && engine::separate(
            s.pages,
            s.tables[j],
            s.tables[i],
        ) implies s2.in_order(j) && #[trigger] s2.rows(j) == s.rows(j) by {
        assert(s2.tables[j] == s.tables[j]);
    }
}

/// A row that was deleted is not read back, and all other rows are as they were.
pub proof fn delete_then_get(
    s: StateView,
    s2: StateView,
    table: Seq<char>,
    k: u64,
    r: Result<Option<Row>>,
)
    requires
        s.in_order(session::place_of(s, table)),
        session::usable(s, table),
        session::deleted(s, s2, table, k, Ok(true)),
        session::got(s2, table, k, r),
    ensures
        r == Ok::<Option<Row>, crate::error::BoogyError>(None),
        s2.in_order(session::place_of(s, table)),
        s.sound() ==> s2.sound(),
        forall|x: u64|
            x != k ==> (#[trigger] s2.rows(session::place_of(s, table)).contains_key(x) <==> s.rows(
                session::place_of(s, table),
            ).contains_key(x)) && (s.rows(session::place_of(s, table)).contains_key(x) ==> s2.rows(
                session::place_of(s, table),
            )[x] == s.rows(session::place_of(s, table))[x]),
{
    let i = session::place_of(s, table);
    table::place_first(table::table_names_of(s.tables), table);
    place_stays(s, s2, table);
    assert(!s2.rows(i).contains_key(k));
}

/// A row that was updated is read back as it was updated.
pub proof fn update_then_get(
    s: StateView,
    s2: StateView,
    table: Seq<char>,
    k: u64,
    fields: Seq<(Seq<char>, ValueView)>,
    max: u32,
    r: Result<Option<Row>>,
)
    requires
        s.in_order(session::place_of(s, table)),
        session::usable(s, table),
        session::updated(s, s2, table, k, fields, max, Ok(true)),
        ({
            let i = session::place_of(s, table);
            store::readable(engine::updated_row(s.tables[i], k, s.rows(i)[k], fields))
        }),
        session::got(s2, table, k, r),
    ensures
        ({
            let i = session::place_of(s, table);
            r matches Ok(Some(row)) && row@ == query::row_of(
                engine::updated_row(s.tables[i], k, s.rows(i)[k], fields),
                table::column_names(s.tables[i].columns),
            )
        }),
{
    let i = session::place_of(s, table);
    table::place_first(table::table_names_of(s.tables), table);
    place_stays(s, s2, table);
    assert(s2.rows(i).contains_key(k));
}

/// A column of a table is found under its place.
proof fn column_at(columns: Seq<ColumnView>, name: Seq<char>)
    requires
        table::column_names(columns).no_duplicates(),
        columns.len() <= 0x1_0000,
    ensures
        match table::place(table::column_names(columns), name) {
            None => table::column_id(columns, name) is None,
            Some(i) => table::column_id(columns, name) == Some(row::low16(i)),
        },
    decreases columns.len(),
{
    let names = table::column_names(columns);
    if columns.len() > 0 {
        let rest = columns.drop_last();
        let few = table::column_names(rest);
        assert(few =~= names.drop_last());
        column_at(rest, name);
        table::place_first(few, name);
        assert(names.last() == columns.last().name);
        if columns.last().name == name && table::place(few, name) is Some {
            let i = table::place(few, name)->0;
            assert(few[i] == names[i]);
            assert(names[i] == names[names.len() - 1]);
        }
    }
}

/// Two names are of the same column only if they are equal.
proof fn columns_differ(columns: Seq<ColumnView>, a: Seq<char>, b: Seq<char>)
    requires
        table::column_names(columns).no_duplicates(),
        columns.len() <= 0x1_0000,
        table::column_id(columns, a) is Some,
        table::column_id(columns, a) == table::column_id(columns, b),
    ensures
        a == b,
{
    column_at(columns, a);
    column_at(columns, b);
    table::place_first(table::column_names(columns), a);
    table::place_first(table::column_names(columns), b);
}

/// What is picked for a column was given for it.
proof fn picked_from(
    columns: Seq<ColumnView>,
    data: Seq<(Seq<char>, ValueView)>,
    name: Seq<char>,
    x: ValueView,
)
    requires
        table::column_names(columns).no_duplicates(),
        columns.len() <= 0x1_0000,
        table::column_id(columns, name) is Some,
    ensures
        engine::picked(columns, data).contains((table::column_id(columns, name)->0, x))
            <==> data.contains((name, x)),
    decreases data.len(),
{
    let c = table::column_id(columns, name)->0;
    let all = engine::picked(columns, data);
    if data.len() > 0 {
        let rest = data.drop_last();
        let few = engine::picked(columns, rest);
        let l = data.last();
        picked_from(columns, rest, name, x);
        assert(data =~= rest.push(l));
        if data.contains((name, x)) {
            let i = choose|i: int| 0 <= i < data.len() && data[i] == (name, x);
            if i < rest.len() {
                assert(rest[i] == (name, x));
                let k = choose|k: int| 0 <= k < few.len() && few[k] == (c, x);
                assert(all[k] == (c, x));
            } else {
                assert(all[all.len() - 1] == (c, x));
            }
        }
        if all.contains((c, x)) {
            let k = choose|k: int| 0 <= k < all.len() && all[k] == (c, x);
            if k < few.len() {
                assert(few[k] == (c, x));
                let i = choose|i: int| 0 <= i < rest.len() && rest[i] == (name, x);
                assert(data[i] == (name, x));
            } else {
                columns_differ(columns, name, l.0);
                assert(data[data.len() - 1] == (name, x));
            }
        }
    }
}

/// A column of a row has the value that was given for it, and none if none was
/// given.
pub proof fn row_has_values(
    v: TableView,
    k: u64,
    data: Seq<(Seq<char>, ValueView)>,
    name: Seq<char>,
)
    requires
        table::column_names(v.columns).no_duplicates(),
        v.columns.len() <= 0x1_0000,
        row::cols_fit(row::by_id(engine::picked(v.columns, data))),
        row::ids_distinct(row::by_id(engine::picked(v.columns, data))),
    ensures
        match query::value_in(
            query::row_of(engine::new_row(v, k, data), table::column_names(v.columns)),
            name,
        ) {
            Some(x) => data.contains((name, x)),
            None => table::column_id(v.columns, name) is None || forall|x: ValueView|
                !data.contains((name, x)),
        },
{
    let cols = engine::picked(v.columns, data);
    column_at(v.columns, name);
    if table::column_id(v.columns, name) is Some {
        let c = table::column_id(v.columns, name)->0;
        row::column_round_trip(k, cols, c);
        assert forall|x: ValueView| cols.contains((c, x)) <==> data.contains((name, x)) by {
            picked_from(v.columns, data, name, x);
        }
        if row::column_of(row::row_bytes(k, cols), c) == Some(None::<ValueView>) {
            assert forall|x: ValueView| !cols.contains((c, x)) by {
                if cols.contains((c, x)) {
                    let j = choose|j: int| 0 <= j < cols.len() && cols[j] == (c, x);
                    assert(cols[j].0 != c);
                }
            }
        }
    }
}

/// The value suits a column of a type that an index can order: it is null, or of
/// that type, and a text has no zero byte.
pub open spec fn ordered(t: Type, x: ValueView) -> bool {
    match x {
        ValueView::Null => true,
        ValueView::Integer(_) => t == Type::Integer,
        ValueView::Text(s) => t == Type::Text && index::no_zero(s),
        _ => false,
    }
}

/// An index on a column of integers or texts finds a row by a value exactly if the
/// filter accepts the row.
pub proof fn index_finds_what_filter_accepts(
    v: TableView,
    ix: IndexView,
    t: Type,
    f: FilterView,
    k: u64,
    bytes: Seq<u8>,
)
    requires
        f.op == FilterOp::Eq,
        f.value != ValueView::Null,
        table::leading(ix) == f.column,
        table::column_type(v.columns, f.column) == Some(t),
        ordered(t, f.value),
        ordered(t, query::actual(v.columns, f.column, bytes)),
        store::entry_of(v.columns, ix, bytes, k) is Some,
    ensures
        finder::filter_code(v, f) matches Some(p) && (finder::index_hit(v, ix, p, (k, bytes))
            <==> query::accepts(v.columns, f, bytes)),
{
    let x = query::actual(v.columns, f.column, bytes);
    table::column_known(v.columns, f.column);
    match (x, f.value) {
        (ValueView::Integer(a), ValueView::Integer(b)) => {
            index::integer_prefix_matches(b, a, k);
        },
        (ValueView::Text(a), ValueView::Text(b)) => {
            index::text_prefix_matches(b, a, k);
        },
        _ => {},
    }
}

/// A search for one filter finds the rows that the filter accepts, in the order of their
/// numbers, whether an index on a column of integers or texts answers it or a scan does.
pub proof fn search_is_filter(m: Map<u32, Seq<u8>>, v: TableView, t: Type, f: FilterView)
    requires
        finder::searchable(m, v, seq![f]),
        table::column_type(v.columns, f.column) == Some(t),
        t == Type::Integer || t == Type::Text,
        table::column_id(v.columns, f.column) matches Some(c) ==> laid_out(
            m,
            btree::all_cells(m, v.root_page),
            c,
        ),
        table::index_for(v.indexes, f.column) matches Some(n) ==> forall|i: int|
            0 <= i < finder::row_list(m, v).len() ==> ordered(
                t,
                query::actual(v.columns, f.column, (#[trigger] finder::row_list(m, v)[i]).1),
            ) && store::entry_of(
                v.columns,
                v.indexes[n],
                finder::row_list(m, v)[i].1,
                finder::row_list(m, v)[i].0,
            ) is Some,
    ensures
        finder::matching(m, v, seq![f]) == finder::row_list(m, v).filter(
            finder::found_by_scan(v, seq![f]),
        ),
{
    let fs = seq![f];
    assert(fs.drop_last() =~= Seq::empty());
    assert(finder::index_filter(v, Seq::empty()) is None);
    assert(fs[0] == f);
    table::column_known(v.columns, f.column);
    if finder::answers(v, f) {
        index_search_is_scan(m, v, t, f);
    } else {
        assert(finder::index_filter(v, fs) is None);
        let c = table::column_id(v.columns, f.column)->0;
        scan_is_filter(m, v, f, c, btree::all_cells(m, v.root_page));
    }
}

/// Where the directories of rows name a column, they lead to its bytes.
pub open spec fn laid_out(m: Map<u32, Seq<u8>>, cells: Seq<(u64, Seq<u8>)>, c: u16) -> bool {
    forall|i: int|
        0 <= i < cells.len() ==> (row::lookup(
            btree::whole(m, (#[trigger] cells[i]).1).1,
            c,
        ) is At ==> btree::has_raw(btree::whole(m, cells[i].1).1, c))
}

/// Filtering cells by one filter is filtering the rows that they stand for.
pub proof fn scan_is_filter(
    m: Map<u32, Seq<u8>>,
    v: TableView,
    f: FilterView,
    c: u16,
    cells: Seq<(u64, Seq<u8>)>,
)
    requires
        table::column_id(v.columns, f.column) == Some(c),
        btree::filterable(m, cells, c),
        laid_out(m, cells, c),
    ensures
        btree::expanded(m, cells.filter(btree::hits(m, c, f.op, f.value))) == btree::expanded(
            m,
            cells,
        ).filter(finder::found_by_scan(v, seq![f])),
    decreases cells.len(),
{
    let p = btree::hits(m, c, f.op, f.value);
    let q = finder::found_by_scan(v, seq![f]);
    if cells.len() == 0 {
        btree::filter_none(cells, p);
        btree::filter_none(btree::expanded(m, cells), q);
        assert(btree::expanded(m, cells.filter(p)) =~= btree::expanded(m, cells).filter(q));
    } else {
        let rest = cells.drop_last();
        let x = cells.last();
        assert forall|i: int| 0 <= i < rest.len() implies btree::expands(
            m,
            (#[trigger] rest[i]).1,
        ) && btree::seen(m, rest[i].1, c) is Some by {
            assert(rest[i] == cells[i]);
        }
        assert forall|i: int| 0 <= i < rest.len() && row::lookup(
            btree::whole(m, (#[trigger] rest[i]).1).1,
            c,
        ) is At implies btree::has_raw(btree::whole(m, rest[i].1).1, c) by {
            assert(rest[i] == cells[i]);
        }
        scan_is_filter(m, v, f, c, rest);
        let w = btree::whole(m, x.1);
        assert(cells =~= rest.push(x));
        assert(btree::expanded(m, cells) =~= btree::expanded(m, rest).push(w));
        btree::filter_push(rest, x, p);
        btree::filter_push(btree::expanded(m, rest), w, q);
        assert(cells[cells.len() - 1] == x);
        assert(p(x) == q(w)) by {
            assert(btree::expands(m, x.1) && btree::seen(m, x.1, c) is Some);
            assert(w.1 == btree::expand(m, x.1)->0);
            assert(btree::seen(m, x.1, c) == Some(query::actual(v.columns, f.column, w.1)));
            assert(seq![f][0] == f);
            assert(query::passes(v.columns, seq![f], w.1) == query::accepts(v.columns, f, w.1));
        }
        assert(btree::expanded(m, cells.filter(p)) =~= btree::expanded(m, cells).filter(q));
    }
}

/// A search by an index on a column of integers or texts finds the rows that a
/// scan finds, in the same order.
pub proof fn index_search_is_scan(m: Map<u32, Seq<u8>>, v: TableView, t: Type, f: FilterView)
    requires
        finder::answers(v, f),
        table::column_type(v.columns, f.column) == Some(t),
        t == Type::Integer || t == Type::Text,
        forall|i: int|
            0 <= i < finder::row_list(m, v).len() ==> ordered(
                t,
                query::actual(v.columns, f.column, (#[trigger] finder::row_list(m, v)[i]).1),
            ) && store::entry_of(
                v.columns,
                v.indexes[table::index_for(v.indexes, f.column)->0],
                finder::row_list(m, v)[i].1,
                finder::row_list(m, v)[i].0,
            ) is Some,
    ensures
        finder::matching(m, v, seq![f]) == finder::row_list(m, v).filter(
            finder::found_by_scan(v, seq![f]),
        ),
{
    let fs = seq![f];
    let n = table::index_for(v.indexes, f.column)->0;
    let ix = v.indexes[n];
    let list = finder::row_list(m, v);
    table::index_for_first(v.indexes, f.column);
    assert(fs.drop_last() =~= Seq::empty());
    assert(finder::index_filter(v, Seq::empty()) is None);
    assert(finder::index_filter(v, fs) == Some(0int));
    assert(fs[0] == f);
    let p = index::value_code(t, f.value)->0;
    let by_index = finder::found_by_index(v, ix, p, fs);
    let by_scan = finder::found_by_scan(v, fs);
    assert forall|i: int| 0 <= i < list.len() implies by_index(#[trigger] list[i]) == by_scan(
        list[i],
    ) by {
        index_finds_what_filter_accepts(v, ix, t, f, list[i].0, list[i].1);
        assert(query::passes(v.columns, fs, list[i].1) <==> query::accepts(
            v.columns,
            f,
            list[i].1,
        )) by {
            assert(query::passes(v.columns, fs, list[i].1) ==> query::accepts(
                v.columns,
                fs[0],
                list[i].1,
            ));
        }
    }
    finder::filter_same(list, by_index, by_scan);
}

/// Tables in order with the same rows list them in the same order.
pub proof fn same_rows_same_list(
    m: Map<u32, Seq<u8>>,
    v: TableView,
    m2: Map<u32, Seq<u8>>,
    v2: TableView,
)
    requires
        engine::table_sound(m, v),
        engine::table_sound(m2, v2),
        store::table_rows(m2, v2) == store::table_rows(m, v),
    ensures
        finder::row_list(m2, v2) == finder::row_list(m, v),
        btree::all_cells(m2, v2.root_page).len() == btree::all_cells(m, v.root_page).len(),
{
    let a = finder::row_list(m, v);
    let b = finder::row_list(m2, v2);
    list_of_rows(m, v);
    list_of_rows(m2, v2);
    tree::sorted_unique(a, b);
}

/// The list of the rows of a table in order.
pub proof fn list_of_rows(m: Map<u32, Seq<u8>>, v: TableView)
    requires
        engine::table_sound(m, v),
    ensures
        ({
            let list = finder::row_list(m, v);
            let rows = store::table_rows(m, v);
            &&& tree::items_ok(list, None, None)
            &&& forall|k: u64| #[trigger]
                tree::item_find(list, k) == if rows.contains_key(k) {
                    Some(rows[k])
                } else {
                    None
                }
            &&& list.len() == btree::all_cells(m, v.root_page).len()
            &&& forall|i: int|
                0 <= i < list.len() ==> {
                    let it = #[trigger] list[i];
                    &&& it == btree::whole(m, btree::all_cells(m, v.root_page)[i].1)
                    &&& btree::expands(m, btree::all_cells(m, v.root_page)[i].1)
                    &&& rows.contains_key(it.0)
                    &&& rows[it.0] == it.1
                }
        }),
{
    reveal(engine::table_sound);
    reveal(store::table_ok);
    let root = v.root_page;
    let cells = btree::all_cells(m, root);
    let list = finder::row_list(m, v);
    let rows = store::table_rows(m, v);
    store::cells_sound(m, root);
    tree::all_sorted(btree::view_of(m), root);
    assert forall|i: int| 0 <= i < list.len() implies {
        let it = #[trigger] list[i];
        &&& it == (cells[i].0, rows[cells[i].0])
        &&& rows.contains_key(it.0)
        &&& btree::expands(m, cells[i].1)
        &&& it == btree::whole(m, cells[i].1)
    } by {
        assert(list[i] == btree::whole(m, cells[i].1));
    }
    assert forall|i: int, j: int| 0 <= i < j < list.len() implies (#[trigger] list[i]).0.before(
        (#[trigger] list[j]).0,
    ) by {
        assert(cells[i].0.before(cells[j].0));
    }
    assert forall|k: u64| #[trigger] tree::item_find(list, k) == if rows.contains_key(k) {
        Some(rows[k])
    } else {
        None
    } by {
        if rows.contains_key(k) {
            store::cell_listed(m, root, k);
            let c = btree::cell_at(m, root, k)->0;
            let j = choose|j: int| 0 <= j < cells.len() && cells[j] == (k, c);
            assert(list[j].0 == k);
            tree::item_find_at(list, None, None, j);
        } else {
            assert forall|i: int| 0 <= i < list.len() implies (#[trigger] list[i]).0 != k by {
                assert(rows.contains_key(list[i].0));
            }
            tree::item_find_none(list, k);
        }
    }
}

/// The rows can be searched by a column: its value can be read in each, is where the
/// directory of the row leads, and suits a column of the type.
pub open spec fn column_readable(
    list: Seq<(u64, Seq<u8>)>,
    columns: Seq<ColumnView>,
    column: Seq<char>,
    t: Type,
) -> bool {
    &&& list.len() <= u32::MAX
    &&& table::column_type(columns, column) == Some(t)
    &&& t == Type::Integer || t == Type::Text
    &&& table::column_id(columns, column) matches Some(c) ==> forall|i: int|
        0 <= i < list.len() ==> row::column_of((#[trigger] list[i]).1, c) is Some && (row::lookup(
            list[i].1,
            c,
        ) is At ==> btree::has_raw(list[i].1, c)) && ordered(
            t,
            query::actual(columns, column, list[i].1),
        )
}

/// A search for one filter finds the rows that the filter accepts.
proof fn search_by_column(m: Map<u32, Seq<u8>>, v: TableView, t: Type, f: FilterView)
    requires
        engine::table_sound(m, v),
        column_readable(finder::row_list(m, v), v.columns, f.column, t),
    ensures
        finder::searchable(m, v, seq![f]),
        finder::matching(m, v, seq![f]) == finder::row_list(m, v).filter(
            finder::found_by_scan(v, seq![f]),
        ),
{
    let list = finder::row_list(m, v);
    let cells = btree::all_cells(m, v.root_page);
    let fs = seq![f];
    assert(fs[0] == f);
    list_of_rows(m, v);
    table::column_known(v.columns, f.column);
    let c = table::column_id(v.columns, f.column)->0;
    assert forall|x: int| 0 <= x < cells.len() implies btree::expands(
        m,
        (#[trigger] cells[x]).1,
    ) && btree::seen(m, cells[x].1, c) is Some && (row::lookup(
        btree::whole(m, cells[x].1).1,
        c,
    ) is At ==> btree::has_raw(btree::whole(m, cells[x].1).1, c)) by {
        assert(list[x] == btree::whole(m, cells[x].1));
    }
    entries_known(m, v, f.column);
    search_is_filter(m, v, t, f);
}

/// An index never changes an answer: a search for one filter on a column of integers or
/// texts gives the same rows and the same total before and after an index was created,
/// on whatever column.
pub proof fn index_keeps_answers(
    a: BoogyDb,
    b: BoogyDb,
    table: Seq<char>,
    index_name: Seq<char>,
    column: Seq<char>,
    made: Result<()>,
    opts: FindOptions,
    t: Type,
    f: FilterView,
    before: Result<FindResult>,
    after: Result<FindResult>,
)
    requires
        session::usable(a.state(), table),
        a.state().in_order(session::place_of(a.state(), table)),
        db::index_created(a, b, table, index_name, column, made),
        made is Ok,
        query::filters_view(opts.filters@) == seq![f],
        ({
            let v = a.views()[session::place_of(a.state(), table)];
            column_readable(finder::row_list(a.pages(), v), v.columns, f.column, t)
        }),
        db_rows::found(a.state(), table, opts, before),
        db_rows::found(b.state(), table, opts, after),
    ensures
        before matches Ok(x) && after matches Ok(y) && query::rows_view(x.rows@)
            == query::rows_view(y.rows@) && x.total == y.total,
{
    let i = session::place_of(a.state(), table);
    let m = a.pages();
    let m2 = b.pages();
    let v = a.views()[i];
    let w = b.views()[i];
    let fs = seq![f];
    table::place_first(table::table_names_of(a.views()), table);
    assert(w.columns == v.columns && w.name == v.name && w.encrypted == v.encrypted && w.key == v.key);
    assert(table::table_names_of(b.views()) =~= table::table_names_of(a.views()));
    assert(session::place_of(b.state(), table) == i);
    same_rows_same_list(m, v, m2, w);
    search_by_column(m, v, t, f);
    search_by_column(m2, w, t, f);
    assert(finder::found_by_scan(v, fs) =~= finder::found_by_scan(w, fs));
    same_answer(finder::matching(m, v, fs), v, w, opts, before->Ok_0, after->Ok_0);
}

/// The answer depends on the rows and the columns alone.
pub proof fn same_answer(
    rows: Seq<(u64, Seq<u8>)>,
    v: TableView,
    w: TableView,
    opts: FindOptions,
    x: FindResult,
    y: FindResult,
)
    requires
        w.columns == v.columns,
        finder::answered(rows, v, opts, x),
        finder::answered(rows, w, opts, y),
    ensures
        query::rows_view(x.rows@) == query::rows_view(y.rows@),
        x.total == y.total,
{
    assert(finder::named(rows, v) =~= finder::named(rows, w));
}

/// What an index of a table in order lists of its rows is known.
proof fn entries_known(m: Map<u32, Seq<u8>>, v: TableView, column: Seq<char>)
    requires
        engine::table_sound(m, v),
    ensures
        table::index_for(v.indexes, column) matches Some(n) ==> forall|i: int|
            0 <= i < finder::row_list(m, v).len() ==> store::entry_of(
                v.columns,
                v.indexes[n],
                (#[trigger] finder::row_list(m, v)[i]).1,
                finder::row_list(m, v)[i].0,
            ) is Some,
{
    list_of_rows(m, v);
    reveal(engine::table_sound);
    reveal(store::table_ok);
    if table::index_for(v.indexes, column) is Some {
        table::index_for_first(v.indexes, column);
        let n = table::index_for(v.indexes, column)->0;
        assert forall|i: int| 0 <= i < finder::row_list(m, v).len() implies store::entry_of(
            v.columns,
            v.indexes[n],
            (#[trigger] finder::row_list(m, v)[i]).1,
            finder::row_list(m, v)[i].0,
        ) is Some by {
            let it = finder::row_list(m, v)[i];
            assert(store::indexable(v, it.1, it.0));
            assert(store::short_entry(store::entry_of(v.columns, v.indexes[n], it.1, it.0)));
        }
    }
}

/// A change of an index tree: a key comes in, or it goes.
pub enum KeyStep {
    Insert(Seq<u8>),
    Delete(Seq<u8>),
}

/// The keys of an index tree, given by its pages and its root.
pub open spec fn keys_of(t: (Map<u32, Seq<u8>>, u32)) -> Set<Seq<u8>> {
    Set::new(|k: Seq<u8>| index_tree::key_at(t.0, t.1, k) is Some)
}

/// Keys after some changes, one after the other.
pub open spec fn keys_run(keys: Set<Seq<u8>>, steps: Seq<KeyStep>) -> Set<Seq<u8>>
    decreases steps.len(),
{
    if steps.len() == 0 {
        keys
    } else {
        let before = keys_run(keys, steps.drop_last());
        match steps.last() {
            KeyStep::Insert(k) => before.insert(k),
            KeyStep::Delete(k) => before.remove(k),
        }
    }
}

/// An index tree before and after a change that succeeded.
pub open spec fn key_step(
    a: (Map<u32, Seq<u8>>, u32),
    b: (Map<u32, Seq<u8>>, u32),
    step: KeyStep,
) -> bool {
    match step {
        KeyStep::Insert(k) => exists|total: int, cap: int| #[trigger]
            index_tree::idx_put_outcome(a.0, b.0, a.1, b.1, k, total, cap, Ok(b.1)),
        KeyStep::Delete(k) => b.1 == a.1 && exists|found: bool| #[trigger]
            index_tree::idx_delete_outcome(a.0, b.0, a.1, k, Ok(found)),
    }
}

proof fn keys_after_run(trees: Seq<(Map<u32, Seq<u8>>, u32)>, steps: Seq<KeyStep>)
    requires
        trees.len() == steps.len() + 1,
        index_tree::is_index(trees[0].0, trees[0].1),
        forall|i: int| 0 <= i < steps.len() ==> key_step(trees[i], trees[i + 1], #[trigger] steps[i]),
    ensures
        index_tree::is_index(trees.last().0, trees.last().1),
        keys_of(trees.last()) == keys_run(keys_of(trees[0]), steps),
    decreases steps.len(),
{
    if steps.len() > 0 {
        let n = steps.len() - 1;
        let fewer = trees.drop_last();
        let rest = steps.drop_last();
        assert forall|i: int| 0 <= i < rest.len() implies key_step(
            fewer[i],
            fewer[i + 1],
            #[trigger] rest[i],
        ) by {
            assert(rest[i] == steps[i]);
        }
        keys_after_run(fewer, rest);
        assert(fewer.last() == trees[n]);
        assert(key_step(trees[n], trees[n + 1], steps[n]));
        let before = keys_of(trees[n]);
        let after = keys_of(trees[n + 1]);
        match steps[n] {
            KeyStep::Insert(k) => {
                assert(after =~= before.insert(k));
            },
            KeyStep::Delete(k) => {
                assert(after =~= before.remove(k));
            },
        }
    }
}

/// After any run of inserts and deletes, a scan of an index tree for a prefix lists
/// exactly the keys with that prefix that the run left, each once, in ascending order.
pub proof fn scan_after_run(
    trees: Seq<(Map<u32, Seq<u8>>, u32)>,
    steps: Seq<KeyStep>,
    prefix: Seq<u8>,
)
    requires
        trees.len() == steps.len() + 1,
        index_tree::is_index(trees[0].0, trees[0].1),
        forall|i: int| 0 <= i < steps.len() ==> key_step(trees[i], trees[i + 1], #[trigger] steps[i]),
    ensures
        ({
            let (m, root) = trees.last();
            let listed = index_tree::keys_with(m, root, prefix);
            &&& index_tree::walkable_index(m, root)
            &&& forall|k: Seq<u8>| #[trigger]
                listed.contains(k) <==> prefix.is_prefix_of(k) && keys_run(
                    keys_of(trees[0]),
                    steps,
                ).contains(k)
            &&& forall|i: int, j: int|
                0 <= i < j < listed.len() ==> index_node::key_before(
                    #[trigger] listed[i],
                    #[trigger] listed[j],
                )
        }),
{
    keys_after_run(trees, steps);
    let (m, root) = trees.last();
    let all = index_tree::all_keys(m, root);
    let p = index_tree::prefix_fn(prefix);
    let listed = index_tree::keys_with(m, root, prefix);
    index_tree::index_never_deep(m, root);
    tree::all_sorted(index_node::idx_view(m), root);
    ascending_filter(all, p);
    assert forall|k: Seq<u8>| #[trigger] listed.contains(k) <==> prefix.is_prefix_of(k) && keys_run(
        keys_of(trees[0]),
        steps,
    ).contains(k) by {
        assert(keys_of(trees.last()).contains(k) <==> tree::item_find(all, k) is Some);
        if listed.contains(k) {
            let i = choose|i: int| 0 <= i < listed.len() && listed[i] == k;
            let it = all.filter(p)[i];
            assert(it.0 == k);
            filtered_members(all, p, it);
            assert(all.filter(p).contains(it));
            let x = choose|x: int| 0 <= x < all.len() && all[x] == it;
            assert(all[x].0 == k);
        }
        if prefix.is_prefix_of(k) && tree::item_find(all, k) is Some {
            let x = choose|x: int| 0 <= x < all.len() && (#[trigger] all[x]).0 == k;
            filtered_members(all, p, all[x]);
            assert(all.contains(all[x]));
            let i = choose|i: int| 0 <= i < all.filter(p).len() && all.filter(p)[i] == all[x];
            assert(listed[i] == k);
        }
    }
}

/// What is selected is what is there and fits.
pub proof fn filtered_members<A>(s: Seq<A>, p: spec_fn(A) -> bool, x: A)
    ensures
        s.filter(p).contains(x) <==> s.contains(x) && p(x),
    decreases s.len(),
{
    reveal(Seq::filter);
    if s.len() > 0 {
        let rest = s.drop_last();
        let l = s.last();
        filtered_members(rest, p, x);
        assert(s =~= rest.push(l));
        if rest.contains(x) {
            let i = choose|i: int| 0 <= i < rest.len() && rest[i] == x;
            assert(s[i] == x);
        }
        if s.contains(x) && x != l {
            let i = choose|i: int| 0 <= i < s.len() && s[i] == x;
            assert(rest[i] == x);
        }
        assert(s[s.len() - 1] == l);
        let few = rest.filter(p);
        if p(l) {
            assert(few.push(l)[few.len() as int] == l);
            if few.contains(x) {
                let i = choose|i: int| 0 <= i < few.len() && few[i] == x;
                assert(few.push(l)[i] == x);
            }
            if few.push(l).contains(x) && x != l {
                let i = choose|i: int| 0 <= i < few.len() + 1 && few.push(l)[i] == x;
                assert(few[i] == x);
            }
        }
    }
}

/// What is selected of ascending keys ascends.
proof fn ascending_filter(
    items: Seq<(Seq<u8>, ())>,
    p: spec_fn((Seq<u8>, ())) -> bool,
)
    requires
        forall|i: int, j: int|
            0 <= i < j < items.len() ==> (#[trigger] items[i]).0.before((#[trigger] items[j]).0),
    ensures
        forall|i: int, j: int|
            0 <= i < j < items.filter(p).len() ==> (#[trigger] items.filter(p)[i]).0.before(
                (#[trigger] items.filter(p)[j]).0,
            ),
    decreases items.len(),
{
    reveal(Seq::filter);
    if items.len() > 0 {
        let rest = items.drop_last();
        ascending_filter(rest, p);
        let few = rest.filter(p);
        if p(items.last()) {
            assert forall|i: int, j: int| 0 <= i < j < few.len() + 1 implies (
            #[trigger] items.filter(p)[i]).0.before((#[trigger] items.filter(p)[j]).0) by {
                if j == few.len() {
                    filtered_members(rest, p, few[i]);
                    assert(few.contains(few[i]));
                    let x = choose|x: int| 0 <= x < rest.len() && rest[x] == few[i];
                    assert(items[x] == few[i]);
                    assert(items[items.len() - 1] == items.last());
                }
            }
        }
    }
}

/// After any run of changes of one table, it has the rows of the last change, and tables
/// that were in order and shared no page with it are in order, with their rows.
pub proof fn rows_after_run(
    states: Seq<StateView>,
    i: int,
    rows: Seq<Map<u64, Seq<u8>>>,
    j: int,
)
    requires
        states.len() == rows.len() + 1,
        rows.len() > 0,
        0 <= i < states[0].tables.len(),
        0 <= j < states[0].tables.len(),
        j != i,
        forall|k: int| 0 <= k < rows.len() ==> session::stepped(
            states[k],
            states[k + 1],
            i,
            #[trigger] rows[k],
        ),
        states[0].in_order(j),
        engine::separate(states[0].pages, states[0].tables[j], states[0].tables[i]),
    ensures
        states.last().in_order(i),
        states.last().rows(i) == rows.last(),
        states.last().in_order(j),
        states.last().rows(j) == states[0].rows(j),
        states.last().tables.len() == states[0].tables.len(),
        states.last().tables[j] == states[0].tables[j],
        engine::separate(
            states.last().pages,
            states.last().tables[j],
            states.last().tables[i],
        ),
    decreases rows.len(),
{
    let n = rows.len() - 1;
    if n > 0 {
        let fewer = states.drop_last();
        let rest = rows.drop_last();
        assert forall|k: int| 0 <= k < rest.len() implies session::stepped(
            fewer[k],
            fewer[k + 1],
            i,
            #[trigger] rest[k],
        ) by {
            assert(rest[k] == rows[k]);
        }
        rows_after_run(fewer, i, rest, j);
        assert(fewer.last() == states[n]);
    }
    assert(session::stepped(states[n], states[n + 1], i, rows[n]));
    let a = states[n];
    let b = states[n + 1];
    assert(a.tables[j] == states[0].tables[j]);
    assert(a.in_order(j));
    assert(engine::table_sound(a.pages, a.tables[j]));
    assert(b.tables[j] == a.tables[j]);
}

/// A transaction is all or nothing. While it runs, and after it was dropped, readers find
/// what they found before it began; once it is committed, they find what it saw last.
pub proof fn transaction_is_atomic(a: BoogyDb, mid: BoogyDb, b: BoogyDb, s: StateView)
    requires
        transaction::untouched(a, mid),
        b.state().pages == s.pages,
        b.state().tables == s.tables,
    ensures
        mid.state() == a.state(),
        forall|table: Seq<char>, k: u64, r: Result<Option<Row>>| #[trigger]
            session::got(mid.state(), table, k, r) <==> session::got(a.state(), table, k, r),
        forall|table: Seq<char>, opts: FindOptions, r: Result<FindResult>| #[trigger]
            db_rows::found(mid.state(), table, opts, r) <==> db_rows::found(
                a.state(),
                table,
                opts,
                r,
            ),
        forall|table: Seq<char>, k: u64, r: Result<Option<Row>>| #[trigger]
            session::got(b.state(), table, k, r) <==> session::got(s, table, k, r),
        forall|table: Seq<char>, opts: FindOptions, r: Result<FindResult>| #[trigger]
            db_rows::found(b.state(), table, opts, r) <==> db_rows::found(s, table, opts, r),
{
    assert(mid.state() =~= a.state());
    let c = b.state();
    assert forall|table: Seq<char>| #[trigger] session::usable(c, table) == session::usable(s, table)
        && session::place_of(c, table) == session::place_of(s, table) by {}
    assert forall|i: int| #[trigger] c.in_order(i) == s.in_order(i) && c.rows(i) == s.rows(i) by {}
}

}
