//! What creating and dropping tables and indexes does to what is read.

use crate::change_laws::{names_of, rows_of};
use crate::db;
use crate::db::BoogyDb;
use crate::db_rows;
use crate::engine;
use crate::error::{BoogyError, Result};
use crate::filter::FindOptions;
use crate::find_laws;
use crate::query;
use crate::query::{FindResult, Row};
use crate::session;
use crate::session::StateView;
use crate::table;
use crate::value;
use crate::value::{ColumnView, ValueView};
use vstd::prelude::*;

verus! {

/// A table with the name is among the tables.
pub open spec fn is_table(s: StateView, name: Seq<char>) -> bool {
    exists|i: int| 0 <= i < s.tables.len() && (#[trigger] s.tables[i]).name == name
}

/// A table is found under its name, and only under that. It can be used unless it is locked,
/// which is an encrypted table without a key; otherwise the error says which table is
/// missing or locked.
pub proof fn tables_by_name(s: StateView, name: Seq<char>, e: BoogyError)
    ensures
        is_table(s, name) <==> table::table_place(s.tables, name) is Some,
        is_table(s, name) ==> {
            let i = session::place_of(s, name);
            &&& 0 <= i < s.tables.len()
            &&& s.tables[i].name == name
            &&& session::usable(s, name) <==> !(s.tables[i].encrypted && s.tables[i].key is None)
        },
        !is_table(s, name) ==> !session::usable(s, name),
        session::refused(s, name, e) ==> !session::usable(s, name) && if is_table(s, name) {
            e matches BoogyError::TableLocked(t) && t@ == name
        } else {
            e matches BoogyError::TableNotFound(t) && t@ == name
        },
{
    let all = table::table_names_of(s.tables);
    table::place_first(all, name);
    if is_table(s, name) {
        let i = choose|i: int| 0 <= i < s.tables.len() && (#[trigger] s.tables[i]).name == name;
        assert(all[i] == name);
        assert(all.contains(name));
    }
    if let Some(i) = table::table_place(s.tables, name) {
        assert(s.tables[i].name == all[i]);
    }
}

/// The tables of a database that have other names are found where they were, with their
/// columns and rows.
pub open spec fn other_tables_stay(a: BoogyDb, b: BoogyDb, name: Seq<char>) -> bool {
    forall|other: Seq<char>|
        other != name ==> {
            &&& #[trigger] is_table(b.state(), other) <==> is_table(a.state(), other)
            &&& is_table(a.state(), other) ==> names_of(b.state(), other) == names_of(
                a.state(),
                other,
            ) && rows_of(b.state(), other) == rows_of(a.state(), other)
        }
}

/// A table that was created is there, with the columns that it was given and without rows:
/// nothing is read from it, it counts none, and its first row gets the number one. All other
/// tables stay.
pub proof fn created_table_is_empty(
    a: BoogyDb,
    b: BoogyDb,
    name: Seq<char>,
    columns: Seq<ColumnView>,
    key: Option<Seq<u8>>,
    k: u64,
    r: Result<Option<Row>>,
    n: Result<u64>,
    s2: StateView,
    data: Seq<(Seq<char>, ValueView)>,
    max: u32,
    id: u64,
)
    requires
        a.sound(),
        db::table_created(a, b, name, columns, key, Ok(())),
    ensures
        !is_table(a.state(), name),
        is_table(b.state(), name),
        session::usable(b.state(), name),
        names_of(b.state(), name) == table::column_names(columns),
        rows_of(b.state(), name) == Map::<u64, Seq<u8>>::empty(),
        session::got(b.state(), name, k, r) ==> r == Ok::<Option<Row>, BoogyError>(None),
        db_rows::counted(b.state(), name, Seq::empty(), n) ==> n == Ok::<u64, BoogyError>(0),
        session::inserted(b.state(), s2, name, data, max, Ok(id)) ==> id == 1,
        other_tables_stay(a, b, name),
{
    let s = a.state();
    let t = b.state();
    let l = s.tables.len() as int;
    let e = BoogyError::PageFull;
    tables_by_name(s, name, e);
    tables_by_name(t, name, e);
    assert(t.tables[l].name == name);
    let i = session::place_of(t, name);
    if i < l {
        assert(s.tables[i] == t.tables[i]);
        assert(is_table(s, name));
    }
    assert(i == l);
    assert(t.rows(l) == b.rows(l));
    assert(engine::forest_ok(t.pages, t.tables));
    assert(t.in_order(l)) by {
        assert(engine::table_sound(t.pages, t.tables[l]));
    }
    assert forall|other: Seq<char>| other != name implies {
        &&& #[trigger] is_table(b.state(), other) <==> is_table(a.state(), other)
        &&& is_table(a.state(), other) ==> names_of(b.state(), other) == names_of(
            a.state(),
            other,
        ) && rows_of(b.state(), other) == rows_of(a.state(), other)
    } by {
        tables_by_name(s, other, e);
        tables_by_name(t, other, e);
        if is_table(t, other) {
            let x = session::place_of(t, other);
            assert(x < l);
            assert(s.tables[x] == t.tables[x]);
        }
        if is_table(s, other) {
            let x = session::place_of(s, other);
            assert(t.tables[x] == s.tables[x]);
            assert(is_table(t, other));
            let y = session::place_of(t, other);
            assert(t.tables.drop_last() =~= s.tables);
            same_place(s, t, other);
            assert(b.rows(x) == a.rows(x));
        }
    }
}

/// A table that was found among the first tables is found in the same place among more.
proof fn same_place(s: StateView, t: StateView, name: Seq<char>)
    requires
        t.tables.len() == s.tables.len() + 1,
        t.tables.drop_last() == s.tables,
        is_table(s, name),
    ensures
        session::place_of(t, name) == session::place_of(s, name),
{
    tables_by_name(s, name, BoogyError::PageFull);
    assert(table::table_names_of(t.tables).drop_last() =~= table::table_names_of(s.tables));
}

/// A table whose name is taken is not created, one that is missing is not dropped, and
/// nothing is changed.
pub proof fn wrong_tables_refused(
    a: BoogyDb,
    b: BoogyDb,
    name: Seq<char>,
    columns: Seq<ColumnView>,
    key: Option<Seq<u8>>,
    r: Result<()>,
)
    ensures
        is_table(a.state(), name) && db::table_created(a, b, name, columns, key, r) ==> (r matches Err(
            BoogyError::TableExists(t),
        ) && t@ == name) && db::unchanged(a, b),
        !is_table(a.state(), name) && db::table_dropped(a, b, name, r) ==> (r matches Err(
            BoogyError::TableNotFound(t),
        ) && t@ == name) && db::unchanged(a, b),
{
    tables_by_name(a.state(), name, BoogyError::PageFull);
}

/// An index is not created for a table that is missing, under a name that the table has for
/// an index already, or on a column that it does not have; and none is dropped that is not
/// there. Nothing is changed.
pub proof fn wrong_indexes_refused(
    a: BoogyDb,
    b: BoogyDb,
    name: Seq<char>,
    index_name: Seq<char>,
    column: Seq<char>,
    r: Result<()>,
)
    ensures
        !is_table(a.state(), name) && (db::index_created(a, b, name, index_name, column, r)
            || db::index_dropped(a, b, name, index_name, r)) ==> (r matches Err(
            BoogyError::TableNotFound(t),
        ) && t@ == name) && db::unchanged(a, b),
        session::usable(a.state(), name) && table::index_names(
            a.views()[session::place_of(a.state(), name)].indexes,
        ).contains(index_name) && db::index_created(a, b, name, index_name, column, r) ==> (
        r matches Err(BoogyError::IndexExists(t)) && t@ == index_name) && db::unchanged(a, b),
        session::usable(a.state(), name) && !table::index_names(
            a.views()[session::place_of(a.state(), name)].indexes,
        ).contains(index_name) && db::index_dropped(a, b, name, index_name, r) ==> (r matches Err(
            BoogyError::IndexNotFound(t),
        ) && t@ == index_name) && db::unchanged(a, b),
        session::usable(a.state(), name) && !table::index_names(
            a.views()[session::place_of(a.state(), name)].indexes,
        ).contains(index_name) && !names_of(a.state(), name).contains(column) && db::index_created(
            a,
            b,
            name,
            index_name,
            column,
            r,
        ) ==> (r matches Err(e) && e is SchemaMismatch) && db::unchanged(a, b),
{
    tables_by_name(a.state(), name, BoogyError::PageFull);
    let v = a.views()[session::place_of(a.state(), name)];
    table::place_first(table::index_names(v.indexes), index_name);
    table::column_known(v.columns, column);
}

/// Dropping a table leaves one of another name.
proof fn other_stays_when_dropped(a: BoogyDb, b: BoogyDb, name: Seq<char>, other: Seq<char>)
    requires
        a.sound(),
        db::table_dropped(a, b, name, Ok(())),
        other != name,
    ensures
        is_table(b.state(), other) <==> is_table(a.state(), other),
        is_table(a.state(), other) ==> names_of(b.state(), other) == names_of(a.state(), other)
            && rows_of(b.state(), other) == rows_of(a.state(), other),
{
    let s = a.state();
    let t = b.state();
    let none = BoogyError::PageFull;
    let names = table::table_names_of(s.tables);
    let i = session::place_of(s, name);
    assert(names.no_duplicates());
    tables_by_name(s, name, none);
    tables_by_name(s, other, none);
    tables_by_name(t, other, none);
    if is_table(t, other) {
        let x = session::place_of(t, other);
        let y = if x < i {
            x
        } else {
            x + 1
        };
        assert(s.tables[y] == t.tables[x]);
        assert(is_table(s, other));
    }
    if is_table(s, other) {
        let y = session::place_of(s, other);
        assert(y != i);
        let x = if y < i {
            y
        } else {
            y - 1
        };
        assert(t.tables[x] == s.tables[y]);
        assert(is_table(t, other));
        let z = session::place_of(t, other);
        let w = if z < i {
            z
        } else {
            z + 1
        };
        assert(t.tables[z] == s.tables[w]);
        assert(names[w] == names[y]);
        assert(w == y);
        assert(b.rows(z) == a.rows(w));
    }
}

/// A table that was dropped is not there any more, and all other tables stay.
pub proof fn dropped_table_is_gone(
    a: BoogyDb,
    b: BoogyDb,
    name: Seq<char>,
    k: u64,
    r: Result<Option<Row>>,
)
    requires
        a.sound(),
        db::table_dropped(a, b, name, Ok(())),
    ensures
        is_table(a.state(), name),
        !is_table(b.state(), name),
        session::got(b.state(), name, k, r) ==> (r matches Err(BoogyError::TableNotFound(t)) && t@
            == name),
        other_tables_stay(a, b, name),
{
    let s = a.state();
    let t = b.state();
    let none = BoogyError::PageFull;
    tables_by_name(s, name, none);
    let i = session::place_of(s, name);
    let names = table::table_names_of(s.tables);
    assert(names.no_duplicates());
    assert forall|x: int| 0 <= x < t.tables.len() implies (#[trigger] t.tables[x]).name != name by {
        let y = if x < i {
            x
        } else {
            x + 1
        };
        assert(t.tables[x] == s.tables[y]);
        assert(names[y] != names[i]);
    }
    if let Err(x) = r {
        tables_by_name(t, name, x);
    }
    tables_by_name(t, name, none);
    assert forall|other: Seq<char>| other != name implies {
        &&& #[trigger] is_table(b.state(), other) <==> is_table(a.state(), other)
        &&& is_table(a.state(), other) ==> names_of(b.state(), other) == names_of(
            a.state(),
            other,
        ) && rows_of(b.state(), other) == rows_of(a.state(), other)
    } by {
        other_stays_when_dropped(a, b, name, other);
    }
}

/// An index that was created stands on its column, and its table keeps its columns and
/// rows.
pub proof fn created_index_leaves_rows(
    a: BoogyDb,
    b: BoogyDb,
    name: Seq<char>,
    index_name: Seq<char>,
    column: Seq<char>,
)
    requires
        a.sound(),
        session::usable(a.state(), name),
        db::index_created(a, b, name, index_name, column, Ok(())),
    ensures
        session::usable(b.state(), name),
        names_of(b.state(), name) == names_of(a.state(), name),
        names_of(a.state(), name).contains(column),
        rows_of(b.state(), name) == rows_of(a.state(), name),
        ({
            let v = a.views()[session::place_of(a.state(), name)];
            let w = b.views()[session::place_of(a.state(), name)];
            &&& !table::index_names(v.indexes).contains(index_name)
            &&& w.indexes.len() == v.indexes.len() + 1
            &&& w.indexes.drop_last() == v.indexes
            &&& w.indexes.last().name == index_name
            &&& w.indexes.last().columns == seq![column]
            &&& table::index_for(w.indexes, column) is Some
        }),
        b.sound(),
{
    let s = a.state();
    let t = b.state();
    let i = session::place_of(s, name);
    let v = a.views()[i];
    tables_by_name(s, name, BoogyError::PageFull);
    table::place_first(table::index_names(v.indexes), index_name);
    table::column_known(v.columns, column);
    assert(engine::forest_ok(s.pages, s.tables));
    assert(engine::table_sound(s.pages, s.tables[i]));
    assert(b.views() != a.views());
    let w = b.views()[i];
    assert(w.indexes.drop_last() =~= v.indexes);
    assert(w.columns == v.columns);
    assert(table::table_names_of(t.tables) =~= table::table_names_of(s.tables));
    table::index_for_first(w.indexes, column);
    assert(table::leads_with(w.indexes.last(), column));
    assert(w.indexes[w.indexes.len() - 1] == w.indexes.last());
}

/// An index that was dropped is gone, and all tables keep their columns and rows.
pub proof fn dropped_index_leaves_rows(
    a: BoogyDb,
    b: BoogyDb,
    name: Seq<char>,
    index_name: Seq<char>,
    other: Seq<char>,
)
    requires
        a.sound(),
        db::index_dropped(a, b, name, index_name, Ok(())),
    ensures
        is_table(b.state(), other) <==> is_table(a.state(), other),
        is_table(a.state(), other) ==> names_of(b.state(), other) == names_of(a.state(), other)
            && rows_of(b.state(), other) == rows_of(a.state(), other),
        ({
            let v = a.views()[session::place_of(a.state(), name)];
            let w = b.views()[session::place_of(a.state(), name)];
            &&& table::index_names(v.indexes).contains(index_name)
            &&& w.indexes.len() == v.indexes.len() - 1
            &&& table::index_names(v.indexes).no_duplicates() ==> !table::index_names(
                w.indexes,
            ).contains(index_name)
        }),
{
    let s = a.state();
    let t = b.state();
    let e = BoogyError::PageFull;
    tables_by_name(s, name, e);
    tables_by_name(s, other, e);
    tables_by_name(t, other, e);
    let i = session::place_of(s, name);
    let v = a.views()[i];
    let w = b.views()[i];
    let p = table::place(table::index_names(v.indexes), index_name)->0;
    table::place_first(table::index_names(v.indexes), index_name);
    assert(table::table_names_of(t.tables) =~= table::table_names_of(s.tables));
    if is_table(s, other) {
        let x = session::place_of(s, other);
        assert(b.rows(x) == a.rows(x));
        assert(t.tables[x].name == s.tables[x].name);
    }
    if is_table(t, other) {
        let x = session::place_of(t, other);
        assert(t.tables[x].name == s.tables[x].name);
    }
    if table::index_names(v.indexes).no_duplicates() {
        let all = table::index_names(v.indexes);
        let few = table::index_names(w.indexes);
        assert(few =~= all.remove(p));
        if few.contains(index_name) {
            let x = choose|x: int| 0 <= x < few.len() && few[x] == index_name;
            let y = if x < p {
                x
            } else {
                x + 1
            };
            assert(all[y] == all[p]);
        }
    }
}

/// Searches of two states in which a table has the same columns and rows give the same,
/// whatever indexes it has in each.
pub proof fn same_rows_same_answers(
    s: StateView,
    s2: StateView,
    table: Seq<char>,
    opts: FindOptions,
    r: Result<FindResult>,
    r2: Result<FindResult>,
)
    requires
        find_laws::in_reach(s, table, query::filters_view(opts.filters@)),
        find_laws::in_reach(s2, table, query::filters_view(opts.filters@)),
        rows_of(s2, table) == rows_of(s, table),
        s2.tables[session::place_of(s2, table)].columns == s.tables[session::place_of(
            s,
            table,
        )].columns,
        db_rows::found(s, table, opts, r),
        db_rows::found(s2, table, opts, r2),
    ensures
        r matches Ok(x) && r2 matches Ok(y) && query::rows_view(x.rows@) == query::rows_view(y.rows@)
            && x.total == y.total,
{
    let i = session::place_of(s, table);
    let j = session::place_of(s2, table);
    find_laws::find_is_scan(s, table, opts, r);
    find_laws::find_is_scan(s2, table, opts, r2);
    crate::laws::same_rows_same_list(s.pages, s.tables[i], s2.pages, s2.tables[j]);
    let fs = query::filters_view(opts.filters@);
    assert(crate::finder::found_by_scan(s.tables[i], fs) =~= crate::finder::found_by_scan(
        s2.tables[j],
        fs,
    ));
    crate::laws::same_answer(
        session::scan_matches(s, i, fs),
        s.tables[i],
        s2.tables[j],
        opts,
        r->Ok_0,
        r2->Ok_0,
    );
}

// ---------------------------------------------------------------------------
// Types of indexed columns
// ---------------------------------------------------------------------------

/// A value may stand in a column of the type that is indexed: it is null, or of the type, a
/// number, and holds no zero character.
pub open spec fn indexable_value(t: value::Type, x: ValueView) -> bool {
    match x {
        ValueView::Null => true,
        ValueView::Integer(_) => t == value::Type::Integer,
        ValueView::Real(bits) => t == value::Type::Real && bits % 0x8000_0000_0000_0000
            <= 0x7FF0_0000_0000_0000,
        ValueView::Text(s) => t == value::Type::Text && !vstd::utf8::encode_utf8(s).contains(0u8),
        ValueView::Blob(_) => t == value::Type::Blob,
        ValueView::Boolean(_) => t == value::Type::Boolean,
    }
}

/// What is inserted into an indexed column is of its type; what is not is refused with
/// nothing changed.
pub proof fn indexed_values_have_types(
    s: StateView,
    s2: StateView,
    table: Seq<char>,
    k: u64,
    data: Seq<(Seq<char>, ValueView)>,
    max: u32,
    r: Result<()>,
    n: int,
    j: int,
)
    requires
        session::usable(s, table),
        crate::row_laws::given_once(data),
        session::inserted_with_id(s, s2, table, k, data, max, r),
        ({
            let v = s.tables[session::place_of(s, table)];
            &&& 0 <= n < v.indexes.len()
            &&& 0 <= j < data.len()
            &&& data[j].0 == table::leading(v.indexes[n])
            &&& table::column_type(v.columns, data[j].0) is Some
        }),
    ensures
        ({
            let v = s.tables[session::place_of(s, table)];
            let t = table::column_type(v.columns, data[j].0)->0;
            &&& r is Ok ==> indexable_value(t, data[j].1)
            &&& !indexable_value(t, data[j].1) ==> (r matches Err(e) && e is TypeMismatch)
                && session::same(s, s2)
        }),
{
    let v = s.tables[session::place_of(s, table)];
    let ix = v.indexes[n];
    let names = engine::data_names(data);
    table::place_first(names, data[j].0);
    assert(names[j] == data[j].0);
    assert(names.contains(data[j].0));
    let p = table::place(names, data[j].0)->0;
    assert(names[p] == data[p].0);
    if p < j {
        assert(data[p].0 != data[j].0);
    }
    assert(p == j);
    assert(engine::index_type_ok(v.columns, ix, data) == engine::suits(v.columns, ix, data[j].1));
    if engine::types_ok(v, data) {
        assert(engine::index_type_ok(v.columns, v.indexes[n], data));
    }
}

/// Where no value is given for an indexed column, or all that are given are of its type,
/// nothing is refused for its type.
pub proof fn right_types_are_not_refused(
    s: StateView,
    s2: StateView,
    table: Seq<char>,
    k: u64,
    data: Seq<(Seq<char>, ValueView)>,
    max: u32,
    r: Result<()>,
)
    requires
        session::usable(s, table),
        s.in_order(session::place_of(s, table)),
        session::inserted_with_id(s, s2, table, k, data, max, r),
        forall|j: int|
            0 <= j < data.len() ==> (table::column_type(
                s.tables[session::place_of(s, table)].columns,
                (#[trigger] data[j]).0,
            ) matches Some(t) ==> indexable_value(t, data[j].1)),
    ensures
        engine::types_ok(s.tables[session::place_of(s, table)], data),
{
    let v = s.tables[session::place_of(s, table)];
    assert forall|n: int| 0 <= n < v.indexes.len() implies engine::index_type_ok(
        v.columns,
        #[trigger] v.indexes[n],
        data,
    ) by {
        let names = engine::data_names(data);
        let lead = table::leading(v.indexes[n]);
        table::place_first(names, lead);
        if let Some(p) = table::place(names, lead) {
            assert(names[p] == data[p].0);
        }
    }
}

}
