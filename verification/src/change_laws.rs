//! What changes of rows do to what is read afterwards.

use crate::db_rows;
use crate::engine;
use crate::engine_bulk;
use crate::error::{BoogyError, Result};
use crate::filter::FilterView;
use crate::find_laws;
use crate::find_laws::{passing_ids, shown};
use crate::laws;
use crate::query;
use crate::query::{columns_in, value_in, Row};
use crate::query_laws;
use crate::row;
use crate::row_laws;
use crate::session;
use crate::session::StateView;
use crate::store;
use crate::table;
use crate::value::ValueView;
use vstd::prelude::*;

verus! {

/// The names of the columns of a table.
pub open spec fn names_of(s: StateView, table: Seq<char>) -> Seq<Seq<char>> {
    table::column_names(s.tables[session::place_of(s, table)].columns)
}

/// The table is there, in order, and its columns have different names.
pub open spec fn ready(s: StateView, table: Seq<char>) -> bool {
    &&& session::usable(s, table)
    &&& s.in_order(session::place_of(s, table))
    &&& query_laws::tellable(names_of(s, table))
}

/// The rows of a table.
pub open spec fn rows_of(s: StateView, table: Seq<char>) -> Map<u64, Seq<u8>> {
    s.rows(session::place_of(s, table))
}

// ---------------------------------------------------------------------------
// One row
// ---------------------------------------------------------------------------

/// A row reads as it was given: under each column the value that was given under its
/// name, and nothing else; and these are the columns that it lists.
pub open spec fn reads_as_given(
    row: Row,
    names: Seq<Seq<char>>,
    data: Seq<(Seq<char>, ValueView)>,
) -> bool {
    forall|name: Seq<char>, x: ValueView|
        #![trigger data.contains((name, x))]
        #![trigger columns_in(row@).contains((name, x))]
        row_laws::reads_pair(row@, names, data, name, x)
}

/// A row that was inserted reads as it was given, under the number that was handed out.
pub proof fn insert_reads_back(
    s: StateView,
    s2: StateView,
    table: Seq<char>,
    data: Seq<(Seq<char>, ValueView)>,
    max: u32,
    id: u64,
    r: Result<Option<Row>>,
)
    requires
        ready(s, table),
        row_laws::given_once(data),
        laws::keepable(s.tables[session::place_of(s, table)], id, data),
        session::inserted(s, s2, table, data, max, Ok(id)),
        session::got(s2, table, id, r),
    ensures
        r matches Ok(Some(row)) && row@.id == id && reads_as_given(row, names_of(s, table), data)
            && row::well_laid(row@.data),
        !rows_of(s, table).contains_key(id),
        rows_of(s2, table) == rows_of(s, table).insert(id, r->Ok_0->Some_0@.data),
{
    let v = s.tables[session::place_of(s, table)];
    laws::place_stays(s, s2, table);
    laws::insert_then_get(s, s2, table, data, max, id, r);
    new_row_reads(v, id, data, r->Ok_0->Some_0, max);
}

/// A row that was inserted under a number of its own reads as it was given.
pub proof fn insert_with_id_reads_back(
    s: StateView,
    s2: StateView,
    table: Seq<char>,
    k: u64,
    data: Seq<(Seq<char>, ValueView)>,
    max: u32,
    r: Result<Option<Row>>,
)
    requires
        ready(s, table),
        row_laws::given_once(data),
        laws::keepable(s.tables[session::place_of(s, table)], k, data),
        session::inserted_with_id(s, s2, table, k, data, max, Ok(())),
        session::got(s2, table, k, r),
    ensures
        r matches Ok(Some(row)) && row@.id == k && reads_as_given(row, names_of(s, table), data)
            && row::well_laid(row@.data),
        !rows_of(s, table).contains_key(k),
        rows_of(s2, table) == rows_of(s, table).insert(k, r->Ok_0->Some_0@.data),
{
    let v = s.tables[session::place_of(s, table)];
    laws::place_stays(s, s2, table);
    laws::insert_with_id_then_get(s, s2, table, k, data, max, r);
    new_row_reads(v, k, data, r->Ok_0->Some_0, max);
}

proof fn new_row_reads(
    v: table::TableView,
    k: u64,
    data: Seq<(Seq<char>, ValueView)>,
    row: Row,
    max: u32,
)
    requires
        query_laws::tellable(table::column_names(v.columns)),
        row_laws::given_once(data),
        engine::starts_fit(v, data),
        engine::new_row(v, k, data).len() <= max,
        row@ == query::row_of(engine::new_row(v, k, data), table::column_names(v.columns)),
    ensures
        reads_as_given(row, table::column_names(v.columns), data),
        row@.id == k,
        row::well_laid(row@.data),
{
    row_laws::row_holds_what_was_given(v, k, data, Seq::empty(), ValueView::Null);
    let names = table::column_names(v.columns);
    assert forall|name: Seq<char>, x: ValueView|
        #![trigger data.contains((name, x))]
        #![trigger columns_in(row@).contains((name, x))]
        row_laws::reads_pair(row@, names, data, name, x) by {
        row_laws::row_holds_what_was_given(v, k, data, name, x);
    }
}

/// Numbers are handed out one after the other.
pub proof fn numbers_follow(
    s: StateView,
    s2: StateView,
    s3: StateView,
    table: Seq<char>,
    data: Seq<(Seq<char>, ValueView)>,
    other: Seq<(Seq<char>, ValueView)>,
    max: u32,
    a: u64,
    b: u64,
)
    requires
        session::usable(s, table),
        session::inserted(s, s2, table, data, max, Ok(a)),
        session::inserted(s2, s3, table, other, max, Ok(b)),
    ensures
        b == a + 1,
{
    laws::place_stays(s, s2, table);
}

/// After an insert under a number of its own the next number is the one that would have
/// been next, or the one behind it if that is greater. So no number is handed out twice.
pub proof fn numbers_stay_above(
    s: StateView,
    s2: StateView,
    s3: StateView,
    s4: StateView,
    table: Seq<char>,
    k: u64,
    data: Seq<(Seq<char>, ValueView)>,
    other: Seq<(Seq<char>, ValueView)>,
    max: u32,
    without: u64,
    b: u64,
)
    requires
        session::usable(s, table),
        session::inserted(s, s4, table, other, max, Ok(without)),
        session::inserted_with_id(s, s2, table, k, data, max, Ok(())),
        session::inserted(s2, s3, table, other, max, Ok(b)),
    ensures
        k < b,
        k < without ==> b == without,
        k >= without ==> b == k + 1,
{
    laws::place_stays(s, s2, table);
}

/// Updates and deletes do not change which number is handed out next.
pub proof fn numbers_kept(
    s: StateView,
    s2: StateView,
    s3: StateView,
    s4: StateView,
    table: Seq<char>,
    k: u64,
    fields: Seq<(Seq<char>, ValueView)>,
    other: Seq<(Seq<char>, ValueView)>,
    max: u32,
    there: bool,
    without: u64,
    b: u64,
)
    requires
        session::usable(s, table),
        session::inserted(s, s4, table, other, max, Ok(without)),
        session::deleted(s, s2, table, k, Ok(there)) || session::updated(
            s,
            s2,
            table,
            k,
            fields,
            max,
            Ok(there),
        ),
        session::inserted(s2, s3, table, other, max, Ok(b)),
    ensures
        b == without,
{
    laws::place_stays(s, s2, table);
}

/// A row that is too long is refused with its length, and nothing is changed; one that is
/// not is not refused for its length.
pub proof fn long_rows_refused(
    s: StateView,
    s2: StateView,
    table: Seq<char>,
    k: u64,
    data: Seq<(Seq<char>, ValueView)>,
    max: u32,
    r: Result<()>,
)
    requires
        session::usable(s, table),
        engine::types_ok(s.tables[session::place_of(s, table)], data),
        k < u64::MAX,
        session::inserted_with_id(s, s2, table, k, data, max, r),
    ensures
        ({
            let v = s.tables[session::place_of(s, table)];
            let size = row_laws::given_size(names_of(s, table), data);
            &&& r is Ok ==> size <= max
            &&& size > max ==> (r matches Err(BoogyError::RowTooLarge(n)) && n == size)
                && s2.pages == s.pages
            &&& size <= max && size <= crate::btree::MAX_REASSEMBLE_SIZE && engine::starts_fit(
                v,
                data,
            ) && s.in_order(session::place_of(s, table)) && v.row_count < u64::MAX
                && store::indexable(v, engine::new_row(v, k, data), k) ==> !(r matches Err(
                BoogyError::RowTooLarge(_),
            ))
        }),
{
    let v = s.tables[session::place_of(s, table)];
    row_laws::row_length(v, k, data);
}

/// An updated row has under each column the value that was set last under its name, or the
/// one that it had; it keeps its number, and all other rows stay.
pub proof fn update_reads_back(
    s: StateView,
    s2: StateView,
    table: Seq<char>,
    k: u64,
    fields: Seq<(Seq<char>, ValueView)>,
    max: u32,
    before: Result<Option<Row>>,
    after: Result<Option<Row>>,
)
    requires
        ready(s, table),
        row::well_laid(rows_of(s, table)[k]),
        ({
            let v = s.tables[session::place_of(s, table)];
            store::readable(engine::updated_row(v, k, rows_of(s, table)[k], fields))
        }),
        session::updated(s, s2, table, k, fields, max, Ok(true)),
        session::got(s, table, k, before),
        session::got(s2, table, k, after),
    ensures
        before matches Ok(Some(a)) && after matches Ok(Some(b)) && {
            &&& b@.id == k
            &&& b@.names == a@.names
            &&& forall|i: int|
                row_laws::given_last(fields, i) && names_of(s, table).contains(
                    (#[trigger] fields[i]).0,
                ) ==> value_in(b@, fields[i].0) == Some(fields[i].1)
            &&& forall|name: Seq<char>|
                !row_laws::is_given(fields, name) ==> #[trigger] value_in(b@, name) == value_in(
                    a@,
                    name,
                )
            &&& row::well_laid(b@.data)
        },
        rows_of(s2, table).remove(k) == rows_of(s, table).remove(k),
{
    let i = session::place_of(s, table);
    let v = s.tables[i];
    laws::place_stays(s, s2, table);
    laws::update_then_get(s, s2, table, k, fields, max, after);
    row_laws::update_sets_values(v, k, s.rows(i)[k], fields, max);
    assert(rows_of(s2, table).remove(k) =~= rows_of(s, table).remove(k));
}

/// An update, and a delete, say whether the row was there.
pub proof fn changes_say_whether(
    s: StateView,
    s2: StateView,
    table: Seq<char>,
    k: u64,
    fields: Seq<(Seq<char>, ValueView)>,
    max: u32,
    there: bool,
    before: Result<Option<Row>>,
)
    requires
        session::usable(s, table),
        s.in_order(session::place_of(s, table)),
        session::updated(s, s2, table, k, fields, max, Ok(there)) || session::deleted(
            s,
            s2,
            table,
            k,
            Ok(there),
        ),
        session::got(s, table, k, before),
    ensures
        there <==> (before matches Ok(Some(_))),
        !there ==> before == Ok::<Option<Row>, BoogyError>(None) && session::same(s, s2),
{
}

/// Reading a row gives the row that is there, under its own number, or nothing.
pub proof fn get_gives_the_row(s: StateView, table: Seq<char>, k: u64, r: Result<Option<Row>>)
    requires
        session::usable(s, table),
        s.in_order(session::place_of(s, table)),
        session::got(s, table, k, r),
    ensures
        r matches Ok(x) && (x is Some <==> rows_of(s, table).contains_key(k)),
        r matches Ok(Some(row)) ==> row@.id == k && row@.data == rows_of(s, table)[k] && row@.names
            == names_of(s, table),
{
    let i = session::place_of(s, table);
    let v = s.tables[i];
    laws::list_of_rows(s.pages, v);
    if rows_of(s, table).contains_key(k) {
        let list = crate::finder::row_list(s.pages, v);
        assert(crate::tree::item_find(list, k) == Some(s.rows(i)[k]));
        let j = choose|j: int| 0 <= j < list.len() && (#[trigger] list[j]).0 == k;
        assert(s.rows(i)[list[j].0] == list[j].1);
    }
}

/// A row with a number that is taken is refused with this number, and no row is changed.
pub proof fn taken_number_refused(
    s: StateView,
    s2: StateView,
    table: Seq<char>,
    k: u64,
    data: Seq<(Seq<char>, ValueView)>,
    max: u32,
    r: Result<()>,
)
    requires
        session::usable(s, table),
        s.in_order(session::place_of(s, table)),
        engine::types_ok(s.tables[session::place_of(s, table)], data),
        k < u64::MAX,
        ({
            let v = s.tables[session::place_of(s, table)];
            let bytes = engine::new_row(v, k, data);
            &&& bytes.len() <= max
            &&& store::readable(bytes)
            &&& engine::starts_fit(v, data)
            &&& store::indexable(v, bytes, k)
            &&& v.row_count < u64::MAX
        }),
        session::inserted_with_id(s, s2, table, k, data, max, r),
    ensures
        rows_of(s, table).contains_key(k) ==> r == Err::<(), BoogyError>(
            BoogyError::DuplicateKey(k),
        ) && s2.pages == s.pages,
        !rows_of(s, table).contains_key(k) ==> !(r matches Err(BoogyError::DuplicateKey(_))),
{
}

/// A table that is not there, or locked, is neither read nor changed, and the error names it.
pub proof fn refused_untouched(
    s: StateView,
    s2: StateView,
    table: Seq<char>,
    k: u64,
    data: Seq<(Seq<char>, ValueView)>,
    max: u32,
    a: Result<u64>,
    b: Result<bool>,
    c: Result<Option<Row>>,
)
    requires
        !session::usable(s, table),
    ensures
        session::inserted(s, s2, table, data, max, a) ==> (a matches Err(e) && names_table(
            e,
            table,
        )) && session::same(s, s2),
        session::updated(s, s2, table, k, data, max, b) ==> (b matches Err(e) && names_table(
            e,
            table,
        )) && session::same(s, s2),
        session::deleted(s, s2, table, k, b) ==> (b matches Err(e) && names_table(e, table))
            && session::same(s, s2),
        session::got(s, table, k, c) ==> (c matches Err(e) && names_table(e, table)),
{
}

/// The error says that a table is missing or locked.
pub open spec fn names_table(e: BoogyError, table: Seq<char>) -> bool {
    match e {
        BoogyError::TableNotFound(t) => t@ == table,
        BoogyError::TableLocked(t) => t@ == table,
        _ => false,
    }
}

// ---------------------------------------------------------------------------
// Many rows
// ---------------------------------------------------------------------------

/// Rows after some were given new values: those that pass the filters have them, all
/// others are as they were.
pub open spec fn changed_where(
    s: StateView,
    s2: StateView,
    table: Seq<char>,
    fs: Seq<FilterView>,
    fields: Seq<(Seq<char>, ValueView)>,
) -> bool {
    let a = rows_of(s, table);
    let b = rows_of(s2, table);
    forall|k: u64|
        #![trigger a.contains_key(k)]
        #![trigger b.contains_key(k)]
        {
            &&& a.contains_key(k) <==> b.contains_key(k)
            &&& a.contains_key(k) && find_laws::passes_all(shown(s, table, k), fs)
                ==> row_laws::row_changed(names_of(s, table), a[k], b[k], fields)
            &&& a.contains_key(k) && !find_laws::passes_all(shown(s, table, k), fs) ==> b[k] == a[k]
        }
}

/// Updating the rows that pass filters sets their values and no others, and says how many
/// they are. This is the update outside of transactions.
pub proof fn update_where_changes_what_passes(
    s: StateView,
    s2: StateView,
    table: Seq<char>,
    fs: Seq<FilterView>,
    fields: Seq<(Seq<char>, ValueView)>,
    max: u32,
    n: u64,
)
    requires
        ready(s, table),
        find_laws::all_well_laid(rows_of(s, table)),
        ({
            let v = s.tables[session::place_of(s, table)];
            engine_bulk::patches_storable(s.pages, v, fs, engine::picked(v.columns, fields))
        }),
        db_rows::patched_where(s, s2, table, fs, fields, max, Ok(n)),
    ensures
        changed_where(s, s2, table, fs, fields),
        n == passing_ids(s, table, fs).len(),
{
    let i = session::place_of(s, table);
    let v = s.tables[i];
    let ps = engine::picked(v.columns, fields);
    let a = rows_of(s, table);
    laws::place_stays(s, s2, table);
    let b = rows_of(s2, table);
    assert(b == engine_bulk::patched_rows(s.pages, v, fs, ps));
    assert forall|k: u64| a.contains_key(k) implies engine_bulk::hit(s.pages, v, fs, k)
        == find_laws::passes_all(#[trigger] shown(s, table, k), fs) by {
        find_laws::passes_is_named(v, fs, a[k]);
    }
    assert(engine_bulk::hits(s.pages, v, fs) =~= passing_ids(s, table, fs)) by {
        assert forall|k: u64| engine_bulk::hits(s.pages, v, fs).contains(k) <==> passing_ids(
            s,
            table,
            fs,
        ).contains(k) by {
            if a.contains_key(k) {
                assert(engine_bulk::hit(s.pages, v, fs, k) == find_laws::passes_all(
                    shown(s, table, k),
                    fs,
                ));
            }
        }
    }
    assert forall|k: u64| #![trigger a.contains_key(k)] #![trigger b.contains_key(k)] {
        &&& a.contains_key(k) <==> b.contains_key(k)
        &&& a.contains_key(k) && find_laws::passes_all(shown(s, table, k), fs)
            ==> row_laws::row_changed(names_of(s, table), a[k], b[k], fields)
        &&& a.contains_key(k) && !find_laws::passes_all(shown(s, table, k), fs) ==> b[k] == a[k]
    } by {
        if a.contains_key(k) {
            assert(engine_bulk::hit(s.pages, v, fs, k) == find_laws::passes_all(
                shown(s, table, k),
                fs,
            ));
            if engine_bulk::hit(s.pages, v, fs, k) {
                assert(row::well_laid(a[k]));
                row_laws::patch_sets_values(v, a[k], fields, max);
            }
        }
    }
}

/// Updating the rows that pass filters sets their values and no others, and says how many
/// they are. This is the update in transactions.
pub proof fn transaction_update_changes_what_passes(
    s: StateView,
    s2: StateView,
    table: Seq<char>,
    fs: Seq<FilterView>,
    fields: Seq<(Seq<char>, ValueView)>,
    max: u32,
    n: u64,
)
    requires
        ready(s, table),
        find_laws::all_well_laid(rows_of(s, table)),
        session::all_refreshable(s, session::place_of(s, table), fs, fields),
        session::scan_updated(s, s2, table, fs, fields, max, Ok(n)),
    ensures
        changed_where(s, s2, table, fs, fields),
        n == passing_ids(s, table, fs).len(),
{
    let i = session::place_of(s, table);
    let v = s.tables[i];
    let a = rows_of(s, table);
    laws::place_stays(s, s2, table);
    let b = rows_of(s2, table);
    assert(b == session::refreshed_rows(s, i, fs, fields));
    hits_pass(s, table, fs);
    assert forall|k: u64| #![trigger a.contains_key(k)] #![trigger b.contains_key(k)] {
        &&& a.contains_key(k) <==> b.contains_key(k)
        &&& a.contains_key(k) && find_laws::passes_all(shown(s, table, k), fs)
            ==> row_laws::row_changed(names_of(s, table), a[k], b[k], fields)
        &&& a.contains_key(k) && !find_laws::passes_all(shown(s, table, k), fs) ==> b[k] == a[k]
    } by {
        if a.contains_key(k) {
            assert(session::scan_hits(s, i, fs).contains(k) == passing_ids(s, table, fs).contains(k));
            if session::scan_hits(s, i, fs).contains(k) {
                assert(row::well_laid(a[k]));
                row_laws::update_sets_values(v, k, a[k], fields, max);
            }
        }
    }
}

/// The rows that a scan hits are those that pass.
proof fn hits_pass(s: StateView, table: Seq<char>, fs: Seq<FilterView>)
    requires
        ready(s, table),
    ensures
        session::scan_hits(s, session::place_of(s, table), fs) == passing_ids(s, table, fs),
{
    let i = session::place_of(s, table);
    let v = s.tables[i];
    assert forall|k: u64| session::scan_hits(s, i, fs).contains(k) <==> passing_ids(
        s,
        table,
        fs,
    ).contains(k) by {
        find_laws::passes_is_named(v, fs, s.rows(i)[k]);
    }
    assert(session::scan_hits(s, i, fs) =~= passing_ids(s, table, fs));
}

/// Deleting the rows that pass filters removes these and no others, in a transaction or
/// outside, says how many they are, and leaves none that passes.
pub proof fn delete_where_removes_what_passes(
    s: StateView,
    s2: StateView,
    table: Seq<char>,
    fs: Seq<FilterView>,
    n: u64,
    k: u64,
)
    requires
        ready(s, table),
        db_rows::dropped_where(s, s2, table, fs, Ok(n)) || session::scan_deleted(
            s,
            s2,
            table,
            fs,
            Ok(n),
        ),
    ensures
        n == passing_ids(s, table, fs).len(),
        rows_of(s2, table).contains_key(k) <==> rows_of(s, table).contains_key(k)
            && !find_laws::passes_all(shown(s, table, k), fs),
        rows_of(s2, table).contains_key(k) ==> rows_of(s2, table)[k] == rows_of(s, table)[k],
        passing_ids(s2, table, fs).len() == 0,
        ready(s2, table),
{
    let i = session::place_of(s, table);
    let v = s.tables[i];
    laws::place_stays(s, s2, table);
    hits_pass(s, table, fs);
    find_laws::passes_is_named(v, fs, s.rows(i)[k]);
    if db_rows::dropped_where(s, s2, table, fs, Ok(n)) {
        assert(engine_bulk::hits(s.pages, v, fs) =~= session::scan_hits(s, i, fs));
        assert(engine_bulk::spared_rows(s.pages, v, fs) =~= session::remaining_rows(s, i, fs));
    }
    assert(rows_of(s2, table) == session::remaining_rows(s, i, fs));
    assert(passing_ids(s2, table, fs) =~= Set::empty()) by {
        assert forall|x: u64| !passing_ids(s2, table, fs).contains(x) by {
            if passing_ids(s2, table, fs).contains(x) {
                find_laws::passes_is_named(v, fs, s.rows(i)[x]);
                assert(s2.rows(i)[x] == s.rows(i)[x]);
            }
        }
    }
}

proof fn numbered_rows(
    v: table::TableView,
    rows: Map<u64, Seq<u8>>,
    first: u64,
    datas: Seq<Seq<(Seq<char>, ValueView)>>,
    k: u64,
)
    requires
        first + datas.len() <= u64::MAX,
    ensures
        ({
            let all = session::with_rows(v, rows, first, datas);
            &&& first <= k < first + datas.len() ==> all.contains_key(k) && all[k]
                == engine::new_row(v, k, datas[k - first])
            &&& !(first <= k < first + datas.len()) ==> (all.contains_key(k) <==> rows.contains_key(
                k,
            )) && (rows.contains_key(k) ==> all[k] == rows[k])
        }),
    decreases datas.len(),
{
    if datas.len() > 0 {
        numbered_rows(v, rows, first, datas.drop_last(), k);
        if first <= k < first + datas.len() - 1 {
            assert(datas.drop_last()[k - first] == datas[k - first]);
        }
    }
}

/// Rows that were inserted together have numbers one after the other, in the order that
/// they were given in, and each reads as it was given; all other rows stay.
pub proof fn insert_many_reads_back(
    s: StateView,
    s2: StateView,
    table: Seq<char>,
    datas: Seq<Seq<(Seq<char>, ValueView)>>,
    max: u32,
    ids: Vec<u64>,
    j: int,
    r: Result<Option<Row>>,
    k: u64,
)
    requires
        ready(s, table),
        0 <= j < datas.len(),
        row_laws::given_once(datas[j]),
        session::all_storable(s.tables[session::place_of(s, table)], datas, max),
        session::many_inserted(s, s2, table, datas, max, Ok(ids)),
        session::got(s2, table, ids@[j], r),
    ensures
        ids@.len() == datas.len(),
        forall|a: int, b: int|
            0 <= a < b < ids@.len() ==> (#[trigger] ids@[a]) < (#[trigger] ids@[b]),
        r matches Ok(Some(row)) && row@.id == ids@[j] && reads_as_given(
            row,
            names_of(s, table),
            datas[j],
        ),
        !ids@.contains(k) ==> (rows_of(s2, table).contains_key(k) <==> rows_of(s, table).contains_key(
            k,
        )) && (rows_of(s, table).contains_key(k) ==> rows_of(s2, table)[k] == rows_of(s, table)[k]),
{
    let i = session::place_of(s, table);
    let v = s.tables[i];
    let first = v.next_rowid;
    laws::place_stays(s, s2, table);
    numbered_rows(v, s.rows(i), first, datas, ids@[j]);
    numbered_rows(v, s.rows(i), first, datas, k);
    assert(datas[j] == datas[ids@[j] - first]);
    new_row_reads(v, ids@[j], datas[j], r->Ok_0->Some_0, max);
    if first <= k < first + datas.len() {
        assert(ids@[k - first] == k);
    }
}

/// The number of rows goes up by one with an insert and down by one with a delete.
pub proof fn counts_follow(
    s: StateView,
    s2: StateView,
    table: Seq<char>,
    k: u64,
    data: Seq<(Seq<char>, ValueView)>,
    max: u32,
    a: Result<u64>,
    b: Result<u64>,
)
    requires
        session::usable(s, table),
        s.in_order(session::place_of(s, table)),
        db_rows::counted(s, table, Seq::empty(), a),
        db_rows::counted(s2, table, Seq::empty(), b),
        a matches Ok(n) && n < u64::MAX,
    ensures
        session::inserted_with_id(s, s2, table, k, data, max, Ok(())) ==> b == Ok::<
            u64,
            BoogyError,
        >((a->Ok_0 + 1) as u64),
        session::deleted(s, s2, table, k, Ok(true)) ==> b == Ok::<u64, BoogyError>(
            (a->Ok_0 - 1) as u64,
        ),
        session::updated(s, s2, table, k, data, max, Ok(true)) ==> b == a,
{
    if session::inserted_with_id(s, s2, table, k, data, max, Ok(())) {
        laws::place_stays(s, s2, table);
    }
    if session::deleted(s, s2, table, k, Ok(true)) {
        laws::place_stays(s, s2, table);
    }
    if session::updated(s, s2, table, k, data, max, Ok(true)) {
        laws::place_stays(s, s2, table);
    }
}

}
