//! What rows hold after they were written: an insert keeps the values that it was given
//! under their names, and an update sets those that it was given and keeps the others.

use crate::btree_node;
use crate::engine;
use crate::engine_bulk;
use crate::query;
use crate::query::{columns_in, value_in};
use crate::query_laws;
use crate::row;
use crate::table;
use crate::table::TableView;
use crate::value::{ColumnView, ValueView};
use vstd::prelude::*;

verus! {

// ---------------------------------------------------------------------------
// Columns by number
// ---------------------------------------------------------------------------

/// A value stands under a number.
pub open spec fn holds_under(cols: Seq<(u16, ValueView)>, id: u16, x: ValueView) -> bool {
    cols.contains((id, x))
}

proof fn pushed_has(cols: Seq<(u16, ValueView)>, c: (u16, ValueView), id: u16, x: ValueView)
    ensures
        holds_under(cols.push(c), id, x) <==> holds_under(cols, id, x) || c == (id, x),
{
    let all = cols.push(c);
    if holds_under(cols, id, x) {
        let i = choose|i: int| 0 <= i < cols.len() && cols[i] == (id, x);
        assert(all[i] == (id, x));
    }
    if c == (id, x) {
        assert(all[cols.len() as int] == (id, x));
    }
    if holds_under(all, id, x) && c != (id, x) {
        let i = choose|i: int| 0 <= i < all.len() && all[i] == (id, x);
        assert(cols[i] == (id, x));
    }
}

/// Ordering columns by number keeps what stands under each number.
proof fn by_id_has(cols: Seq<(u16, ValueView)>, id: u16, x: ValueView)
    ensures
        holds_under(row::by_id(cols), id, x) <==> holds_under(cols, id, x),
{
    let s = row::by_id(cols);
    row::by_id_sorts(cols);
    cols.to_multiset_ensures();
    s.to_multiset_ensures();
    assert(s.contains((id, x)) <==> s.to_multiset().count((id, x)) > 0);
    assert(cols.contains((id, x)) <==> cols.to_multiset().count((id, x)) > 0);
}

/// Ordering distinct columns by number leaves them distinct.
proof fn by_id_distinct(cols: Seq<(u16, ValueView)>)
    requires
        row::ids_distinct(cols),
    ensures
        row::ids_distinct(row::by_id(cols)),
    decreases cols.len(),
{
    if cols.len() > 0 {
        let rest = cols.drop_last();
        let c = cols.last();
        let s = row::by_id(rest);
        assert forall|i: int, j: int| 0 <= i < j < rest.len() implies (#[trigger] rest[i]).0 != (
        #[trigger] rest[j]).0 by {
            assert(rest[i] == cols[i] && rest[j] == cols[j]);
        }
        by_id_distinct(rest);
        assert forall|i: int| 0 <= i < s.len() implies (#[trigger] s[i]).0 != c.0 by {
            assert(s[i] == (s[i].0, s[i].1));
            assert(holds_under(s, s[i].0, s[i].1)) by {
                assert(s.contains(s[i]));
            }
            by_id_has(rest, s[i].0, s[i].1);
            let k = choose|k: int| 0 <= k < rest.len() && rest[k] == (s[i].0, s[i].1);
            assert(cols[k].0 != cols[cols.len() - 1].0);
        }
        row::by_id_sorts(rest);
        row::rank_spec(s, c.0);
        let at = row::rank(s, c.0);
        let all = s.insert(at, c);
        assert forall|i: int, j: int| 0 <= i < j < all.len() implies (#[trigger] all[i]).0 != (
        #[trigger] all[j]).0 by {
            let i2 = if i < at {
                i
            } else {
                i - 1
            };
            let j2 = if j < at {
                j
            } else {
                j - 1
            };
            if i != at && j != at {
                assert(all[i] == s[i2] && all[j] == s[j2]);
            } else if i == at {
                assert(all[j] == s[j2]);
            } else {
                assert(all[i] == s[i2]);
            }
        }
    }
}

proof fn data_at_least(cols: Seq<(u16, ValueView)>, i: int)
    requires
        0 <= i < cols.len(),
    ensures
        row::data_of(cols).len() >= row::value_bytes(cols[i].1).len(),
    decreases cols.len(),
{
    if i < cols.len() - 1 {
        data_at_least(cols.drop_last(), i);
        assert(cols.drop_last()[i] == cols[i]);
    }
}

/// Columns of a row that is not too long fit its format if they start within reach.
proof fn short_row_fits(rowid: u64, cols: Seq<(u16, ValueView)>)
    requires
        row::starts_fit(row::by_id(cols)),
        row::row_bytes(rowid, cols).len() <= u32::MAX,
    ensures
        row::cols_fit(row::by_id(cols)),
{
    let s = row::by_id(cols);
    assert forall|i: int| 0 <= i < s.len() implies row::value_fits((#[trigger] s[i]).1) by {
        data_at_least(s, i);
    }
}

/// The value that is set last under a number.
spec fn last_set(sets: Seq<(u16, ValueView)>, id: u16) -> Option<ValueView>
    decreases sets.len(),
{
    if sets.len() == 0 {
        None
    } else if sets.last().0 == id {
        Some(sets.last().1)
    } else {
        last_set(sets.drop_last(), id)
    }
}

proof fn column_set(cols: Seq<(u16, ValueView)>, id: u16, v: ValueView, i: u16, x: ValueView)
    requires
        row::ids_distinct(cols),
    ensures
        row::ids_distinct(engine::with_column(cols, id, v)),
        holds_under(engine::with_column(cols, id, v), i, x) <==> if i == id {
            x == v
        } else {
            holds_under(cols, i, x)
        },
{
    let p = engine::id_place(cols, id);
    let all = engine::with_column(cols, id, v);
    engine::id_place_spec(cols, id);
    if p < cols.len() {
        assert forall|a: int, b: int| 0 <= a < b < all.len() implies (#[trigger] all[a]).0 != (
        #[trigger] all[b]).0 by {
            assert(cols[a].0 != cols[b].0);
        }
        assert(all[p] == (id, v));
        if holds_under(cols, i, x) && i != id {
            let a = choose|a: int| 0 <= a < cols.len() && cols[a] == (i, x);
            assert(all[a] == (i, x));
        }
        if holds_under(all, i, x) {
            let a = choose|a: int| 0 <= a < all.len() && all[a] == (i, x);
            if a != p {
                assert(cols[a] == (i, x));
                if a < p {
                    assert(cols[a].0 != cols[p].0);
                } else {
                    assert(cols[p].0 != cols[a].0);
                }
            }
        }
    } else {
        assert forall|a: int, b: int| 0 <= a < b < all.len() implies (#[trigger] all[a]).0 != (
        #[trigger] all[b]).0 by {
            if b < cols.len() {
                assert(cols[a].0 != cols[b].0);
            } else {
                assert(all[a] == cols[a]);
            }
        }
        pushed_has(cols, (id, v), i, x);
        if holds_under(cols, i, x) {
            let a = choose|a: int| 0 <= a < cols.len() && cols[a] == (i, x);
            assert(cols[a].0 != id);
        }
    }
}

proof fn columns_set(cols: Seq<(u16, ValueView)>, sets: Seq<(u16, ValueView)>, i: u16, x: ValueView)
    requires
        row::ids_distinct(cols),
    ensures
        row::ids_distinct(engine::with_columns(cols, sets)),
        holds_under(engine::with_columns(cols, sets), i, x) <==> match last_set(sets, i) {
            Some(y) => x == y,
            None => holds_under(cols, i, x),
        },
    decreases sets.len(),
{
    if sets.len() > 0 {
        let rest = sets.drop_last();
        columns_set(cols, rest, i, x);
        column_set(engine::with_columns(cols, rest), sets.last().0, sets.last().1, i, x);
    }
}

proof fn last_of_distinct(cols: Seq<(u16, ValueView)>, i: u16, x: ValueView)
    requires
        row::ids_distinct(cols),
    ensures
        last_set(cols, i) == Some(x) <==> holds_under(cols, i, x),
    decreases cols.len(),
{
    if cols.len() > 0 {
        let rest = cols.drop_last();
        assert forall|a: int, b: int| 0 <= a < b < rest.len() implies (#[trigger] rest[a]).0 != (
        #[trigger] rest[b]).0 by {
            assert(rest[a] == cols[a] && rest[b] == cols[b]);
        }
        last_of_distinct(rest, i, x);
        assert(cols =~= rest.push(cols.last()));
        pushed_has(rest, cols.last(), i, x);
        if holds_under(rest, i, x) {
            let a = choose|a: int| 0 <= a < rest.len() && rest[a] == (i, x);
            assert(cols[a].0 != cols[cols.len() - 1].0);
        }
    }
}

proof fn decoded_distinct(d: Seq<u8>)
    requires
        row::well_laid(d),
    ensures
        row::ids_distinct(row::decoded_cols(d)),
{
    let cols = row::decoded_cols(d);
    assert forall|a: int, b: int| 0 <= a < b < cols.len() implies (#[trigger] cols[a]).0 != (
    #[trigger] cols[b]).0 by {
        assert(row::entry_id(d, a) < row::entry_id(d, b));
    }
}

/// A row with columns set: each has the value that was set last under its number, or the
/// one that it had.
proof fn merged_by_number(d: Seq<u8>, k: u64, sets: Seq<(u16, ValueView)>, id: u16)
    requires
        row::well_laid(d),
        row::starts_fit(row::by_id(engine::merged(row::decoded_cols(d), sets))),
        row::row_bytes(k, engine::merged(row::decoded_cols(d), sets)).len() <= u32::MAX,
    ensures
        ({
            let d2 = row::row_bytes(k, engine::merged(row::decoded_cols(d), sets));
            &&& row::well_laid(d2)
            &&& btree_node::id_of(d2) == k
            &&& row::column_of(d2, id) == match last_set(sets, id) {
                Some(x) => Some(Some(x)),
                None => row::column_of(d, id),
            }
        }),
{
    let old = row::decoded_cols(d);
    let none = Seq::<(u16, ValueView)>::empty();
    let cols = engine::merged(old, sets);
    let d2 = row::row_bytes(k, cols);
    decoded_distinct(d);
    assert(row::ids_distinct(none));
    assert forall|x: ValueView| #[trigger]
        holds_under(cols, id, x) <==> match last_set(sets, id) {
            Some(y) => x == y,
            None => holds_under(old, id, x),
        } by {
        columns_set(none, old, id, x);
        last_of_distinct(old, id, x);
        columns_set(engine::with_columns(none, old), sets, id, x);
        assert(!holds_under(none, id, x));
        if last_set(old, id) is Some {
            last_of_distinct(old, id, last_set(old, id)->0);
        }
    }
    columns_set(none, old, id, ValueView::Null);
    columns_set(engine::with_columns(none, old), sets, id, ValueView::Null);
    by_id_distinct(cols);
    short_row_fits(k, cols);
    row::encoded_well_laid(k, cols);
    row::row_round_trip(k, cols);
    engine::row_starts(k, cols);
    assert forall|x: ValueView| row::column_of(d2, id) == Some(Some(x)) <==> #[trigger] holds_under(
        cols,
        id,
        x,
    ) by {
        row::extracted_is_decoded(d2, id, x);
        by_id_has(cols, id, x);
    }
    assert forall|x: ValueView| row::column_of(d, id) == Some(Some(x)) <==> #[trigger] holds_under(
        old,
        id,
        x,
    ) by {
        row::extracted_is_decoded(d, id, x);
    }
    row::extracted_is_decoded(d, id, ValueView::Null);
    row::extracted_is_decoded(d2, id, ValueView::Null);
    match last_set(sets, id) {
        Some(y) => {
            assert(holds_under(cols, id, y));
        },
        None => {
            if let Some(Some(x)) = row::column_of(d, id) {
                assert(holds_under(old, id, x));
                assert(holds_under(cols, id, x));
            } else if let Some(Some(x)) = row::column_of(d2, id) {
                assert(holds_under(cols, id, x));
                assert(holds_under(old, id, x));
            }
        },
    }
}

// ---------------------------------------------------------------------------
// Columns by name
// ---------------------------------------------------------------------------

/// No name is given twice.
pub open spec fn given_once(data: Seq<(Seq<char>, ValueView)>) -> bool {
    forall|i: int, j: int| 0 <= i < j < data.len() ==> (#[trigger] data[i]).0 != (#[trigger] data[j]).0
}

/// The entry is the last one with its name.
pub open spec fn given_last(data: Seq<(Seq<char>, ValueView)>, i: int) -> bool {
    &&& 0 <= i < data.len()
    &&& forall|j: int| i < j < data.len() ==> (#[trigger] data[j]).0 != data[i].0
}

/// A value is given under a name.
pub open spec fn is_given(data: Seq<(Seq<char>, ValueView)>, name: Seq<char>) -> bool {
    exists|i: int| 0 <= i < data.len() && (#[trigger] data[i]).0 == name
}

proof fn numbers_differ(columns: Seq<ColumnView>, a: Seq<char>, b: Seq<char>)
    requires
        query_laws::tellable(table::column_names(columns)),
        table::column_id(columns, a) is Some,
        table::column_id(columns, a) == table::column_id(columns, b),
    ensures
        a == b,
{
    query_laws::column_at(columns, a);
    query_laws::column_at(columns, b);
    table::place_first(table::column_names(columns), a);
    table::place_first(table::column_names(columns), b);
}

proof fn picked_last(columns: Seq<ColumnView>, data: Seq<(Seq<char>, ValueView)>, name: Seq<char>)
    requires
        query_laws::tellable(table::column_names(columns)),
        table::column_id(columns, name) is Some,
    ensures
        ({
            let l = last_set(engine::picked(columns, data), table::column_id(columns, name)->0);
            &&& forall|i: int|
                given_last(data, i) && (#[trigger] data[i]).0 == name ==> l == Some(data[i].1)
            &&& !is_given(data, name) ==> l is None
            &&& l is Some ==> is_given(data, name) && data.contains((name, l->0))
        }),
    decreases data.len(),
{
    let id = table::column_id(columns, name)->0;
    let all = engine::picked(columns, data);
    let l = last_set(all, id);
    if data.len() > 0 {
        let rest = data.drop_last();
        let e = data.last();
        let few = engine::picked(columns, rest);
        picked_last(columns, rest, name);
        assert(data[data.len() - 1] == e);
        if table::column_id(columns, e.0) is Some {
            assert(all.drop_last() =~= few);
            if table::column_id(columns, e.0)->0 == id {
                numbers_differ(columns, name, e.0);
                assert(data.contains((name, e.1)));
            }
        }
        assert forall|i: int| given_last(data, i) && (#[trigger] data[i]).0 == name implies l
            == Some(data[i].1) by {
            if i < rest.len() {
                assert(rest[i] == data[i]);
                assert(data[data.len() - 1].0 != data[i].0);
                assert forall|j: int| i < j < rest.len() implies (#[trigger] rest[j]).0 != rest[i].0 by {
                    assert(rest[j] == data[j]);
                }
                assert(given_last(rest, i));
            }
        }
        if is_given(rest, name) {
            let i = choose|i: int| 0 <= i < rest.len() && (#[trigger] rest[i]).0 == name;
            assert(data[i].0 == name);
        }
        if l is Some && e.0 != name {
            assert(rest.contains((name, l->0)));
            let i = choose|i: int| 0 <= i < rest.len() && rest[i] == (name, l->0);
            assert(data[i] == (name, l->0));
            assert(data[i].0 == name);
        }
    }
}

proof fn picked_has(
    columns: Seq<ColumnView>,
    data: Seq<(Seq<char>, ValueView)>,
    name: Seq<char>,
    x: ValueView,
)
    requires
        query_laws::tellable(table::column_names(columns)),
        table::column_id(columns, name) is Some,
    ensures
        holds_under(engine::picked(columns, data), table::column_id(columns, name)->0, x) <==> data.contains(
            (name, x),
        ),
    decreases data.len(),
{
    let id = table::column_id(columns, name)->0;
    if data.len() > 0 {
        let rest = data.drop_last();
        let l = data.last();
        let few = engine::picked(columns, rest);
        picked_has(columns, rest, name, x);
        assert(data =~= rest.push(l));
        if rest.contains((name, x)) {
            let i = choose|i: int| 0 <= i < rest.len() && rest[i] == (name, x);
            assert(data[i] == (name, x));
        }
        assert(data[data.len() - 1] == l);
        if data.contains((name, x)) && l != (name, x) {
            let i = choose|i: int| 0 <= i < data.len() && data[i] == (name, x);
            assert(rest[i] == (name, x));
        }
        if table::column_id(columns, l.0) is Some {
            pushed_has(few, (table::column_id(columns, l.0)->0, l.1), id, x);
            if table::column_id(columns, l.0)->0 == id {
                numbers_differ(columns, name, l.0);
            }
        }
    }
}

proof fn picked_distinct(columns: Seq<ColumnView>, data: Seq<(Seq<char>, ValueView)>)
    requires
        query_laws::tellable(table::column_names(columns)),
        given_once(data),
    ensures
        row::ids_distinct(engine::picked(columns, data)),
    decreases data.len(),
{
    if data.len() > 0 {
        let rest = data.drop_last();
        let l = data.last();
        let few = engine::picked(columns, rest);
        assert forall|i: int, j: int| 0 <= i < j < rest.len() implies (#[trigger] rest[i]).0 != (
        #[trigger] rest[j]).0 by {
            assert(rest[i] == data[i] && rest[j] == data[j]);
        }
        picked_distinct(columns, rest);
        if table::column_id(columns, l.0) is Some {
            let id = table::column_id(columns, l.0)->0;
            let all = engine::picked(columns, data);
            assert(all == few.push((id, l.1)));
            assert forall|i: int, j: int| 0 <= i < j < all.len() implies (#[trigger] all[i]).0 != (
            #[trigger] all[j]).0 by {
                if j == few.len() && all[i].0 == id {
                    assert(few[i] == (id, few[i].1));
                    assert(holds_under(few, id, few[i].1)) by {
                        assert(few.contains(few[i]));
                    }
                    picked_has(columns, rest, l.0, few[i].1);
                    let k = choose|k: int| 0 <= k < rest.len() && rest[k] == (l.0, few[i].1);
                    assert(data[k].0 != data[data.len() - 1].0);
                }
            }
        }
    }
}

/// How many bytes a value takes in a row: one for its type, and its own; texts and blobs
/// have their length in front.
pub open spec fn value_size(x: ValueView) -> int {
    match x {
        ValueView::Null => 1,
        ValueView::Boolean(_) => 2,
        ValueView::Integer(_) => 9,
        ValueView::Real(_) => 9,
        ValueView::Text(s) => 5 + vstd::utf8::encode_utf8(s).len() as int,
        ValueView::Blob(b) => 5 + b.len() as int,
    }
}

/// How long a row of named values is: ten bytes, and four for each value that is for a
/// column, besides the value.
pub open spec fn given_size(names: Seq<Seq<char>>, data: Seq<(Seq<char>, ValueView)>) -> int
    decreases data.len(),
{
    if data.len() == 0 {
        10
    } else if names.contains(data.last().0) {
        given_size(names, data.drop_last()) + 4 + value_size(data.last().1)
    } else {
        given_size(names, data.drop_last())
    }
}

proof fn value_length(x: ValueView)
    ensures
        row::value_bytes(x).len() == value_size(x),
{
}

proof fn data_inserted(s: Seq<(u16, ValueView)>, at: int, c: (u16, ValueView))
    requires
        0 <= at <= s.len(),
    ensures
        row::data_of(s.insert(at, c)).len() == row::data_of(s).len() + value_size(c.1),
    decreases s.len(),
{
    let all = s.insert(at, c);
    value_length(c.1);
    if at == s.len() {
        assert(all.drop_last() =~= s);
    } else {
        let rest = s.drop_last();
        data_inserted(rest, at, c);
        assert(all.drop_last() =~= rest.insert(at, c));
        assert(all.last() == s.last());
    }
}

proof fn dir_length(s: Seq<(u16, ValueView)>)
    ensures
        row::dir_of(s).len() == 4 * s.len(),
    decreases s.len(),
{
    if s.len() > 0 {
        dir_length(s.drop_last());
    }
}

proof fn picked_size(columns: Seq<ColumnView>, data: Seq<(Seq<char>, ValueView)>)
    ensures
        ({
            let s = row::by_id(engine::picked(columns, data));
            &&& 10 + 4 * s.len() + row::data_of(s).len() == given_size(
                table::column_names(columns),
                data,
            )
            &&& s.len() == engine::picked(columns, data).len()
        }),
    decreases data.len(),
{
    let cols = engine::picked(columns, data);
    row::by_id_sorts(cols);
    if data.len() > 0 {
        let few = engine::picked(columns, data.drop_last());
        picked_size(columns, data.drop_last());
        table::column_known(columns, data.last().0);
        if table::column_id(columns, data.last().0) is Some {
            let c = (table::column_id(columns, data.last().0)->0, data.last().1);
            let s = row::by_id(few);
            assert(cols.drop_last() =~= few);
            row::by_id_sorts(few);
            row::rank_spec(s, c.0);
            data_inserted(s, row::rank(s, c.0), c);
        }
    }
}

/// A row of named values is as long as its values say.
pub proof fn row_length(v: TableView, k: u64, data: Seq<(Seq<char>, ValueView)>)
    ensures
        engine::new_row(v, k, data).len() == given_size(table::column_names(v.columns), data),
{
    let s = row::by_id(engine::picked(v.columns, data));
    picked_size(v.columns, data);
    dir_length(s);
}

/// A value is read under a name exactly if the name is that of a column and the value was
/// given under it, and then it is listed under it too.
pub open spec fn reads_pair(
    r: query::RowView,
    names: Seq<Seq<char>>,
    data: Seq<(Seq<char>, ValueView)>,
    name: Seq<char>,
    x: ValueView,
) -> bool {
    &&& value_in(r, name) == Some(x) <==> names.contains(name) && data.contains((name, x))
    &&& columns_in(r).contains((name, x)) <==> names.contains(name) && data.contains((name, x))
}

/// A row that is made of named values has under each name of a column the value that was
/// given under it, and no other; it lists exactly these.
pub proof fn row_holds_what_was_given(
    v: TableView,
    k: u64,
    data: Seq<(Seq<char>, ValueView)>,
    name: Seq<char>,
    x: ValueView,
)
    requires
        query_laws::tellable(table::column_names(v.columns)),
        given_once(data),
        engine::starts_fit(v, data),
        engine::new_row(v, k, data).len() <= u32::MAX,
    ensures
        ({
            let r = query::row_of(engine::new_row(v, k, data), table::column_names(v.columns));
            &&& r.id == k
            &&& row::well_laid(r.data)
            &&& reads_pair(r, table::column_names(v.columns), data, name, x)
        }),
{
    let names = table::column_names(v.columns);
    let cols = engine::picked(v.columns, data);
    let d = engine::new_row(v, k, data);
    let r = query::row_of(d, names);
    picked_distinct(v.columns, data);
    by_id_distinct(cols);
    short_row_fits(k, cols);
    row::encoded_well_laid(k, cols);
    row::row_round_trip(k, cols);
    engine::row_starts(k, cols);
    query_laws::columns_are_values(r, name, x);
    table::column_known(v.columns, name);
    query_laws::column_at(v.columns, name);
    table::place_first(names, name);
    if table::column_id(v.columns, name) is Some {
        let id = table::column_id(v.columns, name)->0;
        picked_has(v.columns, data, name, x);
        by_id_has(cols, id, x);
        row::extracted_is_decoded(d, id, x);
    }
}

/// The row has under each name of a column the value that is set last under it, and where
/// none is set the one that it had.
pub open spec fn row_changed(
    names: Seq<Seq<char>>,
    before: Seq<u8>,
    after: Seq<u8>,
    fields: Seq<(Seq<char>, ValueView)>,
) -> bool {
    let a = query::row_of(before, names);
    let b = query::row_of(after, names);
    &&& row::well_laid(after)
    &&& forall|i: int|
        given_last(fields, i) && names.contains((#[trigger] fields[i]).0) ==> value_in(
            b,
            fields[i].0,
        ) == Some(fields[i].1)
    &&& forall|name: Seq<char>|
        !is_given(fields, name) ==> #[trigger] value_in(b, name) == value_in(a, name)
}

/// An updated row has the values that were set, and keeps its number and all other values.
pub proof fn update_sets_values(
    v: TableView,
    k: u64,
    before: Seq<u8>,
    fields: Seq<(Seq<char>, ValueView)>,
    max: u32,
)
    requires
        query_laws::tellable(table::column_names(v.columns)),
        row::well_laid(before),
        engine::change_fits(v, k, before, fields, max),
    ensures
        row_changed(
            table::column_names(v.columns),
            before,
            engine::updated_row(v, k, before, fields),
            fields,
        ),
        btree_node::id_of(engine::updated_row(v, k, before, fields)) == k,
{
    reveal(engine::updated_row);
    changed_row(v.columns, k, before, fields);
}

/// A row that is patched has the values that were set, and keeps its number and all other
/// values.
pub proof fn patch_sets_values(
    v: TableView,
    before: Seq<u8>,
    fields: Seq<(Seq<char>, ValueView)>,
    max: u32,
)
    requires
        query_laws::tellable(table::column_names(v.columns)),
        row::well_laid(before),
        engine_bulk::patch_fits(before, engine::picked(v.columns, fields), max),
    ensures
        row_changed(
            table::column_names(v.columns),
            before,
            engine_bulk::patched(before, engine::picked(v.columns, fields)),
            fields,
        ),
        btree_node::id_of(engine_bulk::patched(before, engine::picked(v.columns, fields)))
            == btree_node::id_of(before),
{
    reveal(engine_bulk::patched);
    changed_row(v.columns, btree_node::id_of(before), before, fields);
}

proof fn changed_row(
    columns: Seq<ColumnView>,
    k: u64,
    before: Seq<u8>,
    fields: Seq<(Seq<char>, ValueView)>,
)
    requires
        query_laws::tellable(table::column_names(columns)),
        row::well_laid(before),
        engine::merge_fits(before, engine::picked(columns, fields)),
        row::row_bytes(
            k,
            engine::merged(row::decoded_cols(before), engine::picked(columns, fields)),
        ).len() <= u32::MAX,
    ensures
        ({
            let after = row::row_bytes(
                k,
                engine::merged(row::decoded_cols(before), engine::picked(columns, fields)),
            );
            &&& row_changed(table::column_names(columns), before, after, fields)
            &&& btree_node::id_of(after) == k
        }),
{
    let names = table::column_names(columns);
    let sets = engine::picked(columns, fields);
    let after = row::row_bytes(k, engine::merged(row::decoded_cols(before), sets));
    let a = query::row_of(before, names);
    let b = query::row_of(after, names);
    merged_by_number(before, k, sets, 0);
    assert forall|i: int|
        given_last(fields, i) && names.contains((#[trigger] fields[i]).0) implies value_in(
        b,
        fields[i].0,
    ) == Some(fields[i].1) by {
        let name = fields[i].0;
        table::column_known(columns, name);
        query_laws::column_at(columns, name);
        table::place_first(names, name);
        merged_by_number(before, k, sets, table::column_id(columns, name)->0);
        picked_last(columns, fields, name);
    }
    assert forall|name: Seq<char>| !is_given(fields, name) implies #[trigger] value_in(b, name)
        == value_in(a, name) by {
        table::column_known(columns, name);
        query_laws::column_at(columns, name);
        table::place_first(names, name);
        if table::column_id(columns, name) is Some {
            merged_by_number(before, k, sets, table::column_id(columns, name)->0);
            picked_last(columns, fields, name);
        }
    }
}

}
