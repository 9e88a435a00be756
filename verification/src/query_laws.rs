//! What is read of rows: columns by name, filters on them, and sorting by them.

use crate::filter;
use crate::filter::{FilterView, Sort, SortDir};
use crate::query;
use crate::query::{columns_in, value_in, RowView};
use crate::row;
use crate::table;
use crate::value;
use crate::value::{order_of, ColumnView, ValueView};
use crate::value_laws;
use std::cmp::Ordering;
use vstd::prelude::*;

verus! {

// ---------------------------------------------------------------------------
// Columns by name
// ---------------------------------------------------------------------------

/// The columns of a row can be told apart.
pub open spec fn tellable(names: Seq<Seq<char>>) -> bool {
    names.no_duplicates() && names.len() <= 0x1_0000
}

proof fn named_of(
    cols: Seq<(u16, ValueView)>,
    names: Seq<Seq<char>>,
    name: Seq<char>,
    x: ValueView,
)
    ensures
        query::named_columns(cols, names).contains((name, x)) <==> exists|i: int|
            0 <= i < cols.len() && (#[trigger] cols[i]).0 < names.len() && names[cols[i].0 as int]
                == name && cols[i].1 == x,
    decreases cols.len(),
{
    let all = query::named_columns(cols, names);
    if cols.len() > 0 {
        let rest = cols.drop_last();
        let few = query::named_columns(rest, names);
        let l = cols.last();
        named_of(rest, names, name, x);
        if all.contains((name, x)) {
            let k = choose|k: int| 0 <= k < all.len() && all[k] == (name, x);
            if k < few.len() {
                assert(few[k] == (name, x));
                let i = choose|i: int|
                    0 <= i < rest.len() && (#[trigger] rest[i]).0 < names.len()
                        && names[rest[i].0 as int] == name && rest[i].1 == x;
                assert(cols[i] == rest[i]);
            } else {
                assert(cols[cols.len() - 1] == l);
            }
        }
        if exists|i: int|
            0 <= i < cols.len() && (#[trigger] cols[i]).0 < names.len() && names[cols[i].0 as int]
                == name && cols[i].1 == x {
            let i = choose|i: int|
                0 <= i < cols.len() && (#[trigger] cols[i]).0 < names.len()
                    && names[cols[i].0 as int] == name && cols[i].1 == x;
            if i < rest.len() {
                assert(rest[i] == cols[i]);
                let k = choose|k: int| 0 <= k < few.len() && few[k] == (name, x);
                assert(all[k] == (name, x));
            } else {
                assert(all[all.len() - 1] == (name, x));
            }
        }
    }
}

/// Listing the columns of a row and reading them one by one show the same: a name is
/// listed with a value exactly if the value is read under the name.
pub proof fn columns_are_values(r: RowView, name: Seq<char>, x: ValueView)
    requires
        row::well_laid(r.data),
        tellable(r.names),
    ensures
        columns_in(r).contains((name, x)) <==> value_in(r, name) == Some(x),
{
    let cols = row::decoded_cols(r.data);
    named_of(cols, r.names, name, x);
    table::place_first(r.names, name);
    if let Some(p) = table::place(r.names, name) {
        row::extracted_is_decoded(r.data, row::low16(p), x);
        assert(row::low16(p) == p);
        if cols.contains((row::low16(p), x)) {
            let i = choose|i: int| 0 <= i < cols.len() && cols[i] == (row::low16(p), x);
            assert(r.names[cols[i].0 as int] == name);
        }
        if columns_in(r).contains((name, x)) {
            let i = choose|i: int|
                0 <= i < cols.len() && (#[trigger] cols[i]).0 < r.names.len()
                    && r.names[cols[i].0 as int] == name && cols[i].1 == x;
            assert(cols[i].0 == p);
            assert(cols[i] == (row::low16(p), x));
        }
    } else if columns_in(r).contains((name, x)) {
        let i = choose|i: int|
            0 <= i < cols.len() && (#[trigger] cols[i]).0 < r.names.len() && r.names[cols[i].0 as int]
                == name && cols[i].1 == x;
        assert(r.names.contains(name));
    }
}

proof fn named_ascend(cols: Seq<(u16, ValueView)>, names: Seq<Seq<char>>)
    requires
        forall|i: int, j: int| 0 <= i < j < cols.len() ==> (#[trigger] cols[i]).0 < (#[trigger] cols[j]).0,
    ensures
        ({
            let all = query::named_columns(cols, names);
            forall|i: int| 0 <= i < all.len() ==> #[trigger] stands_somewhere(cols, names, all, i)
        }),
        ({
            let all = query::named_columns(cols, names);
            forall|i: int, j: int, c: int, d: int|
                0 <= i < j < all.len() && names.no_duplicates() && #[trigger] stands(
                    cols,
                    names,
                    all,
                    i,
                    c,
                ) && #[trigger] stands(cols, names, all, j, d) ==> cols[c].0 < cols[d].0
        }),
    decreases cols.len(),
{
    let all = query::named_columns(cols, names);
    if cols.len() > 0 {
        let rest = cols.drop_last();
        let few = query::named_columns(rest, names);
        let l = cols.len() - 1;
        assert forall|i: int, j: int| 0 <= i < j < rest.len() implies (#[trigger] rest[i]).0 < (
        #[trigger] rest[j]).0 by {
            assert(rest[i] == cols[i] && rest[j] == cols[j]);
        }
        named_ascend(rest, names);
        assert forall|i: int| 0 <= i < all.len() implies #[trigger] stands_somewhere(
            cols,
            names,
            all,
            i,
        ) by {
            if i < few.len() {
                assert(stands_somewhere(rest, names, few, i));
                let c = choose|c: int| 0 <= c < rest.len() && #[trigger] stands(rest, names, few, i, c);
                assert(rest[c] == cols[c]);
                assert(stands(cols, names, all, i, c));
            } else {
                assert(stands(cols, names, all, i, l));
            }
        }
        assert forall|i: int, j: int, c: int, d: int|
            0 <= i < j < all.len() && names.no_duplicates() && #[trigger] stands(
                cols,
                names,
                all,
                i,
                c,
            ) && #[trigger] stands(cols, names, all, j, d) implies cols[c].0 < cols[d].0 by {
            assert(i < few.len());
            assert(stands_somewhere(rest, names, few, i));
            let c2 = choose|c2: int| 0 <= c2 < rest.len() && #[trigger] stands(rest, names, few, i, c2);
            assert(rest[c2] == cols[c2]);
            assert(names[cols[c2].0 as int] == names[cols[c].0 as int]);
            assert(cols[c2].0 == cols[c].0);
            if j < few.len() {
                assert(stands_somewhere(rest, names, few, j));
                let d2 = choose|d2: int|
                    0 <= d2 < rest.len() && #[trigger] stands(rest, names, few, j, d2);
                assert(rest[d2] == cols[d2]);
                assert(names[cols[d2].0 as int] == names[cols[d].0 as int]);
                assert(cols[d2].0 == cols[d].0);
            } else {
                assert(names[cols[l].0 as int] == names[cols[d].0 as int]);
                assert(cols[d].0 == cols[l].0);
                assert(cols[c2].0 < cols[l].0);
            }
        }
    }
}

spec fn stands(
    cols: Seq<(u16, ValueView)>,
    names: Seq<Seq<char>>,
    all: Seq<(Seq<char>, ValueView)>,
    i: int,
    c: int,
) -> bool {
    0 <= c < cols.len() && cols[c].0 < names.len() && all[i] == (names[cols[c].0 as int], cols[c].1)
}

spec fn stands_somewhere(
    cols: Seq<(u16, ValueView)>,
    names: Seq<Seq<char>>,
    all: Seq<(Seq<char>, ValueView)>,
    i: int,
) -> bool {
    exists|c: int| 0 <= c < cols.len() && #[trigger] stands(cols, names, all, i, c)
}

/// The columns of a row are listed in the order that the table has them in, each once.
pub proof fn columns_in_table_order(r: RowView, i: int, j: int)
    requires
        row::well_laid(r.data),
        tellable(r.names),
        0 <= i < j < columns_in(r).len(),
    ensures
        table::place(r.names, columns_in(r)[i].0) matches Some(a) && table::place(
            r.names,
            columns_in(r)[j].0,
        ) matches Some(b) && a < b,
{
    let cols = row::decoded_cols(r.data);
    let all = columns_in(r);
    let names = r.names;
    assert forall|a: int, b: int| 0 <= a < b < cols.len() implies (#[trigger] cols[a]).0 < (
    #[trigger] cols[b]).0 by {
        assert(row::entry_id(r.data, a) < row::entry_id(r.data, b));
    }
    named_ascend(cols, names);
    assert(stands_somewhere(cols, names, all, i) && stands_somewhere(cols, names, all, j));
    let c = choose|c: int| 0 <= c < cols.len() && #[trigger] stands(cols, names, all, i, c);
    let d = choose|d: int| 0 <= d < cols.len() && #[trigger] stands(cols, names, all, j, d);
    assert(cols[c].0 < cols[d].0);
    table::place_first(names, all[i].0);
    table::place_first(names, all[j].0);
    assert(names.contains(names[cols[c].0 as int]));
    assert(names.contains(names[cols[d].0 as int]));
}

/// A column of a table is found under its place.
pub proof fn column_at(columns: Seq<ColumnView>, name: Seq<char>)
    requires
        tellable(table::column_names(columns)),
    ensures
        match table::place(table::column_names(columns), name) {
            None => table::column_id(columns, name) is None,
            Some(i) => table::column_id(columns, name) == Some(row::low16(i)),
        },
    decreases columns.len(),
{
    let names = table::column_names(columns);
    if columns.len() > 0 {
        let rest = columns.drop_last();
        let few = table::column_names(rest);
        assert(few =~= names.drop_last());
        column_at(rest, name);
        table::place_first(few, name);
        assert(names.last() == columns.last().name);
        if columns.last().name == name && table::place(few, name) is Some {
            let i = table::place(few, name)->0;
            assert(few[i] == names[i]);
            assert(names[i] == names[names.len() - 1]);
        }
    }
}

/// The value that a column is read with, and null where none is read.
pub open spec fn read_or_null(r: RowView, name: Seq<char>) -> ValueView {
    match value_in(r, name) {
        Some(x) => x,
        None => ValueView::Null,
    }
}

/// A filter sees of a row what is read under the name of its column.
pub proof fn filter_sees_named_column(columns: Seq<ColumnView>, f: FilterView, bytes: Seq<u8>)
    requires
        tellable(table::column_names(columns)),
    ensures
        query::accepts(columns, f, bytes) <==> filter::holds(
            read_or_null(query::row_of(bytes, table::column_names(columns)), f.column),
            f.op,
            f.value,
        ),
{
    column_at(columns, f.column);
}

// ---------------------------------------------------------------------------
// Sorting
// ---------------------------------------------------------------------------

/// In the direction, the value of the first row comes strictly before that of the second.
/// A row without the column comes before one with it when sorting upwards.
pub open spec fn comes_before(a: RowView, b: RowView, column: Seq<char>, dir: SortDir) -> bool {
    match (value_in(a, column), value_in(b, column)) {
        (Some(x), Some(y)) => match dir {
            SortDir::Asc => order_of(x, y) == Some(Ordering::Less),
            SortDir::Desc => order_of(x, y) == Some(Ordering::Greater),
        },
        (None, Some(_)) => dir == SortDir::Asc,
        (Some(_), None) => dir == SortDir::Desc,
        (None, None) => false,
    }
}

/// Two rows have equal values of a column, or both have none.
pub open spec fn ties(a: RowView, b: RowView, column: Seq<char>) -> bool {
    match (value_in(a, column), value_in(b, column)) {
        (Some(x), Some(y)) => order_of(x, y) == Some(Ordering::Equal),
        (None, None) => true,
        _ => false,
    }
}

/// The values of a column are of one type or null.
pub open spec fn one_kind(rows: Seq<RowView>, column: Seq<char>, t: value::Type) -> bool {
    forall|i: int|
        0 <= i < rows.len() ==> kind_ok(#[trigger] rows[i], column, t)
}

/// The value of a column is of the type or null, or there is none.
pub open spec fn kind_ok(r: RowView, column: Seq<char>, t: value::Type) -> bool {
    value_in(r, column) matches Some(x) ==> value_laws::of_kind(x, t)
}

proof fn three_ways(a: RowView, b: RowView, column: Seq<char>, dir: SortDir, t: value::Type)
    requires
        kind_ok(a, column, t),
        kind_ok(b, column, t),
    ensures
        query::behind(b, a, column, dir) == comes_before(a, b, column, dir),
        query::behind(a, b, column, dir) == comes_before(b, a, column, dir),
        !comes_before(a, b, column, dir) && !comes_before(b, a, column, dir) ==> ties(a, b, column),
        comes_before(a, b, column, dir) ==> !comes_before(b, a, column, dir),
{
    if let (Some(x), Some(y)) = (value_in(a, column), value_in(b, column)) {
        value::order_flips(x, y);
        value_laws::operators_follow_order(x, y);
        value_laws::operators_follow_order(y, x);
        value_laws::kinds_compare(x, y);
    }
}

/// Of rows with values of one type, one that is behind another is behind all that come
/// before that one.
proof fn behind_moves(
    a: RowView,
    b: RowView,
    c: RowView,
    column: Seq<char>,
    dir: SortDir,
    t: value::Type,
)
    requires
        kind_ok(a, column, t),
        kind_ok(b, column, t),
        kind_ok(c, column, t),
        !query::behind(a, b, column, dir),
        !query::behind(b, c, column, dir),
    ensures
        !query::behind(a, c, column, dir),
{
    three_ways(a, b, column, dir, t);
    three_ways(b, c, column, dir, t);
    three_ways(a, c, column, dir, t);
    match (value_in(a, column), value_in(b, column), value_in(c, column)) {
        (Some(x), Some(y), Some(z)) => {
            value::order_flips(x, y);
            value::order_flips(y, z);
            value::order_flips(x, z);
            if dir == SortDir::Asc {
                value_laws::order_is_transitive(x, y, z, t);
            } else {
                value_laws::order_is_transitive(z, y, x, t);
            }
        },
        _ => {},
    }
}

/// What holds of all pairs of rows in the order that they are given in.
pub open spec fn pairwise(rows: Seq<RowView>, p: spec_fn(RowView, RowView) -> bool) -> bool {
    forall|i: int, j: int| 0 <= i < j < rows.len() ==> #[trigger] p(rows[i], rows[j])
}

/// The first row comes before the second, or they tie and the given relation holds.
pub open spec fn sorted_pair(
    p: spec_fn(RowView, RowView) -> bool,
    column: Seq<char>,
    dir: SortDir,
) -> spec_fn(RowView, RowView) -> bool {
    |a: RowView, b: RowView|
        comes_before(a, b, column, dir) || (ties(a, b, column) && p(a, b))
}

proof fn sorted_members(rows: Seq<RowView>, column: Seq<char>, dir: SortDir)
    ensures
        query::sorted_by(rows, column, dir).len() == rows.len(),
        forall|x: RowView| #[trigger]
            query::sorted_by(rows, column, dir).contains(x) <==> rows.contains(x),
{
    let s = query::sorted_by(rows, column, dir);
    query::sorting_orders(rows, column, dir);
    rows.to_multiset_ensures();
    s.to_multiset_ensures();
    assert forall|x: RowView| #[trigger] s.contains(x) <==> rows.contains(x) by {
        assert(s.contains(x) <==> s.to_multiset().count(x) > 0);
        assert(rows.contains(x) <==> rows.to_multiset().count(x) > 0);
    }
}

proof fn kinds_kept(rows: Seq<RowView>, s: Seq<RowView>, column: Seq<char>, t: value::Type)
    requires
        one_kind(rows, column, t),
        forall|x: RowView| #[trigger] s.contains(x) ==> rows.contains(x),
    ensures
        one_kind(s, column, t),
{
    assert forall|i: int| 0 <= i < s.len() implies kind_ok(#[trigger] s[i], column, t) by {
        assert(s.contains(s[i]));
        let j = choose|j: int| 0 <= j < rows.len() && rows[j] == s[i];
        assert(kind_ok(rows[j], column, t));
    }
}

/// All rows before the slot of a row are not behind it.
proof fn early_not_behind(
    s: Seq<RowView>,
    r: RowView,
    column: Seq<char>,
    dir: SortDir,
    t: value::Type,
    p: spec_fn(RowView, RowView) -> bool,
    i: int,
)
    requires
        one_kind(s, column, t),
        kind_ok(r, column, t),
        pairwise(s, sorted_pair(p, column, dir)),
        0 <= i < query::slot_for(s, r, column, dir),
    ensures
        i < s.len(),
        !query::behind(s[i], r, column, dir),
{
    let at = query::slot_for(s, r, column, dir);
    query::slot_within(s, r, column, dir);
    let l = s[at - 1];
    if i < at - 1 {
        assert(sorted_pair(p, column, dir)(s[i], s[at - 1]));
        assert(kind_ok(s[i], column, t) && kind_ok(s[at - 1], column, t));
        three_ways(s[i], l, column, dir, t);
        if ties(s[i], l, column) {
            tie_not_behind(s[i], l, column, dir);
        }
        behind_moves(s[i], l, r, column, dir, t);
    }
}

/// Sorted rows take another one that came behind all of them.
proof fn slot_keeps_order(
    s: Seq<RowView>,
    r: RowView,
    column: Seq<char>,
    dir: SortDir,
    t: value::Type,
    p: spec_fn(RowView, RowView) -> bool,
)
    requires
        one_kind(s, column, t),
        kind_ok(r, column, t),
        pairwise(s, sorted_pair(p, column, dir)),
        forall|i: int| 0 <= i < s.len() ==> #[trigger] p(s[i], r),
    ensures
        pairwise(
            s.insert(query::slot_for(s, r, column, dir), r),
            sorted_pair(p, column, dir),
        ),
{
    let at = query::slot_for(s, r, column, dir);
    let q = sorted_pair(p, column, dir);
    let all = s.insert(at, r);
    query::slot_within(s, r, column, dir);
    assert forall|i: int, j: int| 0 <= i < j < all.len() implies #[trigger] q(all[i], all[j]) by {
        if j == at {
            early_not_behind(s, r, column, dir, t, p, i);
            assert(all[i] == s[i] && all[j] == r);
            assert(kind_ok(s[i], column, t));
            three_ways(s[i], r, column, dir, t);
            assert(p(s[i], r));
        } else if i == at {
            assert(all[i] == r && all[j] == s[j - 1]);
            assert(kind_ok(s[j - 1], column, t));
            three_ways(r, s[j - 1], column, dir, t);
        } else {
            let i2 = if i < at {
                i
            } else {
                i - 1
            };
            let j2 = if j < at {
                j
            } else {
                j - 1
            };
            assert(all[i] == s[i2] && all[j] == s[j2]);
            assert(q(s[i2], s[j2]));
        }
    }
}

/// Sorting by a column puts every row before all that come behind it in that column, and
/// leaves rows that tie in the order that they had.
pub proof fn sorted_by_column(
    rows: Seq<RowView>,
    column: Seq<char>,
    dir: SortDir,
    t: value::Type,
    p: spec_fn(RowView, RowView) -> bool,
)
    requires
        one_kind(rows, column, t),
        pairwise(rows, p),
    ensures
        pairwise(query::sorted_by(rows, column, dir), sorted_pair(p, column, dir)),
        query::sorted_by(rows, column, dir).len() == rows.len(),
        forall|x: RowView| #[trigger]
            query::sorted_by(rows, column, dir).contains(x) <==> rows.contains(x),
    decreases rows.len(),
{
    sorted_members(rows, column, dir);
    if rows.len() > 0 {
        let rest = rows.drop_last();
        let r = rows.last();
        let s = query::sorted_by(rest, column, dir);
        assert forall|i: int| 0 <= i < rest.len() implies kind_ok(#[trigger] rest[i], column, t) by {
            assert(rest[i] == rows[i]);
        }
        assert forall|i: int, j: int| 0 <= i < j < rest.len() implies #[trigger] p(rest[i], rest[j]) by {
            assert(p(rows[i], rows[j]));
        }
        sorted_by_column(rest, column, dir, t, p);
        kinds_kept(rest, s, column, t);
        assert(rows[rows.len() - 1] == r);
        assert(kind_ok(r, column, t));
        assert forall|i: int| 0 <= i < s.len() implies #[trigger] p(s[i], r) by {
            assert(s.contains(s[i]));
            let k = choose|k: int| 0 <= k < rest.len() && rest[k] == s[i];
            assert(rows[k] == s[i]);
            assert(p(rows[k], rows[rows.len() - 1]));
        }
        slot_keeps_order(s, r, column, dir, t, p);
    }
}

proof fn tie_not_behind(a: RowView, b: RowView, column: Seq<char>, dir: SortDir)
    requires
        ties(a, b, column),
    ensures
        !query::behind(a, b, column, dir),
{
    if let (Some(x), Some(y)) = (value_in(a, column), value_in(b, column)) {
        value_laws::operators_follow_order(x, y);
    }
}

/// After sorting by one column upwards no row has a greater value than a later one, and
/// after sorting downwards none has a smaller one.
pub proof fn sorted_values_ascend(
    rows: Seq<RowView>,
    column: Seq<char>,
    t: value::Type,
    i: int,
    j: int,
    x: ValueView,
    y: ValueView,
)
    requires
        one_kind(rows, column, t),
        0 <= i < j < rows.len(),
    ensures
        ({
            let up = query::sorted_by(rows, column, SortDir::Asc);
            value_in(up[i], column) == Some(x) && value_in(up[j], column) == Some(y) ==> order_of(
                x,
                y,
            ) == Some(Ordering::Less) || order_of(x, y) == Some(Ordering::Equal)
        }),
        ({
            let down = query::sorted_by(rows, column, SortDir::Desc);
            value_in(down[i], column) == Some(x) && value_in(down[j], column) == Some(y)
                ==> order_of(x, y) == Some(Ordering::Greater) || order_of(x, y) == Some(
                Ordering::Equal,
            )
        }),
{
    let p = |a: RowView, b: RowView| true;
    sorted_by_column(rows, column, SortDir::Asc, t, p);
    sorted_by_column(rows, column, SortDir::Desc, t, p);
    let up = query::sorted_by(rows, column, SortDir::Asc);
    let down = query::sorted_by(rows, column, SortDir::Desc);
    assert(sorted_pair(p, column, SortDir::Asc)(up[i], up[j]));
    assert(sorted_pair(p, column, SortDir::Desc)(down[i], down[j]));
}

/// The rows differ first in the sort at `k`, in which the first one comes before the
/// second; or they tie in all sorts, and the first one has the smaller number.
pub open spec fn differ_at(a: RowView, b: RowView, sorts: Seq<Sort>, k: int) -> bool {
    &&& 0 <= k <= sorts.len()
    &&& forall|m: int| 0 <= m < k ==> ties(a, b, (#[trigger] sorts[m]).column@)
    &&& k < sorts.len() ==> comes_before(a, b, sorts[k].column@, sorts[k].dir)
    &&& k == sorts.len() ==> a.id < b.id
}

/// The first row belongs before the second. See [`differ_at`].
pub open spec fn belongs_before(a: RowView, b: RowView, sorts: Seq<Sort>) -> bool {
    exists|k: int| differ_at(a, b, sorts, k)
}

/// The columns of sorts hold values of one type each.
pub open spec fn kinds_of(rows: Seq<RowView>, sorts: Seq<Sort>, ts: Seq<value::Type>) -> bool {
    &&& ts.len() == sorts.len()
    &&& forall|m: int|
        0 <= m < sorts.len() ==> one_kind(rows, (#[trigger] sorts[m]).column@, ts[m])
}

/// The relation that sorting by the sorts from `k` on makes of a relation.
spec fn chain(
    p: spec_fn(RowView, RowView) -> bool,
    sorts: Seq<Sort>,
    k: int,
) -> spec_fn(RowView, RowView) -> bool
    decreases sorts.len() - k,
{
    if 0 <= k < sorts.len() {
        sorted_pair(chain(p, sorts, k + 1), sorts[k].column@, sorts[k].dir)
    } else {
        p
    }
}

proof fn chain_differs(a: RowView, b: RowView, sorts: Seq<Sort>, k: int)
    requires
        0 <= k <= sorts.len(),
        chain(|x: RowView, y: RowView| x.id < y.id, sorts, k)(a, b),
        forall|m: int| 0 <= m < k ==> ties(a, b, (#[trigger] sorts[m]).column@),
    ensures
        belongs_before(a, b, sorts),
    decreases sorts.len() - k,
{
    let p = |x: RowView, y: RowView| x.id < y.id;
    if k == sorts.len() {
        assert(differ_at(a, b, sorts, k));
    } else if comes_before(a, b, sorts[k].column@, sorts[k].dir) {
        assert(differ_at(a, b, sorts, k));
    } else {
        chain_differs(a, b, sorts, k + 1);
    }
}

proof fn chain_sorted(
    rows: Seq<RowView>,
    sorts: Seq<Sort>,
    ts: Seq<value::Type>,
    p: spec_fn(RowView, RowView) -> bool,
    k: int,
    all: Seq<Sort>,
)
    requires
        0 <= k <= all.len(),
        sorts == all.take(k),
        kinds_of(rows, all, ts),
        pairwise(rows, chain(p, all, k)),
    ensures
        pairwise(query::sorted_by_all(rows, sorts), chain(p, all, 0)),
        query::sorted_by_all(rows, sorts).len() == rows.len(),
        forall|x: RowView| #[trigger]
            query::sorted_by_all(rows, sorts).contains(x) <==> rows.contains(x),
    decreases k,
{
    if k > 0 {
        let s = all[k - 1];
        let next = query::sorted_by(rows, s.column@, s.dir);
        assert(sorts.last() == s);
        assert(sorts.drop_last() =~= all.take(k - 1));
        assert(one_kind(rows, all[k - 1].column@, ts[k - 1]));
        sorted_by_column(rows, s.column@, s.dir, ts[k - 1], chain(p, all, k));
        assert forall|m: int| 0 <= m < all.len() implies one_kind(
            next,
            (#[trigger] all[m]).column@,
            ts[m],
        ) by {
            kinds_kept(rows, next, all[m].column@, ts[m]);
        }
        chain_sorted(next, sorts.drop_last(), ts, p, k - 1, all);
    }
}

/// Sorting by several columns keeps the rows and puts every one before all that it
/// belongs before: the first column in which two rows differ decides, and rows that
/// differ in none stay in the order of their numbers.
pub proof fn sorted_by_columns(rows: Seq<RowView>, sorts: Seq<Sort>, ts: Seq<value::Type>)
    requires
        kinds_of(rows, sorts, ts),
        forall|i: int, j: int|
            0 <= i < j < rows.len() ==> (#[trigger] rows[i]).id < (#[trigger] rows[j]).id,
    ensures
        ({
            let out = query::sorted_by_all(rows, sorts);
            &&& out.len() == rows.len()
            &&& forall|x: RowView| #[trigger] out.contains(x) <==> rows.contains(x)
            &&& forall|i: int, j: int|
                0 <= i < j < out.len() ==> #[trigger] belongs_before(out[i], out[j], sorts)
        }),
{
    let p = |x: RowView, y: RowView| x.id < y.id;
    let out = query::sorted_by_all(rows, sorts);
    assert(sorts.take(sorts.len() as int) =~= sorts);
    chain_sorted(rows, sorts, ts, p, sorts.len() as int, sorts);
    assert forall|i: int, j: int| 0 <= i < j < out.len() implies #[trigger] belongs_before(
        out[i],
        out[j],
        sorts,
    ) by {
        assert(chain(p, sorts, 0)(out[i], out[j]));
        chain_differs(out[i], out[j], sorts, 0);
    }
}

/// Of rows in the order that several columns ask for, values in the first of them that
/// are not equal stand as its direction says.
pub proof fn first_sort_decides(a: RowView, b: RowView, sorts: Seq<Sort>, x: ValueView, y: ValueView)
    requires
        belongs_before(a, b, sorts),
        sorts.len() > 0,
        value_in(a, sorts[0].column@) == Some(x),
        value_in(b, sorts[0].column@) == Some(y),
    ensures
        sorts[0].dir == SortDir::Asc ==> order_of(x, y) == Some(Ordering::Less) || order_of(x, y)
            == Some(Ordering::Equal),
        sorts[0].dir == SortDir::Desc ==> order_of(x, y) == Some(Ordering::Greater) || order_of(x, y)
            == Some(Ordering::Equal),
{
    let k = choose|k: int| differ_at(a, b, sorts, k);
    if k > 0 {
        assert(ties(a, b, sorts[0].column@));
    }
}

/// Integers that were sorted upwards do not descend, and those sorted downwards do not
/// ascend.
pub proof fn sorted_integers(a: RowView, b: RowView, sorts: Seq<Sort>, x: i64, y: i64)
    requires
        belongs_before(a, b, sorts),
        sorts.len() > 0,
        value_in(a, sorts[0].column@) == Some(ValueView::Integer(x)),
        value_in(b, sorts[0].column@) == Some(ValueView::Integer(y)),
    ensures
        sorts[0].dir == SortDir::Asc ==> x <= y,
        sorts[0].dir == SortDir::Desc ==> x >= y,
{
    first_sort_decides(a, b, sorts, ValueView::Integer(x), ValueView::Integer(y));
    value_laws::integers_by_size(x, y);
}

}
