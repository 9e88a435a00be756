//! Rows as queries return them: filters, sorting, pagination.

use crate::btree;
use crate::bytes::copy_slice;
use crate::btree_node;
use crate::error::Result;
use crate::filter;
use crate::filter::{eval_filter_op, Filter, FilterOp, FilterView, Sort, SortDir};
use crate::row;
use crate::table;
use crate::table::{copy_texts, TableMeta};
use crate::value::{same_text, ColumnView, Value, ValueView};
use vstd::prelude::*;

verus! {

/// A row returned from queries. Wraps raw bytes; decodes columns on demand.
#[derive(Debug)]
pub struct Row {
    pub id: u64,
    pub data: Vec<u8>,
    pub col_names: Vec<String>,
}

/// A row as a mathematical value.
pub struct RowView {
    pub id: u64,
    pub data: Seq<u8>,
    pub names: Seq<Seq<char>>,
}

impl View for Row {
    type V = RowView;

    open spec fn view(&self) -> RowView {
        RowView { id: self.id, data: self.data@, names: table::texts(self.col_names@) }
    }
}

/// The row that a table with these column names has in these bytes.
pub open spec fn row_of(bytes: Seq<u8>, names: Seq<Seq<char>>) -> RowView {
    RowView { id: btree_node::id_of(bytes), data: bytes, names }
}

/// The value of a column; none if the row has no such column.
pub open spec fn value_in(r: RowView, column: Seq<char>) -> Option<ValueView> {
    match table::place(r.names, column) {
        None => None,
        Some(i) => match row::column_of(r.data, row::low16(i)) {
            Some(Some(v)) => Some(v),
            _ => None,
        },
    }
}

/// The columns of a row that have a name, with their names.
pub open spec fn named_columns(
    cols: Seq<(u16, ValueView)>,
    names: Seq<Seq<char>>,
) -> Seq<(Seq<char>, ValueView)>
    decreases cols.len(),
{
    if cols.len() == 0 {
        Seq::empty()
    } else {
        let rest = named_columns(cols.drop_last(), names);
        if cols.last().0 < names.len() {
            rest.push((names[cols.last().0 as int], cols.last().1))
        } else {
            rest
        }
    }
}

/// Named values.
pub open spec fn named_view(v: Seq<(String, Value)>) -> Seq<(Seq<char>, ValueView)> {
    v.map_values(|p: (String, Value)| (p.0@, p.1@))
}

/// The columns of a row that have a name; none if the row cannot be decoded.
pub open spec fn columns_in(r: RowView) -> Seq<(Seq<char>, ValueView)> {
    if row::decodable(r.data) {
        named_columns(row::decoded_cols(r.data), r.names)
    } else {
        Seq::empty()
    }
}

fn name_place(names: &Vec<String>, name: &str) -> (r: Option<usize>)
    ensures
        match r {
            Some(i) => table::place(table::texts(names@), name@) == Some(i as int) && i
                < names@.len(),
            None => table::place(table::texts(names@), name@) is None,
        },
{
    let ghost all = table::texts(names@);
    let n: usize = names.len();
    let mut i: usize = 0;
    while i < n
        invariant
            i <= n,
            n == names@.len(),
            all == table::texts(names@),
            forall|j: int| 0 <= j < i ==> #[trigger] all[j] != name@,
        decreases n - i,
    {
        assert(all[i as int] == names@[i as int]@);
        if same_text(names[i].as_str(), name) {
            proof {
                table::place_first(all, name@);
                assert(all.contains(name@));
            }
            return Some(i);
        }
        i += 1;
    }
    proof {
        table::place_first(all, name@);
    }
    None
}

impl Row {
    /// The row in these bytes.
    pub fn from_raw(bytes: &[u8], col_names: &Vec<String>) -> (r: Result<Row>)
        ensures
            r is Ok <==> bytes@.len() >= 8,
            r matches Ok(x) ==> x@ == row_of(bytes@, table::texts(col_names@)),
            r matches Err(e) ==> e is Corruption,
    {
        let id: u64 = row::extract_id(bytes)?;
        Ok(Row { id, data: copy_slice(bytes), col_names: copy_texts(col_names) })
    }

    /// Get a single column value by name. Decodes only that column.
    pub fn get(&self, column: &str) -> (r: Option<Value>)
        ensures
            match value_in(self@, column@) {
                Some(v) => r matches Some(x) && x@ == v,
                None => r is None,
            },
    {
        match name_place(&self.col_names, column) {
            None => None,
            Some(i) => match row::extract_column(self.data.as_slice(), (i % 0x1_0000) as u16) {
                Ok(Some(v)) => Some(v),
                _ => None,
            },
        }
    }

    /// Decode all columns.
    pub fn columns(&self) -> (r: Vec<(String, Value)>)
        ensures
            named_view(r@) == columns_in(self@),
    {
        let mut out: Vec<(String, Value)> = Vec::new();
        assert(named_view(out@) =~= Seq::<(Seq<char>, ValueView)>::empty());
        match row::decode_row(self.data.as_slice()) {
            Err(_) => {},
            Ok(decoded) => {
                let ghost cols = row::decoded_cols(self@.data);
                let ghost names = self@.names;
                let n: usize = decoded.columns.len();
                let mut i: usize = 0;
                while i < n
                    invariant
                        i <= n,
                        n == decoded.columns@.len(),
                        names == self@.names,
                        names == table::texts(self.col_names@),
                        cols == row::owned_cols_view(decoded.columns@),
                        named_view(out@) == named_columns(cols.take(i as int), names),
                    decreases n - i,
                {
                    let ghost before = out@;
                    assert(cols.take(i + 1).drop_last() =~= cols.take(i as int));
                    let id: usize = decoded.columns[i].0 as usize;
                    assert(cols[i as int] == (
                        decoded.columns@[i as int].0,
                        decoded.columns@[i as int].1@,
                    ));
                    if id < self.col_names.len() {
                        out.push((self.col_names[id].clone(), decoded.columns[i].1.clone()));
                        assert(named_view(out@) =~= named_view(before).push(
                            (names[id as int], cols[i as int].1),
                        ));
                    }
                    i += 1;
                }
                assert(cols.take(n as int) =~= cols);
            },
        }
        out
    }
}

/// Rows of a list.
pub open spec fn rows_view(v: Seq<Row>) -> Seq<RowView> {
    v.map_values(|r: Row| r@)
}

/// Result of a find query.
#[derive(Debug)]
pub struct FindResult {
    pub rows: Vec<Row>,
    /// Total count, only populated if `include_total` was true.
    pub total: Option<u64>,
}

/// What a filter sees of a row: null where the column is missing, unknown or
/// unreadable.
pub open spec fn actual(columns: Seq<ColumnView>, column: Seq<char>, bytes: Seq<u8>) -> ValueView {
    match table::column_id(columns, column) {
        None => ValueView::Null,
        Some(c) => match row::column_of(bytes, c) {
            Some(Some(v)) => v,
            _ => ValueView::Null,
        },
    }
}

/// One filter accepts a row.
pub open spec fn accepts(columns: Seq<ColumnView>, f: FilterView, bytes: Seq<u8>) -> bool {
    filter::holds(actual(columns, f.column, bytes), f.op, f.value)
}

/// All filters accept a row.
pub open spec fn passes(columns: Seq<ColumnView>, fs: Seq<FilterView>, bytes: Seq<u8>) -> bool {
    forall|i: int| 0 <= i < fs.len() ==> accepts(columns, #[trigger] fs[i], bytes)
}

/// The filters of a list.
pub open spec fn filters_view(v: Seq<Filter>) -> Seq<FilterView> {
    v.map_values(|f: Filter| f@)
}

/// Whether all filters accept a row.
pub fn row_passes(meta: &TableMeta, filters: &[Filter], bytes: &[u8]) -> (r: bool)
    ensures
        r == passes(meta@.columns, filters_view(filters@), bytes@),
{
    let ghost fs = filters_view(filters@);
    let n: usize = filters.len();
    let mut i: usize = 0;
    while i < n
        invariant
            i <= n,
            n == filters@.len(),
            fs == filters_view(filters@),
            forall|j: int| 0 <= j < i ==> accepts(meta@.columns, #[trigger] fs[j], bytes@),
        decreases n - i,
    {
        let f = &filters[i];
        let value: Value = match meta.col_id(f.column.as_str()) {
            None => Value::Null,
            Some(c) => match row::extract_column(bytes, c) {
                Ok(Some(v)) => v,
                _ => Value::Null,
            },
        };
        assert(fs[i as int] == f@);
        if !f.matches(&value) {
            assert(!accepts(meta@.columns, fs[i as int], bytes@));
            return false;
        }
        i += 1;
    }
    true
}

/// Row `a` belongs behind row `b`. A row without the column comes before one
/// with it; values that cannot be compared are as good as equal.
pub open spec fn behind(a: RowView, b: RowView, column: Seq<char>, dir: SortDir) -> bool {
    match (value_in(a, column), value_in(b, column)) {
        (Some(x), Some(y)) => if dir == SortDir::Asc {
            filter::holds(x, FilterOp::Gt, y)
        } else {
            filter::holds(x, FilterOp::Lt, y)
        },
        (Some(_), None) => dir == SortDir::Asc,
        (None, Some(_)) => dir == SortDir::Desc,
        (None, None) => false,
    }
}

/// Where a row goes in sorted rows: before those at the end that belong behind
/// it.
pub open spec fn slot_for(sorted: Seq<RowView>, r: RowView, column: Seq<char>, dir: SortDir) -> int
    decreases sorted.len(),
{
    if sorted.len() == 0 {
        0
    } else if behind(sorted.last(), r, column, dir) {
        slot_for(sorted.drop_last(), r, column, dir)
    } else {
        sorted.len() as int
    }
}

/// Rows in the order of one column; equal ones keep their order.
pub open spec fn sorted_by(rows: Seq<RowView>, column: Seq<char>, dir: SortDir) -> Seq<RowView>
    decreases rows.len(),
{
    if rows.len() == 0 {
        rows
    } else {
        let s = sorted_by(rows.drop_last(), column, dir);
        s.insert(slot_for(s, rows.last(), column, dir), rows.last())
    }
}

/// Rows in the order of several columns, the first one deciding first.
pub open spec fn sorted_by_all(rows: Seq<RowView>, sorts: Seq<Sort>) -> Seq<RowView>
    decreases sorts.len(),
{
    if sorts.len() == 0 {
        rows
    } else {
        sorted_by_all(sorted_by(rows, sorts.last().column@, sorts.last().dir), sorts.drop_last())
    }
}

pub proof fn slot_within(sorted: Seq<RowView>, r: RowView, column: Seq<char>, dir: SortDir)
    ensures
        ({
            let p = slot_for(sorted, r, column, dir);
            &&& 0 <= p <= sorted.len()
            &&& forall|i: int| p <= i < sorted.len() ==> behind(#[trigger] sorted[i], r, column, dir)
            &&& p > 0 ==> !behind(sorted[p - 1], r, column, dir)
        }),
    decreases sorted.len(),
{
    if sorted.len() > 0 && behind(sorted.last(), r, column, dir) {
        let rest = sorted.drop_last();
        slot_within(rest, r, column, dir);
        let p = slot_for(rest, r, column, dir);
        assert forall|i: int| p <= i < sorted.len() implies behind(
            #[trigger] sorted[i],
            r,
            column,
            dir,
        ) by {
            if i < rest.len() {
                assert(rest[i] == sorted[i]);
            }
        }
    }
}

/// No row stands directly before one that it belongs behind.
pub open spec fn in_order(rows: Seq<RowView>, column: Seq<char>, dir: SortDir) -> bool {
    forall|i: int, j: int|
        0 <= i && j == i + 1 && j < rows.len() ==> !behind(
            #[trigger] rows[i],
            #[trigger] rows[j],
            column,
            dir,
        )
}

/// Sorting keeps the rows, and leaves none directly before one that it belongs
/// behind.
pub proof fn sorting_orders(rows: Seq<RowView>, column: Seq<char>, dir: SortDir)
    ensures
        sorted_by(rows, column, dir).to_multiset() == rows.to_multiset(),
        sorted_by(rows, column, dir).len() == rows.len(),
        in_order(sorted_by(rows, column, dir), column, dir),
    decreases rows.len(),
{
    if rows.len() > 0 {
        let rest = rows.drop_last();
        let r = rows.last();
        let s = sorted_by(rest, column, dir);
        let p = slot_for(s, r, column, dir);
        sorting_orders(rest, column, dir);
        slot_within(s, r, column, dir);
        let t = s.insert(p, r);
        vstd::seq_lib::to_multiset_insert(s, p, r);
        assert(rest.push(r) =~= rows);
        rest.to_multiset_ensures();
        assert(rows.to_multiset() == rest.to_multiset().insert(r));
        assert forall|i: int, j: int| 0 <= i && j == i + 1 && j < t.len() implies !behind(
            #[trigger] t[i],
            #[trigger] t[j],
            column,
            dir,
        ) by {
            if j < p {
                assert(t[i] == s[i] && t[j] == s[j]);
            } else if j == p {
                assert(t[i] == s[p - 1] && t[j] == r);
            } else if i == p {
                assert(t[i] == r && t[j] == s[p]);
                behind_asymmetric(s[p], r, column, dir);
            } else {
                assert(t[i] == s[i - 1] && t[j] == s[j - 1]);
            }
        }
    }
}

proof fn behind_asymmetric(a: RowView, b: RowView, column: Seq<char>, dir: SortDir)
    requires
        behind(a, b, column, dir),
    ensures
        !behind(b, a, column, dir),
{
    match (value_in(a, column), value_in(b, column)) {
        (Some(x), Some(y)) => {
            filter::ops_flip(x, y);
            filter::ops_flip(y, x);
            filter::ops_agree(x, y);
        },
        _ => {},
    }
}

/// Whether row `a` belongs behind row `b`.
fn row_behind(a: &Row, b: &Row, sort: &Sort) -> (r: bool)
    ensures
        r == behind(a@, b@, sort.column@, sort.dir),
{
    let va = a.get(sort.column.as_str());
    let vb = b.get(sort.column.as_str());
    match (&va, &vb) {
        (Some(x), Some(y)) => if sort.dir == SortDir::Asc {
            eval_filter_op(x, &FilterOp::Gt, y)
        } else {
            eval_filter_op(x, &FilterOp::Lt, y)
        },
        (Some(_), None) => sort.dir == SortDir::Asc,
        (None, Some(_)) => sort.dir == SortDir::Desc,
        (None, None) => false,
    }
}

fn sort_once(rows: Vec<Row>, sort: &Sort) -> (out: Vec<Row>)
    ensures
        rows_view(out@) == sorted_by(rows_view(rows@), sort.column@, sort.dir),
{
    let ghost all = rows_view(rows@);
    let ghost column = sort.column@;
    let mut rows = rows;
    let mut rev: Vec<Row> = Vec::new();
    let n: usize = rows.len();
    let ghost given = rows@;
    let mut i: usize = 0;
    while i < n
        invariant
            i <= n,
            n == given.len(),
            rows@ == given.take(n - i),
            rev@.len() == i,
            forall|j: int| 0 <= j < i ==> #[trigger] rev@[j] == given[n - 1 - j],
        decreases n - i,
    {
        match rows.pop() {
            Some(r) => {
                rev.push(r);
            },
            None => {},
        }
        i += 1;
    }
    let mut out: Vec<Row> = Vec::new();
    let mut k: usize = 0;
    assert(all.take(0) =~= Seq::<RowView>::empty());
    assert(rows_view(out@) =~= Seq::<RowView>::empty());
    while k < n
        invariant
            k <= n,
            n == given.len(),
            all == rows_view(given),
            column == sort.column@,
            rev@.len() == n - k,
            out@.len() == k,
            forall|j: int| 0 <= j < rev@.len() ==> #[trigger] rev@[j] == given[n - 1 - j],
            rows_view(out@) == sorted_by(all.take(k as int), column, sort.dir),
        decreases n - k,
    {
        match rev.pop() {
            Some(r) => {
                assert(r == given[k as int]);
                let mut at: usize = out.len();
                let ghost s = rows_view(out@);
                assert(s.take(at as int) =~= s);
                while at > 0 && row_behind(&out[at - 1], &r, sort)
                    invariant
                        at <= out@.len(),
                        s == rows_view(out@),
                        column == sort.column@,
                        slot_for(s, r@, column, sort.dir) == slot_for(
                            s.take(at as int),
                            r@,
                            column,
                            sort.dir,
                        ),
                    ensures
                        at <= out@.len(),
                        slot_for(s, r@, column, sort.dir) == at,
                    decreases at,
                {
                    assert(s.take(at as int).drop_last() =~= s.take(at - 1));
                    assert(s.take(at as int).last() == out@[at - 1]@);
                    at -= 1;
                }
                out.insert(at, r);
                proof {
                    assert(all.take(k + 1).drop_last() =~= all.take(k as int));
                    assert(all.take(k + 1).last() == r@);
                    slot_within(s, r@, column, sort.dir);
                    assert(rows_view(out@) =~= s.insert(at as int, r@));
                }
            },
            None => {},
        }
        k += 1;
    }
    assert(all.take(n as int) =~= all);
    out
}

/// Sorts rows by several columns, the first one deciding first.
pub fn sort_rows(rows: Vec<Row>, sorts: &[Sort]) -> (out: Vec<Row>)
    ensures
        rows_view(out@) == sorted_by_all(rows_view(rows@), sorts@),
{
    let ghost all = rows_view(rows@);
    let mut out = rows;
    let mut i: usize = sorts.len();
    assert(sorts@.take(i as int) =~= sorts@);
    while i > 0
        invariant
            i <= sorts@.len(),
            sorted_by_all(all, sorts@) == sorted_by_all(rows_view(out@), sorts@.take(i as int)),
        decreases i,
    {
        assert(sorts@.take(i as int).drop_last() =~= sorts@.take(i - 1));
        assert(sorts@.take(i as int).last() == sorts@[i - 1]);
        out = sort_once(out, &sorts[i - 1]);
        i -= 1;
    }
    out
}

/// How many rows a query skips.
pub open spec fn skip_of(offset: Option<u32>) -> int {
    match offset {
        Some(n) => n as int,
        None => 0,
    }
}

/// How many rows a query takes.
pub open spec fn take_of(limit: Option<u32>) -> int {
    match limit {
        Some(n) => n as int,
        None => u32::MAX as int,
    }
}

/// The part of the rows that a query asks for.
pub open spec fn page_rows<A>(rows: Seq<A>, offset: Option<u32>, limit: Option<u32>) -> Seq<A> {
    btree::window(rows, skip_of(offset), take_of(limit))
}

/// Cuts out the part of the rows that a query asks for.
pub fn paginate(rows: Vec<Row>, offset: Option<u32>, limit: Option<u32>) -> (out: Vec<Row>)
    ensures
        rows_view(out@) == page_rows(rows_view(rows@), offset, limit),
{
    let ghost all = rows_view(rows@);
    let skip: usize = match offset {
        Some(n) => n as usize,
        None => 0,
    };
    let take: usize = match limit {
        Some(n) => n as usize,
        None => u32::MAX as usize,
    };
    let mut rows = rows;
    if skip >= rows.len() {
        let out: Vec<Row> = Vec::new();
        assert(rows_view(out@) =~= page_rows(all, offset, limit));
        return out;
    }
    let mut out = rows.split_off(skip);
    if take < out.len() {
        out.truncate(take);
    }
    assert(rows_view(out@) =~= page_rows(all, offset, limit));
    out
}

}
