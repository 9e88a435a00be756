//! Finding rows: by an index where there is one, else by a scan.

use crate::btree;
use crate::btree::BTreeReader;
use crate::btree_node;
use crate::engine;
use crate::error::{corruption, Result};
use crate::file::PageFile;
use crate::filter::{Filter, FilterOp, FilterView, FindOptions};
use crate::index;
use crate::index::{encode_value_prefix, extract_rowid, has_zero};
use crate::index_node;
use crate::index_tree;
use crate::index_tree::IndexTreeReader;
use crate::query;
use crate::query::{paginate, row_passes, sort_rows, FindResult, Row, RowView};
use crate::store;
use crate::table;
use crate::table::{IndexView, TableMeta, TableView};
use crate::tree;
use crate::tree::Key;
use crate::value;
use crate::value::{Type, Value, ValueView};
use vstd::prelude::*;

verus! {

/// The rows of a table in the order of their numbers.
pub open spec fn row_list(m: Map<u32, Seq<u8>>, v: TableView) -> Seq<(u64, Seq<u8>)> {
    btree::expanded(m, btree::all_cells(m, v.root_page))
}

/// The index lists a key with that prefix for the row.
pub open spec fn index_hit(v: TableView, ix: IndexView, prefix: Seq<u8>, it: (u64, Seq<u8>)) -> bool {
    store::entry_of(v.columns, ix, it.1, it.0) matches Some(Some(key)) && prefix.is_prefix_of(key)
}

/// An index on a column of the type has one code for all values that equal the value:
/// it is of that type, no text with a zero byte, and neither zero nor no number.
pub open spec fn suits(t: Type, x: ValueView) -> bool {
    match (t, x) {
        (Type::Integer, ValueView::Integer(_)) => true,
        (Type::Text, ValueView::Text(s)) => index::no_zero(s),
        (Type::Real, ValueView::Real(r)) => !value::is_nan(r) && r != 0 && r
            != 0x8000_0000_0000_0000,
        _ => false,
    }
}

/// An index answers a filter: one for equality with a suitable value on a column that
/// the index starts with.
pub open spec fn answers(v: TableView, f: FilterView) -> bool {
    &&& f.op == FilterOp::Eq
    &&& table::index_for(v.indexes, f.column) is Some
    &&& table::column_type(v.columns, f.column) matches Some(t) && suits(t, f.value)
}

/// The first filter that an index answers.
pub open spec fn index_filter(v: TableView, fs: Seq<FilterView>) -> Option<int>
    decreases fs.len(),
{
    if fs.len() == 0 {
        None
    } else {
        match index_filter(v, fs.drop_last()) {
            Some(j) => Some(j),
            None => if answers(v, fs.last()) {
                Some(fs.len() - 1)
            } else {
                None
            },
        }
    }
}

/// The rows with a key under the prefix that all filters accept.
pub open spec fn found_by_index(v: TableView, ix: IndexView, prefix: Seq<u8>, fs: Seq<FilterView>) -> spec_fn(
    (u64, Seq<u8>),
) -> bool {
    |it: (u64, Seq<u8>)|
        index_hit(v, ix, prefix, it) && query::passes(v.columns, fs, it.1)
}

/// The rows that all filters accept.
pub open spec fn found_by_scan(v: TableView, fs: Seq<FilterView>) -> spec_fn(
    (u64, Seq<u8>),
) -> bool {
    |it: (u64, Seq<u8>)| query::passes(v.columns, fs, it.1)
}

/// The code that an index has for the value of a filter.
pub open spec fn filter_code(v: TableView, f: FilterView) -> Option<Seq<u8>> {
    match table::column_type(v.columns, f.column) {
        None => None,
        Some(t) => index::value_code(t, f.value),
    }
}

/// The rows that a query is about, in the order of their numbers. With a filter that
/// an index answers these are the rows that the index lists for its value and that all
/// filters accept. One filter alone finds nothing if its column is unknown.
pub open spec fn matching(m: Map<u32, Seq<u8>>, v: TableView, fs: Seq<FilterView>) -> Seq<
    (u64, Seq<u8>),
> {
    match index_filter(v, fs) {
        Some(j) => match filter_code(v, fs[j]) {
            None => Seq::empty(),
            Some(p) => row_list(m, v).filter(
                found_by_index(
                    v,
                    v.indexes[table::index_for(v.indexes, fs[j].column)->0],
                    p,
                    fs,
                ),
            ),
        },
        None => if fs.len() == 1 {
            match table::column_id(v.columns, fs[0].column) {
                None => Seq::empty(),
                Some(c) => btree::expanded(
                    m,
                    btree::all_cells(m, v.root_page).filter(
                        btree::hits(m, c, fs[0].op, fs[0].value),
                    ),
                ),
            }
        } else {
            row_list(m, v).filter(found_by_scan(v, fs))
        },
    }
}

/// The rows of the table can be counted in 32 bits, and the column of a single
/// filter can be read in all of them.
pub open spec fn searchable(m: Map<u32, Seq<u8>>, v: TableView, fs: Seq<FilterView>) -> bool {
    &&& btree::all_cells(m, v.root_page).len() <= u32::MAX
    &&& fs.len() == 1 ==> (table::column_id(v.columns, fs[0].column) matches Some(c)
        ==> btree::filterable(m, btree::all_cells(m, v.root_page), c))
}

/// Rows of a table with their columns named.
pub open spec fn named(rows: Seq<(u64, Seq<u8>)>, v: TableView) -> Seq<RowView> {
    rows.map_values(
        |it: (u64, Seq<u8>)| query::row_of(it.1, table::column_names(v.columns)),
    )
}

/// What a query returns of the rows that it is about.
pub open spec fn answer(rows: Seq<(u64, Seq<u8>)>, v: TableView, opts: FindOptions) -> Seq<RowView> {
    query::page_rows(
        query::sorted_by_all(named(rows, v), opts.sort@),
        opts.offset,
        opts.limit,
    )
}

/// How many rows a query says that there are.
pub open spec fn total_of(rows: Seq<(u64, Seq<u8>)>, opts: FindOptions) -> Option<int> {
    if opts.include_total {
        Some(rows.len() as int)
    } else {
        None
    }
}

/// A number that may be missing.
pub open spec fn as_total(t: Option<u64>) -> Option<int> {
    match t {
        Some(n) => Some(n as int),
        None => None,
    }
}

/// The result of a query about some rows.
pub open spec fn answered(rows: Seq<(u64, Seq<u8>)>, v: TableView, opts: FindOptions, f: FindResult) -> bool {
    &&& query::rows_view(f.rows@) == answer(rows, v, opts)
    &&& as_total(f.total) == total_of(rows, opts)
}

/// Whether a value is one that an index on a column of the type finds.
fn check_suits(t: Type, x: &Value) -> (r: bool)
    ensures
        r == suits(t, x@),
{
    match (t, x) {
        (Type::Integer, Value::Integer(_)) => true,
        (Type::Text, Value::Text(s)) => !has_zero(s.as_str()),
        (Type::Real, Value::Real(r)) => *r % 0x8000_0000_0000_0000 <= 0x7FF0_0000_0000_0000 && *r != 0 && *r
            != 0x8000_0000_0000_0000,
        _ => false,
    }
}

/// Whether an index answers a filter.
fn index_answers(meta: &TableMeta, f: &Filter) -> (r: bool)
    ensures
        r == answers(meta@, f@),
{
    if f.op != FilterOp::Eq || meta.find_index_for_column(f.column.as_str()).is_none() {
        return false;
    }
    match meta.col_type(f.column.as_str()) {
        Some(t) => check_suits(t, &f.value),
        None => false,
    }
}

/// The place of the filter that an index answers.
fn find_index_filter(meta: &TableMeta, filters: &Vec<Filter>) -> (r: Option<usize>)
    ensures
        match r {
            Some(j) => index_filter(meta@, query::filters_view(filters@)) == Some(j as int) && j
                < filters@.len() && answers(meta@, filters@[j as int]@),
            None => index_filter(meta@, query::filters_view(filters@)) is None,
        },
{
    let ghost fs = query::filters_view(filters@);
    let ghost v = meta@;
    let n: usize = filters.len();
    let mut j: usize = 0;
    while j < n
        invariant
            j <= n,
            n == filters@.len(),
            fs == query::filters_view(filters@),
            v == meta@,
            index_filter(v, fs.take(j as int)) is None,
        decreases n - j,
    {
        assert(fs.take(j + 1).drop_last() =~= fs.take(j as int));
        assert(fs.take(j + 1).last() == filters@[j as int]@);
        if index_answers(meta, &filters[j]) {
            proof {
                index_filter_prefix(v, fs, j + 1);
            }
            return Some(j);
        }
        j += 1;
    }
    assert(fs.take(n as int) =~= fs);
    None
}

/// A filter found among the first ones is the one found among all.
proof fn index_filter_prefix(v: TableView, fs: Seq<FilterView>, n: int)
    requires
        0 <= n <= fs.len(),
        index_filter(v, fs.take(n)) is Some,
    ensures
        index_filter(v, fs) == index_filter(v, fs.take(n)),
    decreases fs.len() - n,
{
    if n < fs.len() {
        assert(fs.take(n + 1).drop_last() =~= fs.take(n));
        index_filter_prefix(v, fs, n + 1);
    } else {
        assert(fs.take(n) =~= fs);
    }
}

/// Rows out of the pages, as queries return them.
fn rows_out(found: &Vec<(u64, Vec<u8>)>, meta: &TableMeta) -> (r: Result<Vec<Row>>)
    ensures
        (forall|i: int| 0 <= i < found@.len() ==> (#[trigger] found@[i]).1@.len() >= 8) ==> (
        r matches Ok(rows) && query::rows_view(rows@) == named(btree::pairs(found@), meta@)),
        r matches Err(e) ==> e is Corruption,
        r matches Ok(rows) ==> rows@.len() == found@.len(),
{
    let names = meta.col_names();
    let ghost list = btree::pairs(found@);
    let n: usize = found.len();
    let mut rows: Vec<Row> = Vec::new();
    let mut i: usize = 0;
    assert(query::rows_view(rows@) =~= named(list.take(0), meta@));
    while i < n
        invariant
            i <= n,
            n == found@.len(),
            rows@.len() == i,
            list == btree::pairs(found@),
            table::texts(names@) == table::column_names(meta@.columns),
            query::rows_view(rows@) == named(list.take(i as int), meta@),
        decreases n - i,
    {
        let ghost before = rows@;
        let row = Row::from_raw(found[i].1.as_slice(), &names)?;
        rows.push(row);
        proof {
            assert(list.take(i + 1) =~= list.take(i as int).push(list[i as int]));
            assert(query::rows_view(rows@) =~= query::rows_view(before).push(row@));
            assert(named(list.take(i + 1), meta@) =~= named(list.take(i as int), meta@).push(row@));
        }
        i += 1;
    }
    assert(list.take(n as int) =~= list);
    Ok(rows)
}

/// Keeps the rows that all filters accept.
pub(crate) fn keep_passing(
    found: Vec<(u64, Vec<u8>)>,
    meta: &TableMeta,
    filters: &[Filter],
) -> (out: Vec<(u64, Vec<u8>)>)
    ensures
        btree::pairs(out@) == btree::pairs(found@).filter(
            found_by_scan(meta@, query::filters_view(filters@)),
        ),
        all_long(found@) ==> all_long(out@),
{
    let ghost list = btree::pairs(found@);
    let ghost pred = found_by_scan(meta@, query::filters_view(filters@));
    let n: usize = found.len();
    let mut out: Vec<(u64, Vec<u8>)> = Vec::new();
    let mut i: usize = 0;
    proof {
        btree::filter_none(list.take(0), pred);
        assert(btree::pairs(out@) =~= list.take(0).filter(pred));
    }
    while i < n
        invariant
            i <= n,
            n == found@.len(),
            list == btree::pairs(found@),
            pred == found_by_scan(meta@, query::filters_view(filters@)),
            btree::pairs(out@) == list.take(i as int).filter(pred),
            all_long(found@) ==> all_long(out@),
        decreases n - i,
    {
        let ghost before = out@;
        proof {
            assert(list.take(i + 1) =~= list.take(i as int).push(list[i as int]));
            btree::filter_push(list.take(i as int), list[i as int], pred);
            assert(list[i as int] == (found@[i as int].0, found@[i as int].1@));
        }
        if row_passes(meta, filters, found[i].1.as_slice()) {
            out.push((found[i].0, crate::bytes::copy_slice(found[i].1.as_slice())));
            proof {
                assert(btree::pairs(out@) =~= btree::pairs(before).push(list[i as int]));
            }
        }
        i += 1;
    }
    assert(list.take(n as int) =~= list);
    out
}

/// All rows of a list are whole.
pub open spec fn all_long(v: Seq<(u64, Vec<u8>)>) -> bool {
    forall|i: int| 0 <= i < v.len() ==> (#[trigger] v[i]).1@.len() >= 8
}

/// Rows of a sound table are whole.
pub proof fn sound_rows_long(m: Map<u32, Seq<u8>>, v: TableView, found: Seq<(u64, Vec<u8>)>)
    requires
        store::rows_sound(m, v.root_page),
        btree::pairs(found) == row_list(m, v),
    ensures
        all_long(found),
{
    store::cells_sound(m, v.root_page);
    let cells = btree::all_cells(m, v.root_page);
    let list = row_list(m, v);
    assert(btree::pairs(found).len() == found.len());
    assert(list.len() == cells.len());
    assert forall|i: int| 0 <= i < found.len() implies (#[trigger] found[i]).1@.len() >= 8 by {
        assert(btree::pairs(found)[i] == (found[i].0, found[i].1@));
        let c = btree::all_cells(m, v.root_page)[i];
        assert(list[i] == btree::whole(m, c.1));
        assert(store::good_cell(m, c.0, c.1));
    }
}

/// Choosing cells and then reading them is reading them and then choosing.
proof fn filter_expanded(
    m: Map<u32, Seq<u8>>,
    cells: Seq<(u64, Seq<u8>)>,
    p: spec_fn((u64, Seq<u8>)) -> bool,
    q: spec_fn((u64, Seq<u8>)) -> bool,
)
    requires
        forall|i: int| 0 <= i < cells.len() ==> p(#[trigger] cells[i]) == q(btree::whole(m, cells[i].1)),
    ensures
        btree::expanded(m, cells.filter(p)) == btree::expanded(m, cells).filter(q),
    decreases cells.len(),
{
    if cells.len() == 0 {
        btree::filter_none(cells, p);
        btree::filter_none(btree::expanded(m, cells), q);
        assert(btree::expanded(m, cells.filter(p)) =~= btree::expanded(m, cells).filter(q));
    } else {
        let rest = cells.drop_last();
        let c = cells.last();
        assert forall|i: int| 0 <= i < rest.len() implies p(#[trigger] rest[i]) == q(
            btree::whole(m, rest[i].1),
        ) by {
            assert(rest[i] == cells[i]);
        }
        filter_expanded(m, rest, p, q);
        assert(cells =~= rest.push(c));
        assert(btree::expanded(m, cells) =~= btree::expanded(m, rest).push(btree::whole(m, c.1)));
        btree::filter_push(rest, c, p);
        btree::filter_push(btree::expanded(m, rest), btree::whole(m, c.1), q);
        assert(cells[cells.len() - 1] == c);
        if p(c) {
            assert(btree::expanded(m, rest.filter(p).push(c)) =~= btree::expanded(
                m,
                rest.filter(p),
            ).push(btree::whole(m, c.1)));
        }
    }
}

/// Choosing twice is choosing by both.
proof fn filter_twice(
    s: Seq<(u64, Seq<u8>)>,
    p: spec_fn((u64, Seq<u8>)) -> bool,
    q: spec_fn((u64, Seq<u8>)) -> bool,
    both: spec_fn((u64, Seq<u8>)) -> bool,
)
    requires
        forall|it: (u64, Seq<u8>)| #[trigger] both(it) == (p(it) && q(it)),
    ensures
        s.filter(p).filter(q) == s.filter(both),
    decreases s.len(),
{
    if s.len() == 0 {
        btree::filter_none(s, p);
        btree::filter_none(s.filter(p), q);
        btree::filter_none(s, both);
    } else {
        let rest = s.drop_last();
        let x = s.last();
        filter_twice(rest, p, q, both);
        assert(s =~= rest.push(x));
        btree::filter_push(rest, x, p);
        btree::filter_push(rest, x, both);
        if p(x) {
            btree::filter_push(rest.filter(p), x, q);
        }
    }
}

/// Choosing by predicates that agree.
pub proof fn filter_same(
    s: Seq<(u64, Seq<u8>)>,
    p: spec_fn((u64, Seq<u8>)) -> bool,
    q: spec_fn((u64, Seq<u8>)) -> bool,
)
    requires
        forall|i: int| 0 <= i < s.len() ==> p(#[trigger] s[i]) == q(s[i]),
    ensures
        s.filter(p) == s.filter(q),
    decreases s.len(),
{
    if s.len() == 0 {
        btree::filter_none(s, p);
        btree::filter_none(s, q);
    } else {
        let rest = s.drop_last();
        assert forall|i: int| 0 <= i < rest.len() implies p(#[trigger] rest[i]) == q(rest[i]) by {
            assert(rest[i] == s[i]);
        }
        filter_same(rest, p, q);
        assert(s =~= rest.push(s.last()));
        btree::filter_push(rest, s.last(), p);
        btree::filter_push(rest, s.last(), q);
        assert(s[s.len() - 1] == s.last());
    }
}

/// What is in a filtered list.
proof fn in_filter(s: Seq<(Seq<u8>, ())>, p: spec_fn((Seq<u8>, ())) -> bool, x: (Seq<u8>, ()))
    ensures
        s.filter(p).contains(x) <==> s.contains(x) && p(x),
    decreases s.len(),
{
    if s.len() == 0 {
        btree::filter_none(s, p);
    } else {
        let rest = s.drop_last();
        let l = s.last();
        in_filter(rest, p, x);
        assert(s =~= rest.push(l));
        btree::filter_push(rest, l, p);
        push_has(rest, l, x);
        push_has(rest.filter(p), l, x);
    }
}

proof fn push_has(s: Seq<(Seq<u8>, ())>, l: (Seq<u8>, ()), x: (Seq<u8>, ()))
    ensures
        s.push(l).contains(x) <==> s.contains(x) || x == l,
{
    let t = s.push(l);
    assert(t[s.len() as int] == l);
    if s.contains(x) {
        let i = choose|i: int| 0 <= i < s.len() && s[i] == x;
        assert(t[i] == x);
    }
    if t.contains(x) && x != l {
        let i = choose|i: int| 0 <= i < t.len() && t[i] == x;
        assert(s[i] == x);
    }
}

/// The keys that a scan of an index finds are those it holds with the prefix.
proof fn scanned_keys(m: Map<u32, Seq<u8>>, root: u32, prefix: Seq<u8>, key: Seq<u8>)
    requires
        index_tree::is_index(m, root),
    ensures
        index_tree::keys_with(m, root, prefix).contains(key) <==> index_tree::key_at(m, root, key)
            is Some && prefix.is_prefix_of(key),
{
    let all = index_tree::all_keys(m, root);
    let f = all.filter(index_tree::prefix_fn(prefix));
    let ks = index_tree::keys_with(m, root, prefix);
    tree::all_sorted(index_node::idx_view(m), root);
    in_filter(all, index_tree::prefix_fn(prefix), (key, ()));
    assert(index_tree::key_at(m, root, key) == tree::item_find(all, key));
    if ks.contains(key) {
        let i = choose|i: int| 0 <= i < ks.len() && ks[i] == key;
        assert(f[i] == (key, ()));
        assert(f.contains((key, ())));
        let j = choose|j: int| 0 <= j < all.len() && all[j] == (key, ());
        assert(all[j].0 == key);
    }
    if index_tree::key_at(m, root, key) is Some && prefix.is_prefix_of(key) {
        let j = choose|j: int| 0 <= j < all.len() && (#[trigger] all[j]).0 == key;
        assert(all[j] == (key, ()));
        assert(all.contains((key, ())));
        let i = choose|i: int| 0 <= i < f.len() && f[i] == (key, ());
        assert(ks[i] == key);
    }
}

/// The number that a key ends with.
pub open spec fn rowid_in(t: Type, key: Seq<u8>) -> int {
    if t == Type::Text {
        index::from_be(key.subrange(key.len() - 8, key.len() as int))
    } else {
        index::from_be(key.subrange(8, 16))
    }
}

/// The rows that the keys with a prefix name are those that the index lists
/// under it.
proof fn index_names_rows(
    m: Map<u32, Seq<u8>>,
    v: TableView,
    ix: IndexView,
    t: Type,
    prefix: Seq<u8>,
    rows: Map<u64, Seq<u8>>,
    keys: Seq<Seq<u8>>,
)
    requires
        store::index_matches(m, v.columns, ix, rows),
        table::column_type(v.columns, table::leading(ix)) == Some(t),
        keys == index_tree::keys_with(m, ix.root_page, prefix),
    ensures
        forall|j: int|
            0 <= j < keys.len() ==> {
                &&& (#[trigger] keys[j]).len() >= 9
                &&& t != Type::Text ==> keys[j].len() == 16
                &&& 0 <= rowid_in(t, keys[j]) <= u64::MAX
                &&& rows.contains_key(rowid_in(t, keys[j]) as u64)
                &&& index_hit(
                    v,
                    ix,
                    prefix,
                    (rowid_in(t, keys[j]) as u64, rows[rowid_in(t, keys[j]) as u64]),
                )
            },
        forall|k: u64|
            rows.contains_key(k) && #[trigger] index_hit(v, ix, prefix, (k, rows[k])) ==> exists|j: int|
                0 <= j < keys.len() && rowid_in(t, #[trigger] keys[j]) == k,
{
    reveal(store::index_matches);
    let column = table::leading(ix);
    assert forall|j: int| 0 <= j < keys.len() implies {
        &&& (#[trigger] keys[j]).len() >= 9
        &&& t != Type::Text ==> keys[j].len() == 16
        &&& 0 <= rowid_in(t, keys[j]) <= u64::MAX
        &&& rows.contains_key(rowid_in(t, keys[j]) as u64)
        &&& index_hit(
            v,
            ix,
            prefix,
            (rowid_in(t, keys[j]) as u64, rows[rowid_in(t, keys[j]) as u64]),
        )
    } by {
        let key = keys[j];
        scanned_keys(m, ix.root_page, prefix, key);
        assert(keys.contains(key));
        assert(store::listed(v.columns, ix, rows, key));
        let k = choose|k: u64|
            rows.contains_key(k) && (#[trigger] store::entry_of(v.columns, ix, rows[k], k)) == Some(
                Some(key),
            );
        key_rowid(v, ix, t, rows[k], k, key);
    }
    assert forall|k: u64|
        rows.contains_key(k) && #[trigger] index_hit(v, ix, prefix, (k, rows[k])) implies exists|j: int|
        0 <= j < keys.len() && rowid_in(t, #[trigger] keys[j]) == k by {
        let key = store::entry_of(v.columns, ix, rows[k], k)->0->0;
        assert(store::listed(v.columns, ix, rows, key));
        scanned_keys(m, ix.root_page, prefix, key);
        let j = choose|j: int| 0 <= j < keys.len() && keys[j] == key;
        key_rowid(v, ix, t, rows[k], k, key);
        assert(rowid_in(t, keys[j]) == k);
    }
}

proof fn key_rowid(v: TableView, ix: IndexView, t: Type, bytes: Seq<u8>, k: u64, key: Seq<u8>)
    requires
        store::entry_of(v.columns, ix, bytes, k) == Some(Some(key)),
        table::column_type(v.columns, table::leading(ix)) == Some(t),
    ensures
        key.len() >= 9,
        t != Type::Text ==> key.len() == 16,
        rowid_in(t, key) == k,
{
    let c = table::column_id(v.columns, table::leading(ix))->0;
    let x = match crate::row::column_of(bytes, c) {
        Some(Some(x)) => x,
        _ => ValueView::Null,
    };
    index::rowid_round_trip(t, x, k);
}

/// Puts a number into an ascending list.
fn insert_id(ids: &mut Vec<u64>, id: u64)
    requires
        btree::ascending(old(ids)@),
    ensures
        btree::ascending(final(ids)@),
        forall|k: u64| #[trigger] final(ids)@.contains(k) <==> old(ids)@.contains(k) || k == id,
{
    let ghost before = ids@;
    let mut at: usize = ids.len();
    while at > 0 && ids[at - 1] > id
        invariant
            at <= ids@.len(),
            ids@ == before,
            forall|i: int| at <= i < ids@.len() ==> (#[trigger] ids@[i]) > id,
        ensures
            at <= ids@.len(),
            forall|i: int| at <= i < ids@.len() ==> (#[trigger] ids@[i]) > id,
            at > 0 ==> ids@[at - 1] <= id,
        decreases at,
    {
        at -= 1;
    }
    ids.insert(at, id);
    proof {
        let now = ids@;
        assert forall|i: int, j: int| 0 <= i <= j < now.len() implies now[i] <= now[j] by {
            let x = if i < at {
                before[i]
            } else if i == at {
                id
            } else {
                before[i - 1]
            };
            let y = if j < at {
                before[j]
            } else if j == at {
                id
            } else {
                before[j - 1]
            };
            assert(now[i] == x && now[j] == y);
            if at > 0 && i < at {
                assert(before[i] <= before[at - 1]);
            }
        }
        assert forall|k: u64| #[trigger] now.contains(k) <==> before.contains(k) || k == id by {
            assert(now[at as int] == id);
            if before.contains(k) {
                let i = choose|i: int| 0 <= i < before.len() && before[i] == k;
                if i < at {
                    assert(now[i] == k);
                } else {
                    assert(now[i + 1] == k);
                }
            }
            if now.contains(k) && k != id {
                let i = choose|i: int| 0 <= i < now.len() && now[i] == k;
                if i < at {
                    assert(before[i] == k);
                } else {
                    assert(before[i - 1] == k);
                }
            }
        }
    }
}

/// The numbers that keys end with, in ascending order.
fn rowids_in(t: Type, keys: &Vec<Vec<u8>>) -> (r: Result<Vec<u64>>)
    requires
        t == Type::Integer || t == Type::Real || t == Type::Text,
    ensures
        r matches Ok(ids) ==> btree::ascending(ids@) && forall|k: u64| #[trigger]
            ids@.contains(k) <==> exists|j: int|
                0 <= j < keys@.len() && rowid_in(t, (#[trigger] keys@[j])@) == k,
        (forall|j: int|
            0 <= j < keys@.len() ==> (#[trigger] keys@[j])@.len() >= 9 && (t != Type::Text
                ==> keys@[j]@.len() == 16)) ==> r is Ok,
        r matches Err(e) ==> e is Corruption,
{
    let n: usize = keys.len();
    let mut ids: Vec<u64> = Vec::new();
    let mut j: usize = 0;
    while j < n
        invariant
            j <= n,
            n == keys@.len(),
            t == Type::Integer || t == Type::Real || t == Type::Text,
            btree::ascending(ids@),
            forall|k: u64| #[trigger]
                ids@.contains(k) <==> exists|i: int|
                    0 <= i < j && rowid_in(t, (#[trigger] keys@[i])@) == k,
        decreases n - j,
    {
        let key: &Vec<u8> = &keys[j];
        if key.len() < 8 || (t != Type::Text && key.len() < 16) {
            return Err(corruption("index key too short"));
        }
        let id: u64 = extract_rowid(t, key.as_slice());
        let ghost before = ids@;
        insert_id(&mut ids, id);
        proof {
            assert(rowid_in(t, keys@[j as int]@) == id);
            assert forall|k: u64| #[trigger] ids@.contains(k) <==> exists|i: int|
                0 <= i < j + 1 && rowid_in(t, (#[trigger] keys@[i])@) == k by {
                assert(before.contains(k) <==> exists|i: int|
                    0 <= i < j && rowid_in(t, (#[trigger] keys@[i])@) == k);
                if ids@.contains(k) {
                    if k == id {
                        assert(rowid_in(t, keys@[j as int]@) == k);
                    } else {
                        let i = choose|i: int| 0 <= i < j && rowid_in(t, (#[trigger] keys@[i])@) == k;
                        assert(rowid_in(t, keys@[i]@) == k);
                    }
                }
                if exists|i: int| 0 <= i < j + 1 && rowid_in(t, (#[trigger] keys@[i])@) == k {
                    let i = choose|i: int|
                        0 <= i < j + 1 && rowid_in(t, (#[trigger] keys@[i])@) == k;
                    if i < j {
                        assert(rowid_in(t, keys@[i]@) == k);
                    }
                }
            }
        }
        j += 1;
    }
    Ok(ids)
}

/// Gives each row its number.
fn numbered_rows(rows: Vec<Vec<u8>>) -> (r: Result<Vec<(u64, Vec<u8>)>>)
    ensures
        (forall|i: int| 0 <= i < rows@.len() ==> (#[trigger] rows@[i])@.len() >= 8) ==> (
        r matches Ok(out) && all_long(out@) && btree::pairs(out@) == rows@.map_values(
            |b: Vec<u8>| (btree_node::id_of(b@), b@),
        )),
        r matches Err(e) ==> e is Corruption,
{
    let n: usize = rows.len();
    let mut out: Vec<(u64, Vec<u8>)> = Vec::new();
    let mut i: usize = 0;
    while i < n
        invariant
            i <= n,
            n == rows@.len(),
            out@.len() == i,
            all_long(out@),
            forall|j: int|
                0 <= j < i ==> (#[trigger] out@[j]).1@ == rows@[j]@ && out@[j].0
                    == btree_node::id_of(rows@[j]@),
        decreases n - i,
    {
        let id: u64 = crate::row::extract_id(rows[i].as_slice())?;
        out.push((id, crate::bytes::copy_slice(rows[i].as_slice())));
        i += 1;
    }
    proof {
        assert(btree::pairs(out@) =~= rows@.map_values(
            |b: Vec<u8>| (btree_node::id_of(b@), b@),
        ));
    }
    Ok(out)
}

/// Finds rows by the index that answers a filter.
fn by_index(file: &PageFile, meta: &TableMeta, filters: &Vec<Filter>, j: usize) -> (r: Result<
    Vec<(u64, Vec<u8>)>,
>)
    requires
        index_filter(meta@, query::filters_view(filters@)) == Some(j as int),
        j < filters@.len(),
        answers(meta@, filters@[j as int]@),
    ensures
        engine::table_sound(file.contents(), meta@) && searchable(
            file.contents(),
            meta@,
            query::filters_view(filters@),
        ) ==> (r matches Ok(out) && all_long(out@) && btree::pairs(out@) == matching(
            file.contents(),
            meta@,
            query::filters_view(filters@),
        )),
        r matches Err(e) ==> e is Corruption || e is Io,
{
    let ghost m = file.contents();
    let ghost v = meta@;
    let ghost fs = query::filters_view(filters@);
    let ghost good = engine::table_sound(m, v) && searchable(m, v, fs);
    let f = &filters[j];
    let ghost p = table::index_for(v.indexes, f.column@)->0;
    let ghost ix = v.indexes[p];
    proof {
        assert(fs[j as int] == f@);
        table::index_for_first(v.indexes, f.column@);
        assert(table::leading(ix) == f.column@);
        if good {
            reveal(engine::table_sound);
            store::always_workable(m, v);
            assert(store::shallow(m, v, p));
            reveal(store::table_ok);
            assert(store::staged(m, v, store::table_rows(m, v), store::table_rows(m, v), 0, p));
        }
    }
    let root: u32 = match meta.find_index_for_column(f.column.as_str()) {
        Some(x) => x.root_page,
        None => {
            return Ok(Vec::new());
        },
    };
    let ct: Type = match meta.col_type(f.column.as_str()) {
        Some(t) => t,
        None => {
            let out: Vec<(u64, Vec<u8>)> = Vec::new();
            assert(btree::pairs(out@) =~= Seq::empty());
            return Ok(out);
        },
    };
    let prefix: Vec<u8> = match encode_value_prefix(ct, &f.value) {
        Some(b) => b,
        None => {
            let out: Vec<(u64, Vec<u8>)> = Vec::new();
            assert(btree::pairs(out@) =~= Seq::empty());
            return Ok(out);
        },
    };
    assert(ct == Type::Integer || ct == Type::Real || ct == Type::Text);
    let index_reader = IndexTreeReader::new(file, root);
    let keys: Vec<Vec<u8>> = index_reader.scan_prefix(prefix.as_slice())?;
    let ghost key_list = index_node::key_views(keys@);
    let ghost rows = store::table_rows(m, v);
    proof {
        if good {
            assert(index_tree::walkable_index(m, v.indexes[p].root_page));
            index_names_rows(m, v, ix, ct, prefix@, rows, key_list);
            assert forall|x: int| 0 <= x < keys@.len() implies (#[trigger] keys@[x])@.len() >= 9 && (
            ct != Type::Text ==> keys@[x]@.len() == 16) by {
                assert(key_list[x] == keys@[x]@);
            }
        }
    }
    let ids: Vec<u64> = rowids_in(ct, &keys)?;
    let reader = BTreeReader::new(file, meta.root_page);
    proof {
        if good {
            wanted_whole(m, v.root_page, ids@);
        }
    }
    let raw: Vec<Vec<u8>> = reader.multi_get_sorted(ids.as_slice())?;
    proof {
        if good {
            rows_by_ids(m, v, ix, ct, prefix@, keys@, ids@, raw@);
        }
    }
    let found: Vec<(u64, Vec<u8>)> = numbered_rows(raw)?;
    let ghost hitting = |it: (u64, Seq<u8>)| index_hit(v, ix, prefix@, it);
    proof {
        if good {
            assert(btree::pairs(found@) == row_list(m, v).filter(hitting));
        }
    }
    let out = keep_passing(found, meta, filters.as_slice());
    proof {
        if good {
            filter_twice(
                row_list(m, v),
                hitting,
                found_by_scan(v, fs),
                found_by_index(v, ix, prefix@, fs),
            );
        }
    }
    Ok(out)
}

/// Every cell that is asked for by number can be read whole.
proof fn wanted_whole(m: Map<u32, Seq<u8>>, root: u32, ids: Seq<u64>)
    requires
        store::rows_sound(m, root),
    ensures
        ({
            let w = btree::wanted(btree::all_cells(m, root), ids);
            &&& btree::all_whole(m, w)
            &&& forall|i: int| 0 <= i < w.len() ==> btree::whole(m, (#[trigger] w[i]).1).1.len() >= 8
        }),
{
    let cells = btree::all_cells(m, root);
    let w = btree::wanted(cells, ids);
    store::cells_sound(m, root);
    tree::all_sorted(btree::view_of(m), root);
    store::filtered_find(cells, btree::id_among(ids), 0);
    assert forall|i: int| 0 <= i < w.len() implies btree::expand(m, (#[trigger] w[i]).1) is Some
        && btree::whole(m, w[i].1).1.len() >= 8 by {
        assert(cells.contains(w[i]));
        let x = choose|x: int| 0 <= x < cells.len() && cells[x] == w[i];
        let c = btree::all_cells(m, root)[x];
        assert(store::good_cell(m, c.0, c.1));
    }
}

/// The rows fetched for the numbers that the index names are the rows that it
/// lists.
proof fn rows_by_ids(
    m: Map<u32, Seq<u8>>,
    v: TableView,
    ix: IndexView,
    t: Type,
    prefix: Seq<u8>,
    keys: Seq<Vec<u8>>,
    ids: Seq<u64>,
    raw: Seq<Vec<u8>>,
)
    requires
        store::rows_sound(m, v.root_page),
        btree::walkable(m, v.root_page),
        store::index_matches(m, v.columns, ix, store::table_rows(m, v)),
        table::column_type(v.columns, table::leading(ix)) == Some(t),
        index_node::key_views(keys) == index_tree::keys_with(m, ix.root_page, prefix),
        btree::ascending(ids),
        forall|k: u64| #[trigger]
            ids.contains(k) <==> exists|j: int|
                0 <= j < keys.len() && rowid_in(t, (#[trigger] keys[j])@) == k,
        ({
            let w = btree::wanted(btree::all_cells(m, v.root_page), ids);
            btree::all_whole(m, w) ==> btree::blobs(raw) == btree::full_rows(m, w)
        }),
    ensures
        btree::all_whole(m, btree::wanted(btree::all_cells(m, v.root_page), ids)),
        forall|i: int| 0 <= i < raw.len() ==> (#[trigger] raw[i])@.len() >= 8,
        raw.map_values(|b: Vec<u8>| (btree_node::id_of(b@), b@)) == row_list(m, v).filter(
            |it: (u64, Seq<u8>)| index_hit(v, ix, prefix, it),
        ),
{
    let root = v.root_page;
    let cells = btree::all_cells(m, root);
    let rows = store::table_rows(m, v);
    let w = btree::wanted(cells, ids);
    let key_list = index_node::key_views(keys);
    let hitting = |it: (u64, Seq<u8>)| index_hit(v, ix, prefix, it);
    store::cells_sound(m, root);
    tree::all_sorted(btree::view_of(m), root);
    index_names_rows(m, v, ix, t, prefix, rows, key_list);
    wanted_whole(m, root, ids);
    assert forall|i: int| 0 <= i < cells.len() implies btree::id_among(ids)(#[trigger] cells[i])
        == hitting(btree::whole(m, cells[i].1)) by {
        let c = btree::all_cells(m, root)[i];
        assert(btree::whole(m, c.1) == (c.0, rows[c.0]));
        if ids.contains(c.0) {
            let j = choose|j: int| 0 <= j < keys.len() && rowid_in(t, (#[trigger] keys[j])@) == c.0;
            assert(key_list[j] == keys[j]@);
        }
        if index_hit(v, ix, prefix, (c.0, rows[c.0])) {
            let j = choose|j: int| 0 <= j < key_list.len() && rowid_in(t, #[trigger] key_list[j]) == c.0;
            assert(key_list[j] == keys[j]@);
            assert(rowid_in(t, keys[j]@) == c.0);
        }
    }
    filter_expanded(m, cells, btree::id_among(ids), hitting);
    let got = raw.map_values(|b: Vec<u8>| (btree_node::id_of(b@), b@));
    assert(btree::blobs(raw).len() == raw.len());
    assert forall|i: int| 0 <= i < raw.len() implies (#[trigger] raw[i])@ == btree::expand(
        m,
        w[i].1,
    )->0 by {
        assert(btree::blobs(raw)[i] == raw[i]@);
        assert(btree::full_rows(m, w)[i] == btree::expand(m, w[i].1)->0);
    }
    assert(got =~= btree::expanded(m, w));
}

/// Skipping and taking is the same when enough rows were counted.
proof fn window_of_first<A>(s: Seq<A>, n: int, skip: int, take: int)
    requires
        0 <= n <= s.len(),
        0 <= skip,
        0 <= take,
        n >= skip + take || n == s.len(),
    ensures
        btree::window(s.take(n), skip, take) == btree::window(s, skip, take),
{
    assert(btree::window(s.take(n), skip, take) =~= btree::window(s, skip, take));
}

/// A window of what is read is what is read of the window.
proof fn window_expanded(m: Map<u32, Seq<u8>>, s: Seq<(u64, Seq<u8>)>, skip: int, take: int)
    requires
        0 <= skip,
        0 <= take,
    ensures
        btree::expanded(m, btree::window(s, skip, take)) == btree::window(
            btree::expanded(m, s),
            skip,
            take,
        ),
{
    assert(btree::expanded(m, btree::window(s, skip, take)) =~= btree::window(
        btree::expanded(m, s),
        skip,
        take,
    ));
}

/// A window of named rows is the rows of the window, named.
proof fn window_named(s: Seq<(u64, Seq<u8>)>, v: TableView, skip: int, take: int)
    requires
        0 <= skip,
        0 <= take,
    ensures
        named(btree::window(s, skip, take), v) == btree::window(named(s, v), skip, take),
{
    assert(named(btree::window(s, skip, take), v) =~= btree::window(named(s, v), skip, take));
}

/// Finds rows by a single filter, already skipping and taking where nothing is
/// sorted: the rows, and how many match as far as that was counted.
fn by_filter(file: &PageFile, meta: &TableMeta, opts: &FindOptions, col_id: u16) -> (r: Result<
    (Vec<(u64, Vec<u8>)>, u64),
>)
    requires
        opts.filters@.len() == 1,
        table::column_id(meta@.columns, opts.filters@[0].column@) == Some(col_id),
        index_filter(meta@, query::filters_view(opts.filters@)) is None,
    ensures
        ({
            let m = file.contents();
            let v = meta@;
            let fs = query::filters_view(opts.filters@);
            let all = matching(m, v, fs);
            engine::table_sound(m, v) && searchable(m, v, fs) ==> (r matches Ok(x) && all_long(
                x.0@,
            ) && btree::pairs(x.0@) == (if opts.sort@.len() == 0 {
                query::page_rows(all, opts.offset, opts.limit)
            } else {
                all
            }) && (opts.include_total ==> x.1 == all.len()))
        }),
        r matches Err(e) ==> e is Corruption || e is Io,
{
    let ghost m = file.contents();
    let ghost v = meta@;
    let ghost fs = query::filters_view(opts.filters@);
    let ghost good = engine::table_sound(m, v) && searchable(m, v, fs);
    proof {
        if good {
            reveal(engine::table_sound);
            store::always_workable(m, v);
        }
    }
    let f = &opts.filters[0];
    let sorting: bool = opts.sort.len() > 0;
    let (lim, off): (Option<u32>, Option<u32>) = if sorting {
        (None, None)
    } else {
        (opts.limit, opts.offset)
    };
    let stop: Option<u64> = if sorting || opts.include_total {
        None
    } else {
        match opts.limit {
            Some(l) => {
                let skip: u64 = match opts.offset {
                    Some(o) => o as u64,
                    None => 0,
                };
                Some(skip + l as u64)
            },
            None => None,
        }
    };
    let reader = BTreeReader::new(file, meta.root_page);
    let found: (Vec<(u64, Vec<u8>)>, u64) = reader.scan_filtered(
        col_id,
        f.op,
        &f.value,
        lim,
        off,
        stop,
    )?;
    proof {
        assert(fs[0] == f@);
        if good {
            reveal(engine::table_sound);
            reveal(store::table_ok);
            filter_answer(m, v, fs, col_id, lim, off, stop, found.0@, found.1, sorting);
        }
    }
    Ok(found)
}

/// What a filtered scan returns, in terms of the rows that match.
proof fn filter_answer(
    m: Map<u32, Seq<u8>>,
    v: TableView,
    fs: Seq<FilterView>,
    c: u16,
    lim: Option<u32>,
    off: Option<u32>,
    stop: Option<u64>,
    out: Seq<(u64, Vec<u8>)>,
    n: u64,
    sorting: bool,
)
    requires
        store::rows_sound(m, v.root_page),
        searchable(m, v, fs),
        fs.len() == 1,
        index_filter(v, fs) is None,
        table::column_id(v.columns, fs[0].column) == Some(c),
        sorting ==> lim is None && off is None && stop is None,
        stop matches Some(x) ==> x == query::skip_of(off) + query::take_of(lim),
        ({
            let sel = btree::all_cells(m, v.root_page).filter(
                btree::hits(m, c, fs[0].op, fs[0].value),
            );
            &&& n == btree::counted(sel.len(), stop)
            &&& btree::pairs(out) == btree::expanded(
                m,
                btree::window(sel.take(n as int), query::skip_of(off), query::take_of(lim)),
            )
        }),
    ensures
        all_long(out),
        btree::pairs(out) == if sorting {
            matching(m, v, fs)
        } else {
            query::page_rows(matching(m, v, fs), off, lim)
        },
        stop is None ==> n == matching(m, v, fs).len(),
{
    let cells = btree::all_cells(m, v.root_page);
    let p = btree::hits(m, c, fs[0].op, fs[0].value);
    let sel = cells.filter(p);
    let skip = query::skip_of(off);
    let take = query::take_of(lim);
    let all = matching(m, v, fs);
    assert(all == btree::expanded(m, sel));
    assert(all.len() == sel.len());
    window_of_first(sel, n as int, skip, take);
    window_expanded(m, sel, skip, take);
    filter_shorter(cells, p);
    if sorting {
        assert(btree::window(all, 0, take) =~= all);
    }
    store::cells_sound(m, v.root_page);
    tree::all_sorted(btree::view_of(m), v.root_page);
    store::filtered_find(cells, p, 0);
    let w = btree::window(sel, skip, take);
    assert(btree::pairs(out).len() == out.len());
    assert forall|i: int| 0 <= i < out.len() implies (#[trigger] out[i]).1@.len() >= 8 by {
        assert(btree::pairs(out)[i] == (out[i].0, out[i].1@));
        let it = w[i];
        assert(btree::expanded(m, w)[i] == btree::whole(m, it.1));
        assert(sel.contains(it)) by {
            let a = if skip <= sel.len() {
                skip
            } else {
                sel.len() as int
            };
            assert(sel[a + i] == it);
        }
        let y = choose|y: int| 0 <= y < sel.len() && sel[y] == it;
        assert(cells.contains(sel[y]));
        let x = choose|x: int| 0 <= x < cells.len() && cells[x] == it;
        let c2 = btree::all_cells(m, v.root_page)[x];
        assert(store::good_cell(m, c2.0, c2.1));
    }
}

/// A part of a list is no longer than the list.
proof fn filter_shorter(s: Seq<(u64, Seq<u8>)>, p: spec_fn((u64, Seq<u8>)) -> bool)
    ensures
        s.filter(p).len() <= s.len(),
    decreases s.len(),
{
    if s.len() == 0 {
        btree::filter_none(s, p);
    } else {
        filter_shorter(s.drop_last(), p);
        assert(s =~= s.drop_last().push(s.last()));
        btree::filter_push(s.drop_last(), s.last(), p);
    }
}

/// Finds rows by a scan of all.
fn by_scan(file: &PageFile, meta: &TableMeta, filters: &Vec<Filter>) -> (r: Result<
    Vec<(u64, Vec<u8>)>,
>)
    ensures
        ({
            let m = file.contents();
            let v = meta@;
            let fs = query::filters_view(filters@);
            engine::table_sound(m, v) ==> (r matches Ok(out) && all_long(out@) && btree::pairs(out@)
                == row_list(m, v).filter(found_by_scan(v, fs)))
        }),
        r matches Err(e) ==> e is Corruption || e is Io,
{
    let ghost m = file.contents();
    let ghost v = meta@;
    let reader = BTreeReader::new(file, meta.root_page);
    proof {
        if engine::table_sound(m, v) {
            reveal(engine::table_sound);
            store::always_workable(m, v);
            reveal(store::table_ok);
            store::cells_sound(m, v.root_page);
        }
    }
    let all: Vec<(u64, Vec<u8>)> = reader.scan_all()?;
    proof {
        if engine::table_sound(m, v) {
            sound_rows_long(m, v, all@);
        }
    }
    Ok(keep_passing(all, meta, filters.as_slice()))
}

/// Sorts and cuts out what a query asks for.
pub(crate) fn finish_query(found: Vec<(u64, Vec<u8>)>, meta: &TableMeta, opts: &FindOptions) -> (r: Result<
    FindResult,
>)
    ensures
        all_long(found@) ==> (r matches Ok(f) && answered(btree::pairs(found@), meta@, *opts, f)),
        r matches Err(e) ==> e is Corruption,
{
    let rows = rows_out(&found, meta)?;
    let total: Option<u64> = if opts.include_total {
        Some(rows.len() as u64)
    } else {
        None
    };
    let sorted = sort_rows(rows, opts.sort.as_slice());
    Ok(FindResult { rows: paginate(sorted, opts.offset, opts.limit), total })
}

/// Find rows of a table matching filters, with sort and pagination.
pub fn find_rows(file: &PageFile, meta: &TableMeta, opts: &FindOptions) -> (r: Result<FindResult>)
    ensures
        ({
            let m = file.contents();
            let v = meta@;
            let fs = query::filters_view(opts.filters@);
            engine::table_sound(m, v) && searchable(m, v, fs) ==> (r matches Ok(f) && answered(
                matching(m, v, fs),
                v,
                *opts,
                f,
            ))
        }),
        r matches Err(e) ==> e is Corruption || e is Io,
{
    let ghost m = file.contents();
    let ghost v = meta@;
    let ghost fs = query::filters_view(opts.filters@);
    match find_index_filter(meta, &opts.filters) {
        Some(j) => {
            let found = by_index(file, meta, &opts.filters, j)?;
            finish_query(found, meta, opts)
        },
        None => {
            if opts.filters.len() == 1 {
                match meta.col_id(opts.filters[0].column.as_str()) {
                    None => {
                        let found: Vec<(u64, Vec<u8>)> = Vec::new();
                        assert(fs[0] == opts.filters@[0]@);
                        assert(btree::pairs(found@) =~= Seq::empty());
                        finish_query(found, meta, opts)
                    },
                    Some(c) => {
                        assert(fs[0] == opts.filters@[0]@);
                        let (found, count): (Vec<(u64, Vec<u8>)>, u64) = by_filter(
                            file,
                            meta,
                            opts,
                            c,
                        )?;
                        let rows = rows_out(&found, meta)?;
                        let total: Option<u64> = if opts.include_total {
                            Some(count)
                        } else {
                            None
                        };
                        if opts.sort.len() == 0 {
                            proof {
                                let all = matching(m, v, fs);
                                window_named(
                                    all,
                                    v,
                                    query::skip_of(opts.offset),
                                    query::take_of(opts.limit),
                                );
                                assert(query::sorted_by_all(named(all, v), opts.sort@) == named(
                                    all,
                                    v,
                                ));
                            }
                            Ok(FindResult { rows, total })
                        } else {
                            let sorted = sort_rows(rows, opts.sort.as_slice());
                            Ok(FindResult { rows: paginate(sorted, opts.offset, opts.limit), total })
                        }
                    },
                }
            } else {
                let found = by_scan(file, meta, &opts.filters)?;
                finish_query(found, meta, opts)
            }
        },
    }
}

/// Every row is in the list of rows.
pub proof fn row_in_list(m: Map<u32, Seq<u8>>, v: TableView, k: u64)
    requires
        store::rows_sound(m, v.root_page),
        store::table_rows(m, v).contains_key(k),
    ensures
        row_list(m, v).contains((k, store::table_rows(m, v)[k])),
{
    let cells = btree::all_cells(m, v.root_page);
    store::cells_sound(m, v.root_page);
    tree::all_sorted(btree::view_of(m), v.root_page);
    assert(btree::cell_at(m, v.root_page, k) is Some);
    store::cell_listed(m, v.root_page, k);
    let i = choose|i: int| 0 <= i < cells.len() && (#[trigger] cells[i]).0 == k;
    let c = btree::all_cells(m, v.root_page)[i];
    assert(row_list(m, v)[i] == btree::whole(m, c.1));
}

/// How many rows of a table match filters. Without filters, all of them.
pub open spec fn count_of(m: Map<u32, Seq<u8>>, v: TableView, fs: Seq<FilterView>) -> int {
    if fs.len() == 0 {
        store::table_rows(m, v).dom().len() as int
    } else if fs.len() == 1 {
        matching(m, v, fs).len() as int
    } else {
        row_list(m, v).filter(found_by_scan(v, fs)).len() as int
    }
}

/// Count rows of a table matching filters.
pub fn count_rows(file: &PageFile, meta: &TableMeta, filters: &Vec<Filter>) -> (r: Result<u64>)
    ensures
        ({
            let m = file.contents();
            let v = meta@;
            let fs = query::filters_view(filters@);
            engine::table_sound(m, v) && (fs.len() > 0 ==> searchable(m, v, fs)) ==> (r matches Ok(
                n,
            ) && n == count_of(m, v, fs))
        }),
        filters@.len() == 0 ==> r == Ok::<u64, crate::error::BoogyError>(meta@.row_count),
        r matches Err(e) ==> e is Corruption || e is Io,
{
    let ghost m = file.contents();
    let ghost v = meta@;
    let ghost fs = query::filters_view(filters@);
    let ghost good = engine::table_sound(m, v) && searchable(m, v, fs);
    if filters.len() == 0 {
        proof {
            reveal(engine::table_sound);
        }
        return Ok(meta.row_count);
    }
    proof {
        if good {
            reveal(engine::table_sound);
            store::always_workable(m, v);
        }
    }
    if filters.len() == 1 {
        let f = &filters[0];
        assert(fs[0] == f@);
        assert(fs.drop_last() =~= Seq::empty());
        assert(index_filter(v, fs.drop_last()) is None);
        if index_answers(meta, f) {
            let found = by_index(file, meta, filters, 0)?;
            assert(btree::pairs(found@).len() == found@.len());
            return Ok(found.len() as u64);
        }
        match meta.col_id(f.column.as_str()) {
            None => Ok(0),
            Some(c) => {
                let reader = BTreeReader::new(file, meta.root_page);
                reader.count_filtered(c, f.op, &f.value)
            },
        }
    } else {
        let found = by_scan(file, meta, filters)?;
        proof {
            assert(btree::pairs(found@).len() == found@.len());
        }
        Ok(found.len() as u64)
    }
}

}
